//! Key derivations and the keyed primitives of the packet format: the
//! blinding factor, the header stream key, the header MAC and the payload
//! cipher, each built from the hash and cipher calls in `primitives`.
use vstd::prelude::*;
use crate::bytes::{append_bytes, fixed};
use crate::primitives::{
    hkdf_sha256_192, hkdf_sha256_okm, lioness_dec, lioness_decrypt, lioness_enc, lioness_encrypt,
    scalar_from_wide, scalar_reduce_wide, sha256, sha256_digest, sha512, sha512_digest,
};

verus! {

/// Domain tag `"h_b"`.
pub open spec fn tag_h_b() -> Seq<u8> {
    seq![104u8, 95u8, 98u8]
}

/// Domain tag `"h_rho"`.
pub open spec fn tag_h_rho() -> Seq<u8> {
    seq![104u8, 95u8, 114u8, 104u8, 111u8]
}

/// Domain tag `"h_mu"`.
pub open spec fn tag_h_mu() -> Seq<u8> {
    seq![104u8, 95u8, 109u8, 117u8]
}

/// Domain tag `"mu"`.
pub open spec fn tag_mu() -> Seq<u8> {
    seq![109u8, 117u8]
}

/// Domain tag `"h_pi"`.
pub open spec fn tag_h_pi() -> Seq<u8> {
    seq![104u8, 95u8, 112u8, 105u8]
}

/// Blinding factor for the group element `a` and shared secret `b`: the
/// SHA-512 hash of `"h_b" || a || b` reduced to a scalar.
pub open spec fn h_b_spec(a: Seq<u8>, b: Seq<u8>) -> Seq<u8> {
    scalar_reduce_wide(sha512_digest(tag_h_b() + a + b))
}

/// Key of the header stream cipher for a shared secret.
pub open spec fn h_rho_spec(a: Seq<u8>) -> Seq<u8> {
    sha256_digest(tag_h_rho() + a)
}

/// Header MAC key for a shared secret: 16 bytes of SHA-256.
pub open spec fn h_mu_spec(a: Seq<u8>) -> Seq<u8> {
    fixed(sha256_digest(tag_h_mu() + a), 16)
}

/// Header MAC of `data` under `key`: 16 bytes of SHA-256.
pub open spec fn mu_spec(key: Seq<u8>, data: Seq<u8>) -> Seq<u8> {
    fixed(sha256_digest(tag_mu() + key + data), 16)
}

/// Payload cipher key for a shared secret: 192 bytes of HKDF.
pub open spec fn h_pi_spec(a: Seq<u8>) -> Seq<u8> {
    hkdf_sha256_okm(tag_h_pi(), a)
}

/// The payload cipher: Lioness encryption, with the empty payload left
/// empty.
pub open spec fn pi_spec(key: Seq<u8>, data: Seq<u8>) -> Seq<u8> {
    if data.len() == 0 {
        Seq::empty()
    } else {
        lioness_enc(key, data)
    }
}

/// The inverse payload cipher: Lioness decryption, with the empty payload
/// left empty.
pub open spec fn pi_inv_spec(key: Seq<u8>, data: Seq<u8>) -> Seq<u8> {
    if data.len() == 0 {
        Seq::empty()
    } else {
        lioness_dec(key, data)
    }
}

/// A payload the cipher accepts: empty, or longer than 32 bytes.
pub open spec fn pi_accepts(len: nat) -> bool {
    len == 0 || len > 32
}

fn prefix16(v: &Vec<u8>) -> (res: Vec<u8>)
    requires
        v@.len() >= 16,
    ensures
        res@ == fixed(v@, 16),
        res@.len() == 16,
{
    let mut out: Vec<u8> = Vec::new();
    append_bytes(&mut out, &v.as_slice()[0..16]);
    assert(out@ =~= fixed(v@, 16));
    out
}

/// The blinding factor for `a` and `b`.
pub fn h_b(a: &[u8], b: &[u8]) -> (res: [u8; 32])
    ensures
        res@ == h_b_spec(a@, b@),
{
    let mut input: Vec<u8> = Vec::new();
    input.push(104u8);
    input.push(95u8);
    input.push(98u8);
    assert(input@ =~= tag_h_b());
    append_bytes(&mut input, a);
    append_bytes(&mut input, b);
    let digest = sha512(input.as_slice());
    scalar_from_wide(digest.as_slice())
}

/// The header stream key for a shared secret.
pub fn h_rho(a: &[u8]) -> (res: Vec<u8>)
    ensures
        res@ == h_rho_spec(a@),
        res@.len() == 32,
{
    let mut input: Vec<u8> = Vec::new();
    input.push(104u8);
    input.push(95u8);
    input.push(114u8);
    input.push(104u8);
    input.push(111u8);
    assert(input@ =~= tag_h_rho());
    append_bytes(&mut input, a);
    sha256(input.as_slice())
}

/// The header MAC key for a shared secret.
pub fn h_mu(a: &[u8]) -> (res: Vec<u8>)
    ensures
        res@ == h_mu_spec(a@),
        res@.len() == 16,
{
    let mut input: Vec<u8> = Vec::new();
    input.push(104u8);
    input.push(95u8);
    input.push(109u8);
    input.push(117u8);
    assert(input@ =~= tag_h_mu());
    append_bytes(&mut input, a);
    let digest = sha256(input.as_slice());
    prefix16(&digest)
}

/// The header MAC of `data` under `key`.
pub fn mu(key: &[u8], data: &[u8]) -> (res: Vec<u8>)
    ensures
        res@ == mu_spec(key@, data@),
        res@.len() == 16,
{
    let mut input: Vec<u8> = Vec::new();
    input.push(109u8);
    input.push(117u8);
    assert(input@ =~= tag_mu());
    append_bytes(&mut input, key);
    append_bytes(&mut input, data);
    let digest = sha256(input.as_slice());
    prefix16(&digest)
}

/// The payload cipher key for a shared secret.
pub fn h_pi(a: &[u8]) -> (res: [u8; 192])
    ensures
        res@ == h_pi_spec(a@),
{
    let mut salt: Vec<u8> = Vec::new();
    salt.push(104u8);
    salt.push(95u8);
    salt.push(112u8);
    salt.push(105u8);
    assert(salt@ =~= tag_h_pi());
    hkdf_sha256_192(salt.as_slice(), a)
}

/// Encrypts a payload under a payload key. The empty payload stays empty;
/// otherwise the result is the only block of the same length that `pi_inv`
/// maps back to `data`.
pub fn pi(key: &[u8; 192], data: &[u8]) -> (res: Vec<u8>)
    requires
        pi_accepts(data@.len()),
    ensures
        res@ == pi_spec(key@, data@),
        res@.len() == data@.len(),
        pi_inv_spec(key@, res@) == data@,
        forall|y: Seq<u8>|
            y.len() == data@.len() && #[trigger] pi_inv_spec(key@, y) == data@ ==> y == res@,
{
    if data.len() == 0 {
        let out: Vec<u8> = Vec::new();
        assert forall|y: Seq<u8>|
            y.len() == data@.len() && #[trigger] pi_inv_spec(key@, y) == data@ implies y == out@ by {
            assert(y =~= out@);
        }
        return out;
    }
    let out = lioness_encrypt(key, data);
    assert forall|y: Seq<u8>|
        y.len() == data@.len() && #[trigger] pi_inv_spec(key@, y) == data@ implies y == out@ by {
        assert(lioness_dec(key@, y) == data@);
    }
    out
}

/// Decrypts a payload under a payload key. The empty payload stays empty;
/// otherwise the result is the only block of the same length that `pi`
/// maps back to `data`.
pub fn pi_inv(key: &[u8; 192], data: &[u8]) -> (res: Vec<u8>)
    requires
        pi_accepts(data@.len()),
    ensures
        res@ == pi_inv_spec(key@, data@),
        res@.len() == data@.len(),
        pi_spec(key@, res@) == data@,
        forall|y: Seq<u8>| y.len() == data@.len() && #[trigger] pi_spec(key@, y) == data@ ==> y == res@,
{
    if data.len() == 0 {
        let out: Vec<u8> = Vec::new();
        assert(out@ =~= data@);
        assert forall|y: Seq<u8>|
            y.len() == data@.len() && #[trigger] pi_spec(key@, y) == data@ implies y == out@ by {
            assert(y =~= out@);
        }
        return out;
    }
    let out = lioness_decrypt(key, data);
    assert forall|y: Seq<u8>|
        y.len() == data@.len() && #[trigger] pi_spec(key@, y) == data@ implies y == out@ by {
        assert(lioness_enc(key@, y) == data@);
    }
    out
}

} // verus!
