//! The cryptographic building blocks the packet format rests on. Each item
//! here calls into an outside crate; its contract is trusted, not proved.
//! Results that take pages to define (digests, key streams, curve
//! arithmetic) are given names; only short facts that the outside code
//! plainly shows are stated about them.
use vstd::prelude::*;
use rand::RngCore;
use rand_chacha::rand_core::SeedableRng;
use sha2::Digest;
use sha3::digest::ExtendableOutput;

verus! {

#[verifier::external_type_specification]
#[verifier::external_body]
pub struct ExThreadRng(rand::rngs::ThreadRng);

/// SHA-256 digest of a byte string.
pub uninterp spec fn sha256_digest(data: Seq<u8>) -> Seq<u8>;

/// SHA-512 digest of a byte string.
pub uninterp spec fn sha512_digest(data: Seq<u8>) -> Seq<u8>;

/// The first `len` bytes of the SHAKE128 output for `seed`.
pub uninterp spec fn shake128_output(seed: Seq<u8>, len: nat) -> Seq<u8>;

/// The 192 bytes of HKDF-SHA256 output keyed by `salt` and `ikm`, with an
/// empty info string.
pub uninterp spec fn hkdf_sha256_okm(salt: Seq<u8>, ikm: Seq<u8>) -> Seq<u8>;

/// The first `len` bytes of the ChaCha20 stream seeded with `key`.
pub uninterp spec fn chacha20_stream(key: Seq<u8>, len: nat) -> Seq<u8>;

/// Lioness (Blake2b, ChaCha20) encryption of `block` under `key`.
pub uninterp spec fn lioness_enc(key: Seq<u8>, block: Seq<u8>) -> Seq<u8>;

/// Lioness (Blake2b, ChaCha20) decryption of `block` under `key`.
pub uninterp spec fn lioness_dec(key: Seq<u8>, block: Seq<u8>) -> Seq<u8>;

/// The canonical bytes of the scalar that 64 bytes reduce to modulo the
/// group order.
pub uninterp spec fn scalar_reduce_wide(bytes: Seq<u8>) -> Seq<u8>;

/// The canonical bytes of the product of two scalars (each given by 32 bytes
/// read modulo the group order).
pub uninterp spec fn scalar_product(a: Seq<u8>, b: Seq<u8>) -> Seq<u8>;

/// The compressed Edwards point `s * B` for the Ed25519 base point `B`.
pub uninterp spec fn edwards_base_mul(s: Seq<u8>) -> Seq<u8>;

/// Whether 32 bytes are the compressed form of a curve point.
pub uninterp spec fn edwards_decompresses(p: Seq<u8>) -> bool;

/// The compressed form of the point that `p` decompresses to.
pub uninterp spec fn edwards_recompress(p: Seq<u8>) -> Seq<u8>;

/// The compressed point `s * P` for the point `P` that `p` decompresses to.
pub uninterp spec fn edwards_mul(p: Seq<u8>, s: Seq<u8>) -> Seq<u8>;

/// Calls `rand::rng`: a handle to the thread-local random generator.
#[verifier::external_body]
pub(crate) fn thread_rng() -> rand::rngs::ThreadRng {
    rand::rng()
}

/// Calls `RngCore::fill_bytes` on a buffer of `n` bytes. Nothing is claimed
/// of the bytes but their number.
#[verifier::external_body]
pub(crate) fn random_bytes(rng: &mut rand::rngs::ThreadRng, n: usize) -> (res: Vec<u8>)
    ensures
        res@.len() == n,
{
    let mut buf = vec![0u8; n];
    rng.fill_bytes(&mut buf);
    buf
}

/// Calls `<sha2::Sha256 as Digest>::digest`: the result is the 32-byte
/// SHA-256 digest of `data`.
#[verifier::external_body]
pub(crate) fn sha256(data: &[u8]) -> (res: Vec<u8>)
    ensures
        res@ == sha256_digest(data@),
        res@.len() == 32,
{
    sha2::Sha256::digest(data).to_vec()
}

/// Calls `<sha2::Sha512 as Digest>::digest`: the result is the 64-byte
/// SHA-512 digest of `data`.
#[verifier::external_body]
pub(crate) fn sha512(data: &[u8]) -> (res: Vec<u8>)
    ensures
        res@ == sha512_digest(data@),
        res@.len() == 64,
{
    sha2::Sha512::digest(data).to_vec()
}

/// Calls `<sha3::Shake128 as ExtendableOutput>::digest_xof`: the result is
/// the first `len` bytes of SHAKE128 output on `seed`.
#[verifier::external_body]
pub(crate) fn shake128(seed: &[u8], len: usize) -> (res: Vec<u8>)
    ensures
        res@ == shake128_output(seed@, len as nat),
        res@.len() == len,
{
    let mut out = vec![0u8; len];
    sha3::Shake128::digest_xof(seed, &mut out);
    out
}

/// Calls `hkdf::Hkdf::<Sha256>::new(Some(salt), ikm)` and `expand` with an
/// empty info string into 192 bytes, which HKDF-SHA256 always allows.
#[verifier::external_body]
pub(crate) fn hkdf_sha256_192(salt: &[u8], ikm: &[u8]) -> (res: [u8; 192])
    ensures
        res@ == hkdf_sha256_okm(salt@, ikm@),
{
    let hkdf = hkdf::Hkdf::<sha2::Sha256>::new(Some(salt), ikm);
    let mut okm = [0u8; 192];
    hkdf.expand(&[], &mut okm).unwrap();
    okm
}

/// Calls `ChaCha20Rng::from_seed(key)` and `fill_bytes` on `len` bytes: the
/// first `len` bytes of the generator's stream for that seed.
#[verifier::external_body]
pub(crate) fn rho(key: &[u8], len: usize) -> (res: Vec<u8>)
    requires
        key@.len() == 32,
    ensures
        res@ == chacha20_stream(key@, len as nat),
        res@.len() == len,
{
    let mut seed = [0u8; 32];
    seed.copy_from_slice(key);
    let mut out = vec![0u8; len];
    rand_chacha::ChaCha20Rng::from_seed(seed).fill_bytes(&mut out);
    out
}

/// Calls `Lioness::<VarBlake2b, ChaCha>::new_raw(key)` and `encrypt` on a
/// copy of `block`. Lioness refuses blocks of 32 bytes or fewer; on longer
/// ones it is a permutation of the block: the length stays, decryption under
/// the same key gives the block back, and no other block decrypts to it.
#[verifier::external_body]
pub(crate) fn lioness_encrypt(key: &[u8; 192], block: &[u8]) -> (res: Vec<u8>)
    requires
        block@.len() > 32,
    ensures
        res@ == lioness_enc(key@, block@),
        res@.len() == block@.len(),
        lioness_dec(key@, res@) == block@,
        forall|y: Seq<u8>|
            y.len() == block@.len() && #[trigger] lioness_dec(key@, y) == block@ ==> y == res@,
{
    let cipher = lioness::Lioness::<blake2::VarBlake2b, chacha::ChaCha>::new_raw(key);
    let mut out = block.to_vec();
    cipher.encrypt(&mut out).unwrap();
    out
}

/// Calls `Lioness::<VarBlake2b, ChaCha>::new_raw(key)` and `decrypt` on a
/// copy of `block`; the inverse permutation of `lioness_encrypt` on blocks
/// longer than 32 bytes.
#[verifier::external_body]
pub(crate) fn lioness_decrypt(key: &[u8; 192], block: &[u8]) -> (res: Vec<u8>)
    requires
        block@.len() > 32,
    ensures
        res@ == lioness_dec(key@, block@),
        res@.len() == block@.len(),
        lioness_enc(key@, res@) == block@,
        forall|y: Seq<u8>|
            y.len() == block@.len() && #[trigger] lioness_enc(key@, y) == block@ ==> y == res@,
{
    let cipher = lioness::Lioness::<blake2::VarBlake2b, chacha::ChaCha>::new_raw(key);
    let mut out = block.to_vec();
    cipher.decrypt(&mut out).unwrap();
    out
}

/// Calls `Scalar::from_bytes_mod_order_wide` and returns the scalar's bytes.
#[verifier::external_body]
pub(crate) fn scalar_from_wide(bytes: &[u8]) -> (res: [u8; 32])
    requires
        bytes@.len() == 64,
    ensures
        res@ == scalar_reduce_wide(bytes@),
{
    let mut wide = [0u8; 64];
    wide.copy_from_slice(bytes);
    curve25519_dalek::Scalar::from_bytes_mod_order_wide(&wide).to_bytes()
}

/// Calls `Scalar * Scalar` on the scalars that `a` and `b` encode (read with
/// `Scalar::from_bytes_mod_order`) and returns the product's bytes.
#[verifier::external_body]
pub(crate) fn scalar_mul(a: &[u8; 32], b: &[u8; 32]) -> (res: [u8; 32])
    ensures
        res@ == scalar_product(a@, b@),
{
    let x = curve25519_dalek::Scalar::from_bytes_mod_order(*a);
    let y = curve25519_dalek::Scalar::from_bytes_mod_order(*b);
    (x * y).to_bytes()
}

/// Calls `ED25519_BASEPOINT_TABLE * &Scalar` and `compress`. A compressed
/// point decompresses, and to the same bytes once compressed again.
#[verifier::external_body]
pub(crate) fn base_mul(s: &[u8; 32]) -> (res: [u8; 32])
    ensures
        res@ == edwards_base_mul(s@),
        edwards_decompresses(res@),
        edwards_recompress(res@) == res@,
{
    let x = curve25519_dalek::Scalar::from_bytes_mod_order(*s);
    (curve25519_dalek::constants::ED25519_BASEPOINT_TABLE * &x).compress().0
}

/// Calls `CompressedEdwardsY::decompress` on `p`, then `EdwardsPoint *
/// Scalar` and `compress`. `None` exactly when `p` is not a curve point.
#[verifier::external_body]
pub(crate) fn point_mul(p: &[u8; 32], s: &[u8; 32]) -> (res: Option<[u8; 32]>)
    ensures
        res is None <==> !edwards_decompresses(p@),
        res matches Some(r) ==> r@ == edwards_mul(p@, s@) && edwards_decompresses(r@)
            && edwards_recompress(r@) == r@,
{
    match curve25519_dalek::edwards::CompressedEdwardsY(*p).decompress() {
        Some(point) => {
            let x = curve25519_dalek::Scalar::from_bytes_mod_order(*s);
            Some((point * x).compress().0)
        },
        None => None,
    }
}

/// Calls `CompressedEdwardsY::decompress` on `p` and `compress` on the
/// point. `None` exactly when `p` is not a curve point.
#[verifier::external_body]
pub(crate) fn point_recompress(p: &[u8; 32]) -> (res: Option<[u8; 32]>)
    ensures
        res is None <==> !edwards_decompresses(p@),
        res matches Some(r) ==> r@ == edwards_recompress(p@) && edwards_decompresses(r@)
            && edwards_recompress(r@) == r@,
{
    match curve25519_dalek::edwards::CompressedEdwardsY(*p).decompress() {
        Some(point) => Some(point.compress().0),
        None => None,
    }
}

} // verus!
