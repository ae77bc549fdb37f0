//! Byte-string helpers shared by the packet format: XOR, concatenation and
//! big-endian integer encodings.
use vstd::prelude::*;

verus! {

/// Pointwise XOR of two byte strings, truncated to the shorter one.
pub open spec fn xor_seq(a: Seq<u8>, b: Seq<u8>) -> Seq<u8> {
    Seq::new(if a.len() <= b.len() { a.len() } else { b.len() }, |i: int| a[i] ^ b[i])
}

/// The first `n` bytes of `s`, as a string of exactly `n` bytes.
pub open spec fn fixed(s: Seq<u8>, n: nat) -> Seq<u8> {
    Seq::new(n, |i: int| s[i])
}

/// A string of `n` zero bytes.
pub open spec fn zeros(n: nat) -> Seq<u8> {
    Seq::new(n, |i: int| 0u8)
}

/// XOR-ing twice with the same mask gives back the original bytes, as long
/// as the mask is at least as long.
pub proof fn lemma_xor_twice(a: Seq<u8>, m: Seq<u8>)
    requires
        a.len() <= m.len(),
    ensures
        xor_seq(xor_seq(a, m), m) == a,
{
    assert forall|i: int| 0 <= i < a.len() implies #[trigger] xor_seq(xor_seq(a, m), m)[i] == a[i] by {
        let x = a[i];
        let y = m[i];
        assert((x ^ y) ^ y == x) by (bit_vector);
    }
    assert(xor_seq(xor_seq(a, m), m) =~= a);
}

/// Pointwise XOR of `a` and `b`, as long as the shorter of the two.
pub fn xor(a: &[u8], b: &[u8]) -> (res: Vec<u8>)
    ensures
        res@ == xor_seq(a@, b@),
{
    let n: usize = if a.len() <= b.len() { a.len() } else { b.len() };
    let mut out: Vec<u8> = Vec::with_capacity(n);
    let mut i: usize = 0;
    while i < n
        invariant
            i <= n,
            n <= a@.len(),
            n <= b@.len(),
            n == xor_seq(a@, b@).len(),
            out@.len() == i,
            forall|j: int| 0 <= j < i ==> out@[j] == a@[j] ^ b@[j],
        decreases n - i,
    {
        out.push(a[i] ^ b[i]);
        i = i + 1;
    }
    assert(out@ =~= xor_seq(a@, b@));
    out
}

/// The bytes of `a` followed by the bytes of `b`.
pub fn concat(a: &[u8], b: &[u8]) -> (res: Vec<u8>)
    ensures
        res@ == a@ + b@,
{
    let mut out: Vec<u8> = Vec::with_capacity(a.len());
    append_bytes(&mut out, a);
    append_bytes(&mut out, b);
    out
}

/// Appends the bytes of `src` to `dst`.
pub fn append_bytes(dst: &mut Vec<u8>, src: &[u8])
    ensures
        final(dst)@ == old(dst)@ + src@,
{
    let mut i: usize = 0;
    while i < src.len()
        invariant
            i <= src@.len(),
            dst@ == old(dst)@ + src@.take(i as int),
        decreases src@.len() - i,
    {
        dst.push(src[i]);
        i = i + 1;
        assert(src@.take(i as int) =~= src@.take(i - 1) + seq![src@[i - 1]]);
    }
    assert(src@.take(i as int) =~= src@);
}

/// Appends `n` zero bytes to `dst`.
pub fn append_zeros(dst: &mut Vec<u8>, n: usize)
    ensures
        final(dst)@ == old(dst)@ + zeros(n as nat),
{
    let mut i: usize = 0;
    while i < n
        invariant
            i <= n,
            dst@ == old(dst)@ + zeros(i as nat),
        decreases n - i,
    {
        dst.push(0u8);
        i = i + 1;
        assert(zeros(i as nat) =~= zeros((i - 1) as nat) + seq![0u8]);
    }
}

/// The natural number that a big-endian byte string encodes.
pub open spec fn be_value(s: Seq<u8>) -> nat
    decreases s.len(),
{
    if s.len() == 0 {
        0
    } else {
        be_value(s.drop_last()) * 256 + s.last() as nat
    }
}

/// The `n`-byte big-endian encoding of `v` (taken modulo `256^n`).
pub open spec fn be_bytes(v: nat, n: nat) -> Seq<u8>
    decreases n,
{
    if n == 0 {
        Seq::empty()
    } else {
        be_bytes(v / 256, (n - 1) as nat).push((v % 256) as u8)
    }
}

/// The encoding has `n` bytes.
pub proof fn lemma_be_bytes_len(v: nat, n: nat)
    ensures
        be_bytes(v, n).len() == n,
    decreases n,
{
    if n > 0 {
        lemma_be_bytes_len(v / 256, (n - 1) as nat);
    }
}

/// `256^n`.
pub open spec fn pow256(n: nat) -> nat
    decreases n,
{
    if n == 0 {
        1
    } else {
        256 * pow256((n - 1) as nat)
    }
}

/// A big-endian string of `n` bytes encodes a value below `256^n`.
pub proof fn lemma_be_value_bound(s: Seq<u8>)
    ensures
        be_value(s) < pow256(s.len()),
    decreases s.len(),
{
    if s.len() > 0 {
        lemma_be_value_bound(s.drop_last());
        let p = pow256((s.len() - 1) as nat);
        let v = be_value(s.drop_last());
        assert(v * 256 + (s.last() as nat) < 256 * p) by (nonlinear_arith)
            requires
                v < p,
                s.last() < 256,
        ;
    }
}

/// Encoding a value below `256^n` in `n` bytes and decoding gives it back.
pub proof fn lemma_be_roundtrip(v: nat, n: nat)
    requires
        v < pow256(n),
    ensures
        be_bytes(v, n).len() == n,
        be_value(be_bytes(v, n)) == v,
    decreases n,
{
    if n > 0 {
        let p = pow256((n - 1) as nat);
        assert(v / 256 < p) by (nonlinear_arith)
            requires
                v < 256 * p,
        ;
        lemma_be_roundtrip(v / 256, (n - 1) as nat);
        let s = be_bytes(v, n);
        assert(s.drop_last() =~= be_bytes(v / 256, (n - 1) as nat));
        assert(v == (v / 256) * 256 + v % 256) by (nonlinear_arith);
    }
}

/// Decodes a big-endian 16-byte string into a `u128`.
pub fn u128_from_be(s: &[u8]) -> (v: u128)
    requires
        s@.len() == 16,
    ensures
        v as nat == be_value(s@),
{
    let mut v: u128 = 0;
    let mut i: usize = 0;
    while i < 16
        invariant
            i <= 16,
            s@.len() == 16,
            v as nat == be_value(s@.take(i as int)),
        decreases 16 - i,
    {
        proof {
            lemma_be_value_bound(s@.take(i as int));
            assert(pow256(i as nat) <= pow256(15)) by {
                lemma_pow256_mono(i as nat, 15);
            }
            lemma_pow256_15();
        }
        let b = s[i];
        v = v * 256 + b as u128;
        i = i + 1;
        assert(s@.take(i as int).drop_last() =~= s@.take(i - 1));
    }
    assert(s@.take(16) =~= s@);
    v
}

/// `256^15 = 2^120`.
proof fn lemma_pow256_15()
    ensures
        pow256(15) == 0x1_00_0000_0000_0000_0000_0000_0000_0000u128 as nat,
{
    reveal_with_fuel(pow256, 16);
}

/// `pow256` is monotonic.
pub proof fn lemma_pow256_mono(a: nat, b: nat)
    requires
        a <= b,
    ensures
        pow256(a) <= pow256(b),
    decreases b,
{
    if a < b {
        lemma_pow256_mono(a, (b - 1) as nat);
    }
}

/// Encodes `v` as 16 big-endian bytes.
pub fn u128_to_be(v: u128) -> (res: Vec<u8>)
    ensures
        res@ == be_bytes(v as nat, 16),
{
    let mut out: Vec<u8> = Vec::new();
    append_zeros(&mut out, 16);
    let mut x: u128 = v;
    let mut k: usize = 16;
    while k > 0
        invariant
            k <= 16,
            out@.len() == 16,
            be_bytes(v as nat, 16) =~= be_bytes(x as nat, k as nat) + out@.skip(k as int),
        decreases k,
    {
        let ghost old_out = out@;
        let ghost old_x = x;
        out.set(k - 1, (x % 256) as u8);
        x = x / 256;
        k = k - 1;
        assert(be_bytes(old_x as nat, (k + 1) as nat) == be_bytes(x as nat, k as nat).push((old_x % 256) as u8));
        assert(out@.skip(k as int) =~= seq![(old_x % 256) as u8] + old_out.skip(k + 1));
    }
    out
}

} // verus!
