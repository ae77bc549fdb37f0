//! The all-or-nothing transform that binds the fragments of a message: no
//! fragment can be read unless all of them are present.
//!
//! ```text
//! +-----------+ +---+
//! |     m     | | r |
//! +-----------+ +---+
//!       |         |
//!      (+)<---G---+  (SHAKE128 for variable output length)
//!       |         |
//!       +---H--->(+) (SHA-256 truncated)
//!       |         |
//!       V         V
//! +-----------+ +---+
//! |     s     | | t |
//! +-----------+ +---+
//! ```
use vstd::prelude::*;
use crate::bytes::{append_bytes, concat, lemma_xor_twice, xor, xor_seq};
use crate::error::Result;
use crate::primitives::{random_bytes, sha256, sha256_digest, shake128, shake128_output};

verus! {

/// Length of the AONT seed and of the tag prepended to the first fragment.
pub const KAPPA: usize = 16;

/// The byte contents of a sequence of byte vectors.
pub open spec fn byte_views(s: Seq<Vec<u8>>) -> Seq<Seq<u8>> {
    Seq::new(s.len(), |i: int| s[i]@)
}

/// The summed length of a sequence of byte strings.
pub open spec fn total_len(fs: Seq<Seq<u8>>) -> nat
    decreases fs.len(),
{
    if fs.len() == 0 {
        0
    } else {
        total_len(fs.drop_last()) + fs.last().len()
    }
}

/// All byte strings of a sequence, one after the other.
pub open spec fn concat_all(fs: Seq<Seq<u8>>) -> Seq<u8>
    decreases fs.len(),
{
    if fs.len() == 0 {
        Seq::empty()
    } else {
        concat_all(fs.drop_last()) + fs.last()
    }
}

/// The 32-byte SHA-256 digest.
pub open spec fn digest32(data: Seq<u8>) -> Seq<u8> {
    Seq::new(32, |i: int| sha256_digest(data)[i])
}

/// The SHAKE128 mask of `len` bytes for `seed`.
pub open spec fn shake_mask(seed: Seq<u8>, len: nat) -> Seq<u8> {
    Seq::new(len, |i: int| shake128_output(seed, len)[i])
}

/// Each string XOR-ed with its own stretch of the mask, the stretches
/// following each other from the start of the mask.
pub open spec fn mask_each(fs: Seq<Seq<u8>>, mask: Seq<u8>) -> Seq<Seq<u8>> {
    Seq::new(fs.len(), |i: int| xor_seq(fs[i], mask.skip(total_len(fs.take(i)) as int)))
}

/// The transform of `fragments` with the 16-byte seed `r`: the fragments
/// masked with SHAKE128(r), then `r` XOR SHA-256 of the masked fragments put
/// in front of the first one.
pub open spec fn aont_spec(r: Seq<u8>, fragments: Seq<Seq<u8>>) -> Seq<Seq<u8>> {
    let masked = mask_each(fragments, shake_mask(r, total_len(fragments)));
    let t = xor_seq(r, digest32(concat_all(masked)));
    masked.update(0, t + masked[0])
}

/// The inverse transform: the seed is recovered from the tag and the hash
/// of the rest, and the mask removed.
pub open spec fn aont_inv_spec(fragments: Seq<Seq<u8>>) -> Seq<Seq<u8>> {
    let t = fragments[0].take(KAPPA as int);
    let bodies = fragments.update(0, fragments[0].skip(KAPPA as int));
    let r = xor_seq(t, digest32(concat_all(bodies)));
    mask_each(bodies, shake_mask(r, total_len(bodies)))
}

/// The prefix sums of lengths grow by each string's length.
pub proof fn lemma_total_len_take(fs: Seq<Seq<u8>>, i: int)
    requires
        0 <= i < fs.len(),
    ensures
        total_len(fs.take(i + 1)) == total_len(fs.take(i)) + fs[i].len(),
        total_len(fs.take(i)) + fs[i].len() <= total_len(fs),
    decreases fs.len(),
{
    assert(fs.take(i + 1).drop_last() =~= fs.take(i));
    if i + 1 < fs.len() {
        lemma_total_len_take(fs.drop_last(), i);
        assert(fs.drop_last().take(i) =~= fs.take(i));
        assert(fs.drop_last().take(i + 1) =~= fs.take(i + 1));
    } else {
        assert(fs.take(i + 1) =~= fs);
    }
}

/// Sequences whose strings have the same lengths have the same prefix sums.
pub proof fn lemma_total_len_same_lens(a: Seq<Seq<u8>>, b: Seq<Seq<u8>>)
    requires
        a.len() == b.len(),
        forall|i: int| 0 <= i < a.len() ==> #[trigger] a[i].len() == b[i].len(),
    ensures
        total_len(a) == total_len(b),
    decreases a.len(),
{
    if a.len() > 0 {
        lemma_total_len_same_lens(a.drop_last(), b.drop_last());
    }
}

/// Masking keeps every string's length when the mask covers them all.
pub proof fn lemma_mask_each_lens(fs: Seq<Seq<u8>>, mask: Seq<u8>)
    requires
        total_len(fs) <= mask.len(),
    ensures
        mask_each(fs, mask).len() == fs.len(),
        forall|i: int| 0 <= i < fs.len() ==> #[trigger] mask_each(fs, mask)[i].len() == fs[i].len(),
        total_len(mask_each(fs, mask)) == total_len(fs),
{
    assert forall|i: int| 0 <= i < fs.len() implies #[trigger] mask_each(fs, mask)[i].len()
        == fs[i].len() by {
        lemma_total_len_take(fs, i);
    }
    lemma_total_len_same_lens(mask_each(fs, mask), fs);
}

/// Removing the mask: masking twice with the same mask gives back the
/// strings.
pub proof fn lemma_mask_each_twice(fs: Seq<Seq<u8>>, mask: Seq<u8>)
    requires
        total_len(fs) <= mask.len(),
    ensures
        mask_each(mask_each(fs, mask), mask) == fs,
{
    let m = mask_each(fs, mask);
    lemma_mask_each_lens(fs, mask);
    assert forall|i: int| 0 <= i < fs.len() implies #[trigger] mask_each(m, mask)[i] == fs[i] by {
        lemma_total_len_take(fs, i);
        assert forall|j: int| 0 <= j < i implies #[trigger] m.take(i)[j].len() == fs.take(i)[j].len() by {}
        lemma_total_len_same_lens(m.take(i), fs.take(i));
        lemma_xor_twice(fs[i], mask.skip(total_len(fs.take(i)) as int));
    }
    assert(mask_each(m, mask) =~= fs);
}

/// The inverse transform undoes the transform, for any seed of 16 bytes and
/// any non-empty sequence of fragments.
pub proof fn lemma_aont_roundtrip(r: Seq<u8>, fragments: Seq<Seq<u8>>)
    requires
        r.len() == KAPPA,
        fragments.len() >= 1,
    ensures
        aont_inv_spec(aont_spec(r, fragments)) == fragments,
{
    let total = total_len(fragments);
    let mask = shake_mask(r, total);
    let masked = mask_each(fragments, mask);
    lemma_mask_each_lens(fragments, mask);
    let h = digest32(concat_all(masked));
    let t = xor_seq(r, h);
    let a = aont_spec(r, fragments);
    assert(t.len() == KAPPA);
    assert(a[0].take(KAPPA as int) =~= t);
    assert(a[0].skip(KAPPA as int) =~= masked[0]);
    let bodies = a.update(0, a[0].skip(KAPPA as int));
    assert(bodies =~= masked);
    lemma_xor_twice(r, h);
    lemma_mask_each_twice(fragments, mask);
}

/// Pushing the next string extends the byte contents by that string.
pub proof fn lemma_byte_views_push(before: Seq<Vec<u8>>, v: Vec<u8>, target: Seq<Seq<u8>>, k: int)
    requires
        byte_views(before) == target.take(k),
        0 <= k < target.len(),
        v@ == target[k],
    ensures
        byte_views(before.push(v)) == target.take(k + 1),
{
    assert(byte_views(before).len() == before.len());
    assert(target.take(k).len() == k);
    assert(before.len() == k);
    assert forall|j: int| 0 <= j <= k implies #[trigger] byte_views(before.push(v))[j]
        == target.take(k + 1)[j] by {
        if j < k {
            assert(byte_views(before)[j] == target.take(k)[j]);
        }
    }
    assert(byte_views(before.push(v)) =~= target.take(k + 1));
}

/// The transform keeps the number of fragments and their lengths, but for
/// the 16-byte tag in front of the first.
pub proof fn lemma_aont_lens(r: Seq<u8>, fragments: Seq<Seq<u8>>)
    requires
        r.len() == KAPPA,
        fragments.len() >= 1,
    ensures
        aont_spec(r, fragments).len() == fragments.len(),
        aont_spec(r, fragments)[0].len() == KAPPA + fragments[0].len(),
        forall|i: int|
            1 <= i < fragments.len() ==> #[trigger] aont_spec(r, fragments)[i].len() == fragments[i].len(),
{
    lemma_mask_each_lens(fragments, shake_mask(r, total_len(fragments)));
}

/// The inverse transform keeps the number of fragments; their lengths sum
/// to 16 bytes less.
pub proof fn lemma_aont_inv_len(fragments: Seq<Seq<u8>>)
    requires
        fragments.len() >= 1,
        fragments[0].len() >= KAPPA,
    ensures
        aont_inv_spec(fragments).len() == fragments.len(),
        concat_all(aont_inv_spec(fragments)).len() == total_len(fragments) - KAPPA,
{
    let bodies = fragments.update(0, fragments[0].skip(KAPPA as int));
    let t = fragments[0].take(KAPPA as int);
    let r = xor_seq(t, digest32(concat_all(bodies)));
    lemma_mask_each_lens(bodies, shake_mask(r, total_len(bodies)));
    lemma_concat_all_len(aont_inv_spec(fragments));
    lemma_total_len_update(fragments, 0, fragments[0].skip(KAPPA as int));
}

/// The concatenation is as long as the summed lengths.
pub proof fn lemma_concat_all_len(fs: Seq<Seq<u8>>)
    ensures
        concat_all(fs).len() == total_len(fs),
    decreases fs.len(),
{
    if fs.len() > 0 {
        lemma_concat_all_len(fs.drop_last());
    }
}

/// Replacing one string changes the summed length by the difference.
pub proof fn lemma_total_len_update(fs: Seq<Seq<u8>>, i: int, v: Seq<u8>)
    requires
        0 <= i < fs.len(),
    ensures
        total_len(fs.update(i, v)) + fs[i].len() == total_len(fs) + v.len(),
    decreases fs.len(),
{
    if i + 1 == fs.len() {
        assert(fs.update(i, v).drop_last() =~= fs.drop_last());
    } else {
        lemma_total_len_update(fs.drop_last(), i, v);
        assert(fs.update(i, v).drop_last() =~= fs.drop_last().update(i, v));
    }
}

/// The summed length of the byte vectors in `fragments`.
fn total_length(fragments: &[Vec<u8>]) -> (res: usize)
    requires
        total_len(byte_views(fragments@)) <= usize::MAX,
    ensures
        res == total_len(byte_views(fragments@)),
{
    let ghost fs = byte_views(fragments@);
    let mut sum: usize = 0;
    let mut i: usize = 0;
    while i < fragments.len()
        invariant
            fs == byte_views(fragments@),
            i <= fragments@.len(),
            sum == total_len(fs.take(i as int)),
            total_len(fs) <= usize::MAX,
        decreases fragments@.len() - i,
    {
        proof {
            lemma_total_len_take(fs, i as int);
        }
        sum = sum + fragments[i].len();
        i = i + 1;
    }
    assert(fs.take(i as int) =~= fs);
    sum
}

/// Masks each fragment with its stretch of `mask`, the stretches following
/// each other.
fn mask_fragments(fragments: &[Vec<u8>], mask: &[u8]) -> (res: Vec<Vec<u8>>)
    requires
        total_len(byte_views(fragments@)) <= mask@.len(),
    ensures
        byte_views(res@) == mask_each(byte_views(fragments@), mask@),
{
    let ghost fs = byte_views(fragments@);
    let mut out: Vec<Vec<u8>> = Vec::new();
    let mut used: usize = 0;
    let mut i: usize = 0;
    while i < fragments.len()
        invariant
            fs == byte_views(fragments@),
            i <= fragments@.len(),
            used == total_len(fs.take(i as int)),
            total_len(fs) <= mask@.len(),
            byte_views(out@) == mask_each(fs, mask@).take(i as int),
        decreases fragments@.len() - i,
    {
        proof {
            lemma_total_len_take(fs, i as int);
        }
        let masked = xor(fragments[i].as_slice(), &mask[used..mask.len()]);
        assert(mask@.subrange(used as int, mask@.len() as int) =~= mask@.skip(used as int));
        assert(masked@ == mask_each(fs, mask@)[i as int]);
        proof {
            lemma_byte_views_push(out@, masked, mask_each(fs, mask@), i as int);
        }
        out.push(masked);
        used = used + fragments[i].len();
        i = i + 1;
    }
    assert(mask_each(fs, mask@).take(i as int) =~= mask_each(fs, mask@));
    out
}

/// All fragments one after the other.
pub fn concat_fragments(fragments: &[Vec<u8>]) -> (res: Vec<u8>)
    ensures
        res@ == concat_all(byte_views(fragments@)),
{
    let ghost fs = byte_views(fragments@);
    let mut out: Vec<u8> = Vec::new();
    let mut i: usize = 0;
    while i < fragments.len()
        invariant
            fs == byte_views(fragments@),
            i <= fragments@.len(),
            out@ == concat_all(fs.take(i as int)),
        decreases fragments@.len() - i,
    {
        append_bytes(&mut out, fragments[i].as_slice());
        i = i + 1;
        assert(fs.take(i as int).drop_last() =~= fs.take(i - 1));
    }
    assert(fs.take(i as int) =~= fs);
    out
}

/// Copies the bytes of a slice into a new vector.
pub fn copy_bytes(s: &[u8]) -> (res: Vec<u8>)
    ensures
        res@ == s@,
{
    let mut out: Vec<u8> = Vec::new();
    append_bytes(&mut out, s);
    out
}

/// The transform of `fragments` with the given 16-byte seed.
pub fn aont_with_seed(randomness: &[u8], fragments: &[Vec<u8>]) -> (res: Vec<Vec<u8>>)
    requires
        randomness@.len() == KAPPA,
        fragments@.len() >= 1,
        total_len(byte_views(fragments@)) <= usize::MAX,
    ensures
        byte_views(res@) == aont_spec(randomness@, byte_views(fragments@)),
{
    let ghost fs = byte_views(fragments@);
    let message_length = total_length(fragments);
    let mask = shake128(randomness, message_length);
    assert(mask@ =~= shake_mask(randomness@, total_len(fs)));
    let masked = mask_fragments(fragments, mask.as_slice());
    let ghost mv = byte_views(masked@);
    let all = concat_fragments(masked.as_slice());
    let digest = sha256(all.as_slice());
    assert(digest@ =~= digest32(concat_all(mv)));
    let t = xor(randomness, digest.as_slice());
    let mut out: Vec<Vec<u8>> = Vec::new();
    out.push(concat(t.as_slice(), masked[0].as_slice()));
    let mut i: usize = 1;
    while i < masked.len()
        invariant
            1 <= i <= masked@.len(),
            mv == byte_views(masked@),
            mv.len() >= 1,
            byte_views(out@) == mv.update(0, t@ + mv[0]).take(i as int),
        decreases masked@.len() - i,
    {
        let c = copy_bytes(masked[i].as_slice());
        proof {
            lemma_byte_views_push(out@, c, mv.update(0, t@ + mv[0]), i as int);
        }
        out.push(c);
        i = i + 1;
    }
    assert(mv.update(0, t@ + mv[0]).take(i as int) =~= mv.update(0, t@ + mv[0]));
    out
}

/// Applies the all-or-nothing transform to `fragments` with a fresh 16-byte
/// seed drawn from `rng`. The result is the transform for some seed.
pub fn aont(mut rng: rand::rngs::ThreadRng, fragments: &[Vec<u8>]) -> (res: Vec<Vec<u8>>)
    requires
        fragments@.len() >= 1,
        total_len(byte_views(fragments@)) <= usize::MAX,
    ensures
        exists|r: Seq<u8>|
            r.len() == KAPPA && byte_views(res@) == #[trigger] aont_spec(r, byte_views(fragments@)),
{
    let randomness = random_bytes(&mut rng, KAPPA);
    aont_with_seed(randomness.as_slice(), fragments)
}

/// Inverts the all-or-nothing transform. Always `Ok`.
pub fn aont_inv(fragments: &[Vec<u8>]) -> (res: Result<Vec<Vec<u8>>>)
    requires
        fragments@.len() >= 1,
        fragments@[0]@.len() >= KAPPA,
        total_len(byte_views(fragments@)) <= usize::MAX,
    ensures
        res matches Ok(v) && byte_views(v@) == aont_inv_spec(byte_views(fragments@)),
{
    let ghost fs = byte_views(fragments@);
    let first = &fragments[0];
    let t = copy_bytes(&first.as_slice()[0..KAPPA]);
    let mut bodies: Vec<Vec<u8>> = Vec::new();
    bodies.push(copy_bytes(&first.as_slice()[KAPPA..first.len()]));
    let ghost bs = fs.update(0, fs[0].skip(KAPPA as int));
    let mut i: usize = 1;
    while i < fragments.len()
        invariant
            1 <= i <= fragments@.len(),
            fs == byte_views(fragments@),
            fs.len() >= 1,
            fs[0].len() >= KAPPA,
            bs == fs.update(0, fs[0].skip(KAPPA as int)),
            byte_views(bodies@) == bs.take(i as int),
        decreases fragments@.len() - i,
    {
        let c = copy_bytes(fragments[i].as_slice());
        proof {
            lemma_byte_views_push(bodies@, c, bs, i as int);
        }
        bodies.push(c);
        i = i + 1;
    }
    assert(byte_views(bodies@) =~= bs);
    assert(t@ =~= fs[0].take(KAPPA as int));
    proof {
        assert(fs[0] =~= fs[0].take(KAPPA as int) + fs[0].skip(KAPPA as int));
        assert forall|j: int| 0 <= j < fs.len() && j != 0 implies #[trigger] bs[j].len() <= fs[j].len() by {}
        lemma_total_len_le(bs, fs);
    }
    let all = concat_fragments(bodies.as_slice());
    let digest = sha256(all.as_slice());
    assert(digest@ =~= digest32(concat_all(bs)));
    let randomness = xor(t.as_slice(), digest.as_slice());
    let message_length = total_length(bodies.as_slice());
    let mask = shake128(randomness.as_slice(), message_length);
    assert(mask@ =~= shake_mask(randomness@, total_len(bs)));
    let out = mask_fragments(bodies.as_slice(), mask.as_slice());
    Ok(out)
}

/// Shortening strings does not increase the summed length.
proof fn lemma_total_len_le(a: Seq<Seq<u8>>, b: Seq<Seq<u8>>)
    requires
        a.len() == b.len(),
        forall|i: int| 0 <= i < a.len() ==> #[trigger] a[i].len() <= b[i].len(),
    ensures
        total_len(a) <= total_len(b),
    decreases a.len(),
{
    if a.len() > 0 {
        lemma_total_len_le(a.drop_last(), b.drop_last());
    }
}

} // verus!
