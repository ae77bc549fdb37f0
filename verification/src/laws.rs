//! What the format promises across its operations: a node on the path of an
//! onion recovers the onion meant for the next node, the last node recovers
//! the last-hop information, and the destination recovers the message from
//! the fragments.
use vstd::prelude::*;
use crate::aont::{aont_spec, concat_all, lemma_aont_lens, lemma_aont_roundtrip, KAPPA};
use crate::bytes::{be_bytes, be_value, fixed, lemma_be_bytes_len, lemma_be_roundtrip, pow256, xor_seq, zeros};
use crate::error::Error;
use crate::keys::{h_b_spec, h_mu_spec, h_pi_spec, mu_spec, pi_inv_spec};
use crate::onion::{
    onion_alpha, onion_beta, onion_delta, onion_gamma, onion_spec,
    beta_spec, blind_chain, defrag_overruns, defrag_spec, filler_spec, fragment_info, layered_spec, pi_keys, prepared_fragments, process_spec, relay_info,
    reply_info, shared_secrets, stream_of, ProcessedView, BYTES_PER_HOP, FINAL_HOP_META_LENGTH,
    REPLY_META_LENGTH,
};
use crate::onion::{layers_peel, path_addresses, path_keys, Node, Scylla};
use crate::primitives::{edwards_mul, edwards_recompress, scalar_reduce_wide};

verus! {

/// XOR-ing a byte twice with the same byte gives it back.
proof fn lemma_byte_xor_twice(a: u8, b: u8)
    ensures
        (a ^ b) ^ b == a,
        0u8 ^ b == b,
{
    assert((a ^ b) ^ b == a) by (bit_vector);
    assert(0u8 ^ b == b) by (bit_vector);
}

/// Replacing the first string by itself with `p` in front puts `p` in
/// front of the concatenation.
pub proof fn lemma_concat_all_prefix_first(fs: Seq<Seq<u8>>, p: Seq<u8>)
    requires
        fs.len() >= 1,
    ensures
        concat_all(fs.update(0, p + fs[0])) == p + concat_all(fs),
    decreases fs.len(),
{
    let g = fs.update(0, p + fs[0]);
    if fs.len() == 1 {
        assert(g.drop_last() =~= Seq::<Seq<u8>>::empty());
        assert(fs.drop_last() =~= Seq::<Seq<u8>>::empty());
        assert(concat_all(g) =~= p + concat_all(fs));
    } else {
        lemma_concat_all_prefix_first(fs.drop_last(), p);
        assert(g.drop_last() =~= fs.drop_last().update(0, p + fs[0]));
        assert(concat_all(g) =~= p + concat_all(fs));
    }
}

/// Reassembly gives back what went into the onions: for any seed, the
/// inverse transform of the transformed fragments (the first with the zero
/// tag and the destination in front) yields the destination and the
/// fragments one after the other, and never overruns.
pub proof fn lemma_defrag_recovers(r: Seq<u8>, destination: Seq<u8>, fragments: Seq<Seq<u8>>)
    requires
        r.len() == KAPPA,
        destination.len() == FINAL_HOP_META_LENGTH,
        fragments.len() >= 1,
    ensures
        !defrag_overruns(aont_spec(r, prepared_fragments(destination, fragments))),
        defrag_spec(aont_spec(r, prepared_fragments(destination, fragments))) == Ok::<
            (Seq<u8>, Seq<u8>),
            Error,
        >((destination, concat_all(fragments))),
{
    let p = zeros(KAPPA as nat) + destination;
    let prepared = prepared_fragments(destination, fragments);
    assert(prepared == fragments.update(0, p + fragments[0])) by {
        assert(zeros(KAPPA as nat) + destination + fragments[0] =~= p + fragments[0]);
    }
    lemma_aont_roundtrip(r, prepared);
    lemma_concat_all_prefix_first(fragments, p);
    let data = p + concat_all(fragments);
    assert(data.take(KAPPA as int) =~= zeros(KAPPA as nat));
    assert(data.subrange(KAPPA as int, KAPPA + FINAL_HOP_META_LENGTH) =~= destination);
    assert(data.skip(KAPPA + FINAL_HOP_META_LENGTH) =~= concat_all(fragments));
}

/// The header layout of a path of `ss.len()` hops: a header of `h` bytes
/// holds the last hop's 52 bytes, the padding and 60 bytes for every other
/// hop; addresses are 32 bytes long.
pub open spec fn header_layout(
    ss: Seq<Seq<u8>>,
    addrs: Seq<Seq<u8>>,
    h: nat,
    final_info: Seq<u8>,
    padding: Seq<u8>,
) -> bool {
    &&& ss.len() >= 1
    &&& addrs.len() == ss.len()
    &&& forall|i: int| 0 <= i < addrs.len() ==> (#[trigger] addrs[i]).len() == 32
    &&& final_info.len() == 1 + REPLY_META_LENGTH
    &&& h == 1 + REPLY_META_LENGTH + padding.len() + BYTES_PER_HOP * (ss.len() - 1)
}

/// The filler after `k` hops is `60 k` bytes long.
proof fn lemma_filler_len(ss: Seq<Seq<u8>>, h: nat, k: nat)
    requires
        k == 0 || BYTES_PER_HOP * (k - 1) <= h,
    ensures
        filler_spec(ss, h, k).len() == BYTES_PER_HOP * k,
    decreases k,
{
    if k > 0 {
        if k > 1 {
            lemma_filler_len(ss, h, (k - 1) as nat);
        }
    }
}

/// Every header along the path is `h` bytes long.
proof fn lemma_beta_len(
    ss: Seq<Seq<u8>>,
    addrs: Seq<Seq<u8>>,
    h: nat,
    final_info: Seq<u8>,
    padding: Seq<u8>,
    i: int,
)
    requires
        header_layout(ss, addrs, h, final_info, padding),
        0 <= i < ss.len(),
    ensures
        beta_spec(ss, addrs, h, final_info, padding, i).len() == h,
    decreases ss.len() - i,
{
    let n = ss.len();
    if i + 1 >= n {
        lemma_filler_len(ss, h, (n - 1) as nat);
    } else {
        lemma_beta_len(ss, addrs, h, final_info, padding, i + 1);
        let next = beta_spec(ss, addrs, h, final_info, padding, i + 1);
        assert(relay_info(addrs[i + 1], mu_spec(h_mu_spec(ss[i + 1]), next)).len() == 60);
    }
}

/// The last `60 i` bytes of the header that hop `i` receives are the filler
/// after `i` hops.
proof fn lemma_beta_tail(
    ss: Seq<Seq<u8>>,
    addrs: Seq<Seq<u8>>,
    h: nat,
    final_info: Seq<u8>,
    padding: Seq<u8>,
    i: int,
)
    requires
        header_layout(ss, addrs, h, final_info, padding),
        0 <= i < ss.len(),
    ensures
        beta_spec(ss, addrs, h, final_info, padding, i).skip(h - BYTES_PER_HOP * i) == filler_spec(
            ss,
            h,
            i as nat,
        ),
    decreases ss.len() - i,
{
    let n = ss.len();
    let beta = beta_spec(ss, addrs, h, final_info, padding, i);
    lemma_beta_len(ss, addrs, h, final_info, padding, i);
    lemma_filler_len(ss, h, i as nat);
    if i + 1 >= n {
        assert(beta.skip(h - BYTES_PER_HOP * i) =~= filler_spec(ss, h, i as nat));
    } else {
        let next = beta_spec(ss, addrs, h, final_info, padding, i + 1);
        lemma_beta_tail(ss, addrs, h, final_info, padding, i + 1);
        lemma_beta_len(ss, addrs, h, final_info, padding, i + 1);
        lemma_filler_len(ss, h, (i + 1) as nat);
        let info = relay_info(addrs[i + 1], mu_spec(h_mu_spec(ss[i + 1]), next));
        assert(info.len() == 60);
        let st = stream_of(ss[i], h);
        let f = filler_spec(ss, h, i as nat);
        let f1 = filler_spec(ss, h, (i + 1) as nat);
        assert(BYTES_PER_HOP * (i + 1) <= h);
        assert forall|k: int| 0 <= k < BYTES_PER_HOP * i implies #[trigger] beta.skip(
            h - BYTES_PER_HOP * i,
        )[k] == f[k] by {
            let pos = h - BYTES_PER_HOP * i + k;
            assert(beta[pos] == (info + next)[pos] ^ st[pos]);
            assert((info + next)[pos] == next[pos - 60]);
            assert(next[pos - 60] == next.skip(h - BYTES_PER_HOP * (i + 1))[k]);
            assert(f1[k] == (f + zeros(60))[k] ^ st.skip(h - BYTES_PER_HOP * i)[k]);
            assert((f + zeros(60))[k] == f[k]);
            lemma_byte_xor_twice(f[k], st[pos]);
        }
        assert(beta.skip(h - BYTES_PER_HOP * i) =~= f);
    }
}

/// The group element that hop `j` of a path receives.
pub open spec fn hop_alpha(x: Seq<u8>, keys: Seq<Seq<u8>>, j: int) -> Seq<u8> {
    blind_chain(x, keys, j as nat).1
}

/// The group element, header and header MAC that hop `j` of a path
/// receives.
pub open spec fn hop_header(
    x: Seq<u8>,
    keys: Seq<Seq<u8>>,
    addrs: Seq<Seq<u8>>,
    h: nat,
    final_info: Seq<u8>,
    padding: Seq<u8>,
    j: int,
) -> Seq<u8> {
    let ss = shared_secrets(x, keys);
    let beta = beta_spec(ss, addrs, h, final_info, padding, j);
    hop_alpha(x, keys, j) + beta + mu_spec(h_mu_spec(ss[j]), beta)
}

/// The onion that hop `j` of a path receives when every earlier hop
/// forwarded what it was meant to.
pub open spec fn hop_onion(
    x: Seq<u8>,
    keys: Seq<Seq<u8>>,
    addrs: Seq<Seq<u8>>,
    h: nat,
    final_info: Seq<u8>,
    padding: Seq<u8>,
    payload: Seq<u8>,
    j: int,
) -> Seq<u8> {
    hop_header(x, keys, addrs, h, final_info, padding, j) + layered_spec(
        pi_keys(shared_secrets(x, keys)),
        payload,
        j,
    )
}

/// The node with private key `sk` recovers, from the group element that hop
/// `j` receives, the secret that the sender shares with hop `j`: the
/// Diffie-Hellman agreement that the curve provides when `sk` is the
/// private key of the node's public key `keys[j]`.
pub open spec fn node_recovers(x: Seq<u8>, keys: Seq<Seq<u8>>, j: int, sk: Seq<u8>) -> bool {
    let a = hop_alpha(x, keys, j);
    &&& fixed(edwards_recompress(a), 32) == a
    &&& fixed(edwards_mul(a, sk), 32) == shared_secrets(x, keys)[j]
}

/// The first hop receives the onion that was built.
pub proof fn lemma_first_hop(
    x: Seq<u8>,
    keys: Seq<Seq<u8>>,
    addrs: Seq<Seq<u8>>,
    h: nat,
    final_info: Seq<u8>,
    padding: Seq<u8>,
    payload: Seq<u8>,
)
    ensures
        hop_onion(x, keys, addrs, h, final_info, padding, payload, 0) == onion_spec(
            x,
            keys,
            addrs,
            h,
            final_info,
            padding,
            payload,
        ),
{
}

/// The parts of the onion that hop `j` receives.
proof fn lemma_hop_parts(
    x: Seq<u8>,
    keys: Seq<Seq<u8>>,
    addrs: Seq<Seq<u8>>,
    h: nat,
    final_info: Seq<u8>,
    padding: Seq<u8>,
    payload: Seq<u8>,
    j: int,
)
    requires
        header_layout(shared_secrets(x, keys), addrs, h, final_info, padding),
        0 <= j < keys.len(),
    ensures
        ({
            let ss = shared_secrets(x, keys);
            let o = hop_onion(x, keys, addrs, h, final_info, padding, payload, j);
            let beta = beta_spec(ss, addrs, h, final_info, padding, j);
            &&& onion_alpha(o) == hop_alpha(x, keys, j)
            &&& onion_beta(h, o) == beta
            &&& onion_gamma(h, o) == mu_spec(h_mu_spec(ss[j]), beta)
            &&& onion_delta(h, o) == layered_spec(pi_keys(ss), payload, j)
            &&& hop_alpha(x, keys, j).len() == 32
        }),
{
    let ss = shared_secrets(x, keys);
    let o = hop_onion(x, keys, addrs, h, final_info, padding, payload, j);
    let beta = beta_spec(ss, addrs, h, final_info, padding, j);
    lemma_beta_len(ss, addrs, h, final_info, padding, j);
    if j == 0 {
        assert(hop_alpha(x, keys, j) =~= fixed(crate::primitives::edwards_base_mul(x), 32));
    }
    let a = hop_alpha(x, keys, j);
    assert(a.len() == 32);
    let mac = mu_spec(h_mu_spec(ss[j]), beta);
    let l = layered_spec(pi_keys(ss), payload, j);
    assert(o =~= a + beta + mac + l);
    assert(onion_alpha(o) =~= a);
    assert(onion_beta(h, o) =~= beta);
    assert(onion_gamma(h, o) =~= mac);
    assert(onion_delta(h, o) =~= l);
}

/// A node on the path that recovers its shared secret passes on to the next
/// node exactly the onion meant for it: the next address (with zero delay
/// and version), and the next group element, header and header MAC, with
/// one payload layer removed.
pub proof fn lemma_relay_hop(
    x: Seq<u8>,
    keys: Seq<Seq<u8>>,
    addrs: Seq<Seq<u8>>,
    h: nat,
    final_info: Seq<u8>,
    padding: Seq<u8>,
    payload: Seq<u8>,
    j: int,
    sk: Seq<u8>,
)
    requires
        header_layout(shared_secrets(x, keys), addrs, h, final_info, padding),
        0 <= j,
        j + 1 < keys.len(),
        node_recovers(x, keys, j, sk),
    ensures
        process_spec(h, sk, hop_onion(x, keys, addrs, h, final_info, padding, payload, j)) == Ok::<
            ProcessedView,
            Error,
        >(
            ProcessedView::Relay {
                meta: addrs[j + 1] + zeros(11),
                onion: hop_header(x, keys, addrs, h, final_info, padding, j + 1) + pi_inv_spec(
                    h_pi_spec(shared_secrets(x, keys)[j]),
                    layered_spec(pi_keys(shared_secrets(x, keys)), payload, j),
                ),
            },
        ),
{
    let ss = shared_secrets(x, keys);
    let o = hop_onion(x, keys, addrs, h, final_info, padding, payload, j);
    lemma_hop_parts(x, keys, addrs, h, final_info, padding, payload, j);
    let a = hop_alpha(x, keys, j);
    let s = ss[j];
    let beta = beta_spec(ss, addrs, h, final_info, padding, j);
    let next = beta_spec(ss, addrs, h, final_info, padding, j + 1);
    lemma_beta_len(ss, addrs, h, final_info, padding, j);
    lemma_beta_len(ss, addrs, h, final_info, padding, j + 1);
    lemma_beta_tail(ss, addrs, h, final_info, padding, j + 1);
    lemma_filler_len(ss, h, j as nat);
    lemma_filler_len(ss, h, (j + 1) as nat);
    let info = relay_info(addrs[j + 1], mu_spec(h_mu_spec(ss[j + 1]), next));
    assert(info.len() == 60);
    let st = stream_of(s, h);
    let routing = xor_seq(beta + zeros(60), st);
    assert(routing.len() == h + 60);
    let f = filler_spec(ss, h, j as nat);
    let f1 = filler_spec(ss, h, (j + 1) as nat);
    assert(BYTES_PER_HOP * (j + 1) <= h);
    assert forall|k: int| 0 <= k < h implies #[trigger] routing[k] == (info + next)[k] by {
        assert(beta[k] == (info + next)[k] ^ st[k]);
        lemma_byte_xor_twice((info + next)[k], st[k]);
    }
    assert forall|t: int| 0 <= t < 60 implies #[trigger] next[h - 60 + t] == st[h + t] by {
        assert(next[h - 60 + t] == next.skip(h - BYTES_PER_HOP * (j + 1))[BYTES_PER_HOP * j + t]);
        assert(f1[BYTES_PER_HOP * j + t] == (f + zeros(60))[BYTES_PER_HOP * j + t] ^ st.skip(
            h - BYTES_PER_HOP * j,
        )[BYTES_PER_HOP * j + t]);
        lemma_byte_xor_twice(0u8, st[h + t]);
    }
    assert forall|k: int| 0 <= k < h implies #[trigger] routing.skip(60)[k] == next[k] by {
        if k + 60 < h {
            assert(routing[k + 60] == (info + next)[k + 60]);
        } else {
            assert(routing[k + 60] == (beta + zeros(60))[k + 60] ^ st[k + 60]);
            lemma_byte_xor_twice(0u8, st[k + 60]);
            assert(next[h - 60 + (k + 60 - h)] == st[h + (k + 60 - h)]);
        }
    }
    assert(routing.skip(60) =~= next);
    assert(routing[0] == info[0]);
    assert(routing.subrange(1, 44) =~= addrs[j + 1] + zeros(11));
    assert(routing.subrange(44, 60) =~= mu_spec(h_mu_spec(ss[j + 1]), next));
    assert(fixed(edwards_mul(a, sk), 32) == s);
    let (f0, a0) = blind_chain(x, keys, j as nat);
    assert(hop_alpha(x, keys, j + 1) == fixed(edwards_mul(a, h_b_spec(a, s)), 32));
}

/// What the last hop of a path reads from its header: the last-hop
/// information the onion was built with.
proof fn lemma_last_routing(
    x: Seq<u8>,
    keys: Seq<Seq<u8>>,
    addrs: Seq<Seq<u8>>,
    h: nat,
    final_info: Seq<u8>,
    padding: Seq<u8>,
)
    requires
        header_layout(shared_secrets(x, keys), addrs, h, final_info, padding),
    ensures
        ({
            let ss = shared_secrets(x, keys);
            let n = keys.len() as int;
            let beta = beta_spec(ss, addrs, h, final_info, padding, n - 1);
            xor_seq(beta + zeros(60), stream_of(ss[n - 1], h)).take(1 + REPLY_META_LENGTH) == final_info
        }),
{
    let ss = shared_secrets(x, keys);
    let n = keys.len() as int;
    let beta = beta_spec(ss, addrs, h, final_info, padding, n - 1);
    lemma_beta_len(ss, addrs, h, final_info, padding, n - 1);
    let st = stream_of(ss[n - 1], h);
    let routing = xor_seq(beta + zeros(60), st);
    assert(ss.last() == ss[n - 1]);
    assert forall|k: int| 0 <= k < 1 + REPLY_META_LENGTH implies #[trigger] routing[k] == final_info[k] by {
        assert(beta[k] == xor_seq(final_info, st)[k]);
        lemma_byte_xor_twice(final_info[k], st[k]);
    }
    assert(routing.take(1 + REPLY_META_LENGTH) =~= final_info);
}

/// The last node of a fragment's path, when it recovers its shared secret,
/// reads the fragment's set identifier and index, and removes the last
/// payload layer.
pub proof fn lemma_fragment_arrives(
    x: Seq<u8>,
    keys: Seq<Seq<u8>>,
    addrs: Seq<Seq<u8>>,
    h: nat,
    index: nat,
    set_id: Seq<u8>,
    padding: Seq<u8>,
    payload: Seq<u8>,
    sk: Seq<u8>,
)
    requires
        header_layout(shared_secrets(x, keys), addrs, h, fragment_info(index, set_id), padding),
        index < pow256(16),
        set_id.len() == KAPPA,
        node_recovers(x, keys, keys.len() - 1, sk),
    ensures
        process_spec(
            h,
            sk,
            hop_onion(x, keys, addrs, h, fragment_info(index, set_id), padding, payload, keys.len() - 1),
        ) == Ok::<ProcessedView, Error>(
            ProcessedView::Fragment {
                set_id: be_value(set_id),
                index,
                data: pi_inv_spec(
                    h_pi_spec(shared_secrets(x, keys)[keys.len() - 1]),
                    layered_spec(pi_keys(shared_secrets(x, keys)), payload, keys.len() - 1),
                ),
            },
        ),
{
    let fi = fragment_info(index, set_id);
    let n = keys.len() as int;
    let ss = shared_secrets(x, keys);
    lemma_hop_parts(x, keys, addrs, h, fi, padding, payload, n - 1);
    lemma_last_routing(x, keys, addrs, h, fi, padding);
    lemma_be_roundtrip(index, 16);
    let beta = beta_spec(ss, addrs, h, fi, padding, n - 1);
    lemma_beta_len(ss, addrs, h, fi, padding, n - 1);
    let routing = xor_seq(beta + zeros(60), stream_of(ss[n - 1], h));
    assert(routing.subrange(1, 17) =~= routing.take(1 + REPLY_META_LENGTH).subrange(1, 17));
    assert(routing.subrange(17, 33) =~= routing.take(1 + REPLY_META_LENGTH).subrange(17, 33));
    assert(fi.subrange(1, 17) =~= be_bytes(index, 16));
    assert(fi.subrange(17, 33) =~= set_id);
    assert(routing[0] == fi[0]);
}

/// The last node of a reply block's path, when it recovers its shared
/// secret, reads the reply's routing information and removes the last
/// payload layer.
pub proof fn lemma_reply_arrives(
    x: Seq<u8>,
    keys: Seq<Seq<u8>>,
    addrs: Seq<Seq<u8>>,
    h: nat,
    meta: Seq<u8>,
    padding: Seq<u8>,
    payload: Seq<u8>,
    sk: Seq<u8>,
)
    requires
        header_layout(shared_secrets(x, keys), addrs, h, reply_info(meta), padding),
        node_recovers(x, keys, keys.len() - 1, sk),
    ensures
        process_spec(
            h,
            sk,
            hop_onion(x, keys, addrs, h, reply_info(meta), padding, payload, keys.len() - 1),
        ) == Ok::<ProcessedView, Error>(
            ProcessedView::Reply {
                meta,
                data: pi_inv_spec(
                    h_pi_spec(shared_secrets(x, keys)[keys.len() - 1]),
                    layered_spec(pi_keys(shared_secrets(x, keys)), payload, keys.len() - 1),
                ),
            },
        ),
{
    let fi = reply_info(meta);
    let n = keys.len() as int;
    let ss = shared_secrets(x, keys);
    lemma_hop_parts(x, keys, addrs, h, fi, padding, payload, n - 1);
    lemma_last_routing(x, keys, addrs, h, fi, padding);
    let beta = beta_spec(ss, addrs, h, fi, padding, n - 1);
    lemma_beta_len(ss, addrs, h, fi, padding, n - 1);
    let routing = xor_seq(beta + zeros(60), stream_of(ss[n - 1], h));
    assert(routing.subrange(1, 52) =~= routing.take(1 + REPLY_META_LENGTH).subrange(1, 52));
    assert(fi.subrange(1, 52) =~= meta);
    assert(routing[0] == fi[0]);
}

/// Every node of a path recovers the secret it shares with the sender,
/// whatever secret scalar the onion was built from: `sks[j]` is the private
/// key that belongs to the public key `keys[j]` (the Diffie-Hellman
/// agreement of the curve).
pub open spec fn path_agrees(keys: Seq<Seq<u8>>, sks: Seq<Seq<u8>>) -> bool {
    &&& sks.len() == keys.len()
    &&& forall|x: Seq<u8>, j: int| 0 <= j < keys.len() ==> #[trigger] node_recovers(x, keys, j, sks[j])
}

/// The onion that hop `j` of a path gets when each earlier hop, with the
/// private keys `sks`, processes what it got and passes on what it relays.
pub open spec fn walk(h: nat, sks: Seq<Seq<u8>>, o: Seq<u8>, j: nat) -> Seq<u8>
    decreases j,
{
    if j == 0 {
        o
    } else {
        match process_spec(h, sks[j - 1], walk(h, sks, o, (j - 1) as nat)) {
            Ok(ProcessedView::Relay { onion, .. }) => onion,
            _ => Seq::empty(),
        }
    }
}

/// What the last hop of a path makes of the onion it gets.
pub open spec fn at_last_hop(h: nat, sks: Seq<Seq<u8>>, o: Seq<u8>) -> Result<ProcessedView, Error> {
    process_spec(h, sks.last(), walk(h, sks, o, (sks.len() - 1) as nat))
}

/// The fragment data the last hop of a path delivers, if any.
pub open spec fn delivered_data(h: nat, sks: Seq<Seq<u8>>, o: Seq<u8>) -> Seq<u8> {
    match at_last_hop(h, sks, o) {
        Ok(ProcessedView::Fragment { data, .. }) => data,
        _ => Seq::empty(),
    }
}

/// Along a path whose nodes recover their shared secrets, and whose payload
/// layers peel, each hop gets exactly the onion meant for it.
pub proof fn lemma_walk(
    x: Seq<u8>,
    keys: Seq<Seq<u8>>,
    addrs: Seq<Seq<u8>>,
    h: nat,
    final_info: Seq<u8>,
    padding: Seq<u8>,
    payload: Seq<u8>,
    sks: Seq<Seq<u8>>,
    j: nat,
)
    requires
        header_layout(shared_secrets(x, keys), addrs, h, final_info, padding),
        layers_peel(pi_keys(shared_secrets(x, keys)), payload),
        path_agrees(keys, sks),
        j < keys.len(),
    ensures
        walk(h, sks, onion_spec(x, keys, addrs, h, final_info, padding, payload), j) == hop_onion(
            x,
            keys,
            addrs,
            h,
            final_info,
            padding,
            payload,
            j as int,
        ),
    decreases j,
{
    let o = onion_spec(x, keys, addrs, h, final_info, padding, payload);
    if j == 0 {
        lemma_first_hop(x, keys, addrs, h, final_info, padding, payload);
    } else {
        let i = (j - 1) as nat;
        lemma_walk(x, keys, addrs, h, final_info, padding, payload, sks, i);
        assert(node_recovers(x, keys, i as int, sks[i as int]));
        lemma_relay_hop(x, keys, addrs, h, final_info, padding, payload, i as int, sks[i as int]);
        let ss = shared_secrets(x, keys);
        assert(pi_keys(ss)[i as int] == h_pi_spec(ss[i as int]));
        assert(pi_inv_spec(pi_keys(ss)[i as int], layered_spec(pi_keys(ss), payload, i as int)) == layered_spec(
            pi_keys(ss),
            payload,
            j as int,
        ));
    }
}

/// `256^16` exceeds every `usize`.
proof fn lemma_pow256_16()
    ensures
        usize::MAX < pow256(16),
{
    reveal_with_fuel(pow256, 9);
    assert(pow256(8) == 0x1_0000_0000_0000_0000nat);
    crate::bytes::lemma_pow256_mono(8, 16);
}

/// Delivery of a fragmented message: take the onions of a fragment set (as
/// `create_onions` builds them, for seed `r` and set identifier `set_id`)
/// and let every node of each path, holding the private key of its public
/// key, process what it gets. Every hop but the last relays to the next
/// node of the path (its address, zero delay and version); the last hop of
/// path `i` reads the set identifier and index `i` and delivers the `i`-th
/// transformed fragment; and reassembly of the delivered data in index
/// order gives back the destination and the message.
pub proof fn lemma_fragments_delivered(
    sc: Scylla,
    paths: Seq<Seq<Node>>,
    destination: Seq<u8>,
    fragments: Seq<Seq<u8>>,
    r: Seq<u8>,
    set_id: Seq<u8>,
    onions: Seq<Seq<u8>>,
    sks: Seq<Seq<Seq<u8>>>,
)
    requires
        sc.params_ok(),
        sc.fragment_onions(paths, destination, fragments, r, set_id, onions),
        destination.len() == FINAL_HOP_META_LENGTH,
        1 <= fragments.len() == paths.len() <= usize::MAX,
        forall|i: int| 0 <= i < paths.len() ==> 1 <= (#[trigger] paths[i]).len() <= sc.max_path(),
        sks.len() == paths.len(),
        forall|i: int| 0 <= i < paths.len() ==> path_agrees(path_keys(paths[i]), #[trigger] sks[i]),
    ensures
        forall|i: int, j: int|
            0 <= i < paths.len() && 0 <= j < paths[i].len() - 1 ==> process_spec(
                sc.header_len(),
                sks[i][j],
                #[trigger] walk(sc.header_len(), sks[i], onions[i], j as nat),
            ) == Ok::<ProcessedView, Error>(
                ProcessedView::Relay {
                    meta: path_addresses(paths[i])[j + 1] + zeros(11),
                    onion: walk(sc.header_len(), sks[i], onions[i], (j + 1) as nat),
                },
            ),
        forall|i: int|
            0 <= i < paths.len() ==> #[trigger] at_last_hop(sc.header_len(), sks[i], onions[i]) == Ok::<
                ProcessedView,
                Error,
            >(
                ProcessedView::Fragment {
                    set_id: be_value(set_id),
                    index: i as nat,
                    data: aont_spec(r, prepared_fragments(destination, fragments))[i],
                },
            ),
        defrag_spec(Seq::new(paths.len(), |i: int| delivered_data(sc.header_len(), sks[i], onions[i]))) == Ok::<
            (Seq<u8>, Seq<u8>),
            Error,
        >((destination, concat_all(fragments))),
{
    let h = sc.header_len();
    let payloads = aont_spec(r, prepared_fragments(destination, fragments));
    lemma_pow256_16();
    assert forall|i: int| 0 <= i < paths.len() implies {
        &&& forall|j: int|
            0 <= j < paths[i].len() - 1 ==> process_spec(h, sks[i][j], #[trigger] walk(h, sks[i], onions[i], j as nat))
                == Ok::<ProcessedView, Error>(
                ProcessedView::Relay {
                    meta: path_addresses(paths[i])[j + 1] + zeros(11),
                    onion: walk(h, sks[i], onions[i], (j + 1) as nat),
                },
            )
        &&& at_last_hop(h, sks[i], onions[i]) == Ok::<ProcessedView, Error>(
            ProcessedView::Fragment { set_id: be_value(set_id), index: i as nat, data: payloads[i] },
        )
    } by {
        let path = paths[i];
        let keys = path_keys(path);
        let addrs = path_addresses(path);
        let fi = fragment_info(i as nat, set_id);
        assert(sc.wrapped(path, fi, payloads[i], onions[i]));
        let (wide, padding) = choose|wide: Seq<u8>, padding: Seq<u8>|
            wide.len() == 64 && padding.len() == BYTES_PER_HOP * (sc.max_path() - path.len())
                && layers_peel(pi_keys(shared_secrets(scalar_reduce_wide(wide), path_keys(path))), payloads[i])
                && onions[i] == #[trigger] onion_spec(
                scalar_reduce_wide(wide),
                path_keys(path),
                path_addresses(path),
                sc.header_len(),
                fi,
                padding,
                payloads[i],
            );
        let x = scalar_reduce_wide(wide);
        let ss = shared_secrets(x, keys);
        let n = path.len();
        lemma_be_bytes_len(i as nat, 16);
        assert forall|k: int| 0 <= k < addrs.len() implies (#[trigger] addrs[k]).len() == 32 by {
            path[k].lemma_view_lengths();
        }
        assert(header_layout(ss, addrs, h, fi, padding));
        assert forall|j: int| 0 <= j < n - 1 implies process_spec(h, sks[i][j], #[trigger] walk(h, sks[i], onions[i], j as nat))
            == Ok::<ProcessedView, Error>(
            ProcessedView::Relay {
                meta: addrs[j + 1] + zeros(11),
                onion: walk(h, sks[i], onions[i], (j + 1) as nat),
            },
        ) by {
            lemma_walk(x, keys, addrs, h, fi, padding, payloads[i], sks[i], j as nat);
            assert(node_recovers(x, keys, j, sks[i][j]));
            lemma_relay_hop(x, keys, addrs, h, fi, padding, payloads[i], j, sks[i][j]);
        }
        lemma_walk(x, keys, addrs, h, fi, padding, payloads[i], sks[i], (n - 1) as nat);
        assert(node_recovers(x, keys, n - 1, sks[i][n - 1]));
        assert(sks[i].last() == sks[i][n - 1]);
        lemma_fragment_arrives(x, keys, addrs, h, i as nat, set_id, padding, payloads[i], sks[i][n - 1]);
        assert(pi_keys(ss)[n - 1] == h_pi_spec(ss[n - 1]));
        assert(layered_spec(pi_keys(ss), payloads[i], n as int) == payloads[i]);
    }
    lemma_aont_lens(r, prepared_fragments(destination, fragments));
    let data = Seq::new(paths.len(), |i: int| delivered_data(h, sks[i], onions[i]));
    assert(data =~= payloads);
    lemma_defrag_recovers(r, destination, fragments);
}

} // verus!
