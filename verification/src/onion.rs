//! The Scylla packet format: onions that carry one fragment each along a
//! path of mix nodes, the processing a node applies to an onion, single-use
//! reply blocks, and the reassembly of a fragmented message.
use vstd::prelude::*;
use crate::bytes::{append_bytes, append_zeros, be_value, fixed, concat, u128_from_be, xor, xor_seq, zeros};
use crate::error::{Error, Result};
use crate::aont::{aont, aont_inv, aont_inv_spec, aont_spec, byte_views, concat_all, concat_fragments,
    copy_bytes, lemma_aont_inv_len, lemma_aont_lens, total_len, KAPPA};
use crate::bytes::{be_bytes, lemma_be_bytes_len, u128_to_be};
use crate::keys::{h_b, h_b_spec, h_mu, h_mu_spec, h_pi, h_pi_spec, h_rho, h_rho_spec, mu, mu_spec, pi,
    pi_accepts, pi_inv, pi_inv_spec, pi_spec};
use crate::primitives::{base_mul, chacha20_stream, edwards_base_mul, edwards_decompresses, edwards_mul,
    edwards_recompress, point_mul, point_recompress, random_bytes, rho, scalar_from_wide, scalar_mul, scalar_product,
    scalar_reduce_wide, thread_rng};

verus! {

/// Length of a node or destination address.
pub const ADDRESS_LENGTH: usize = 32;

/// Length of the payload cipher keys.
pub const PI_KEY_SIZE: usize = 192;

/// Length of the group element at the front of an onion.
pub const ALPHA_LEN: usize = 32;

/// Routing information for a relay hop: address, delay and version.
pub const PER_HOP_META_LENGTH: usize = 43;

/// Routing information for the last hop of a fragment: the destination.
pub const FINAL_HOP_META_LENGTH: usize = 32;

/// Routing information for the last hop of a reply: destination,
/// identifier and version.
pub const REPLY_META_LENGTH: usize = 51;

/// Header bytes consumed per hop: flag, routing information and MAC.
pub const BYTES_PER_HOP: usize = 60;

/// An address of a node or user.
pub type Address = [u8; ADDRESS_LENGTH];

/// Routing information for a relay hop.
pub type PerHopMeta = [u8; PER_HOP_META_LENGTH];

/// Routing information for the last hop of a fragment.
pub type FinalHopMeta = [u8; FINAL_HOP_META_LENGTH];

/// Routing information for the last hop of a reply.
pub type ReplyMeta = [u8; REPLY_META_LENGTH];

/// Copies exactly `N` bytes into an array.
pub fn to_array<const N: usize>(s: &[u8]) -> (res: [u8; N])
    requires
        s@.len() == N,
    ensures
        res@ == s@,
{
    let mut a: [u8; N] = [0u8; N];
    let mut i: usize = 0;
    while i < N
        invariant
            i <= N,
            s@.len() == N,
            a@.len() == N,
            forall|j: int| 0 <= j < i ==> a@[j] == s@[j],
        decreases N - i,
    {
        a[i] = s[i];
        i = i + 1;
    }
    assert(a@ =~= s@);
    a
}

/// Whether two byte strings are equal.
pub fn bytes_eq(a: &[u8], b: &[u8]) -> (res: bool)
    ensures
        res == (a@ == b@),
{
    if a.len() != b.len() {
        return false;
    }
    let mut i: usize = 0;
    while i < a.len()
        invariant
            i <= a@.len(),
            a@.len() == b@.len(),
            forall|j: int| 0 <= j < i ==> a@[j] == b@[j],
        decreases a@.len() - i,
    {
        if a[i] != b[i] {
            return false;
        }
        i = i + 1;
    }
    assert(a@ =~= b@);
    true
}

/// Whether a byte string is all zeros.
pub fn is_zero(s: &[u8]) -> (res: bool)
    ensures
        res == (s@ == zeros(s@.len())),
{
    let mut i: usize = 0;
    while i < s.len()
        invariant
            i <= s@.len(),
            forall|j: int| 0 <= j < i ==> s@[j] == 0u8,
        decreases s@.len() - i,
    {
        if s[i] != 0u8 {
            assert(s@[i as int] != zeros(s@.len())[i as int]);
            return false;
        }
        i = i + 1;
    }
    assert(s@ =~= zeros(s@.len()));
    true
}

/// A mix node: its address and its public key, a compressed Edwards point.
#[derive(Debug, Clone, Copy, PartialEq, Eq)]
pub struct Node {
    pub(crate) address: Address,
    pub(crate) public_key: [u8; 32],
}

impl Node {
    /// A node's public key always decompresses to a curve point.
    #[verifier::type_invariant]
    spec fn key_is_point(self) -> bool {
        edwards_decompresses(self.public_key@)
    }

    /// The node's address.
    pub closed spec fn address_view(self) -> Seq<u8> {
        self.address@
    }

    /// The node's public key.
    pub closed spec fn key_view(self) -> Seq<u8> {
        self.public_key@
    }

    /// A node's address and public key are 32 bytes each.
    pub proof fn lemma_view_lengths(self)
        ensures
            self.address_view().len() == ADDRESS_LENGTH,
            self.key_view().len() == 32,
    {
    }

    /// The node's address.
    pub fn address(&self) -> (res: Address)
        ensures
            res@ == self.address_view(),
    {
        self.address
    }

    /// The node's public key (a compressed Edwards point).
    pub fn public_key(&self) -> (res: [u8; 32])
        ensures
            res@ == self.key_view(),
            edwards_decompresses(res@),
    {
        proof {
            use_type_invariant(self);
        }
        self.public_key
    }

    /// The node with the given address whose public key belongs to the
    /// given private key: the private key times the base point.
    pub fn from_private_key(address: Address, private_key: &[u8; 32]) -> (res: Node)
        ensures
            res.address_view() == address@,
            res.key_view() == edwards_base_mul(private_key@),
    {
        let public_key = base_mul(private_key);
        Node { address, public_key }
    }

    /// A fresh private key (64 random bytes reduced to a scalar) and the node
    /// with a random address that it belongs to.
    pub fn random(mut rng: rand::rngs::ThreadRng) -> (res: ([u8; 32], Node))
        ensures
            exists|wide: Seq<u8>| wide.len() == 64 && res.0@ == #[trigger] scalar_reduce_wide(wide),
            res.1.key_view() == edwards_base_mul(res.0@),
    {
        let wide = random_bytes(&mut rng, 64);
        let private_key = scalar_from_wide(wide.as_slice());
        let address_bytes = random_bytes(&mut rng, ADDRESS_LENGTH);
        let address: Address = to_array(address_bytes.as_slice());
        (private_key, Node::from_private_key(address, &private_key))
    }
}

/// What a node makes of an onion it processed.
#[derive(Debug, Clone)]
pub enum ProcessedOnion {
    /// Pass `onion` on to the node that `meta` names.
    Relay { meta: PerHopMeta, onion: Vec<u8> },
    /// A fragment of the message with the given set and index arrived.
    Fragment { set_id: u128, index: u128, data: Vec<u8> },
    /// A reply for the user that `meta` names arrived.
    Reply { meta: ReplyMeta, data: Vec<u8> },
}

/// The contents of a processed onion.
pub enum ProcessedView {
    Relay { meta: Seq<u8>, onion: Seq<u8> },
    Fragment { set_id: nat, index: nat, data: Seq<u8> },
    Reply { meta: Seq<u8>, data: Seq<u8> },
}

impl View for ProcessedOnion {
    type V = ProcessedView;

    open spec fn view(&self) -> ProcessedView {
        match self {
            ProcessedOnion::Relay { meta, onion } => ProcessedView::Relay { meta: meta@, onion: onion@ },
            ProcessedOnion::Fragment { set_id, index, data } => ProcessedView::Fragment {
                set_id: *set_id as nat,
                index: *index as nat,
                data: data@,
            },
            ProcessedOnion::Reply { meta, data } => ProcessedView::Reply { meta: meta@, data: data@ },
        }
    }
}

/// The contents of the result of processing an onion.
pub open spec fn processed_view(r: Result<ProcessedOnion>) -> Result<ProcessedView> {
    match r {
        Ok(p) => Ok(p@),
        Err(e) => Err(e),
    }
}

/// The three kinds of hop in a header.
#[derive(Debug, Clone, Copy, PartialEq, Eq, Structural)]
pub enum Flag {
    Deliver,
    Relay,
    Fragment,
}

impl Flag {
    /// The byte that marks the kind of hop in a header.
    pub fn as_byte(self) -> (res: u8)
        ensures
            res == match self {
                Flag::Deliver => flag_deliver(),
                Flag::Relay => flag_relay(),
                Flag::Fragment => flag_fragment(),
            },
    {
        match self {
            Flag::Deliver => 0xf0u8,
            Flag::Relay => 0xf1u8,
            Flag::Fragment => 0xf2u8,
        }
    }
}

/// The group element at the front of an onion.
pub open spec fn onion_alpha(onion: Seq<u8>) -> Seq<u8> {
    onion.take(ALPHA_LEN as int)
}

/// The header of an onion with headers of `h` bytes.
pub open spec fn onion_beta(h: nat, onion: Seq<u8>) -> Seq<u8> {
    onion.subrange(ALPHA_LEN as int, ALPHA_LEN + h)
}

/// The header MAC of an onion with headers of `h` bytes.
pub open spec fn onion_gamma(h: nat, onion: Seq<u8>) -> Seq<u8> {
    onion.subrange(ALPHA_LEN + h, ALPHA_LEN + h + 16)
}

/// The payload of an onion with headers of `h` bytes.
pub open spec fn onion_delta(h: nat, onion: Seq<u8>) -> Seq<u8> {
    onion.skip(ALPHA_LEN + h + 16)
}

/// The secret a node with private key `sk` shares with the sender of
/// `onion`.
pub open spec fn node_secret(sk: Seq<u8>, onion: Seq<u8>) -> Seq<u8> {
    fixed(edwards_mul(fixed(edwards_recompress(onion_alpha(onion)), 32), sk), 32)
}

/// What a node with private key `sk` makes of `onion`, for headers of `h`
/// bytes: the header MAC is checked, the header decrypted and shifted by one
/// hop, the payload decrypted by one layer, and the flag of the routing
/// information says what the onion is.
pub open spec fn process_spec(h: nat, sk: Seq<u8>, onion: Seq<u8>) -> Result<ProcessedView> {
    let a = fixed(edwards_recompress(onion_alpha(onion)), 32);
    let s = fixed(edwards_mul(a, sk), 32);
    let beta = onion_beta(h, onion);
    if onion_gamma(h, onion) != mu_spec(h_mu_spec(s), beta) {
        Err(Error::MacMismatch)
    } else {
        let routing = xor_seq(beta + zeros(60), stream_of(s, h));
        let data = pi_inv_spec(h_pi_spec(s), onion_delta(h, onion));
        let flag = routing[0];
        if flag == flag_relay() {
            Ok(
                ProcessedView::Relay {
                    meta: routing.subrange(1, 1 + PER_HOP_META_LENGTH),
                    onion: fixed(edwards_mul(a, h_b_spec(a, s)), 32) + routing.skip(60) + routing.subrange(
                        1 + PER_HOP_META_LENGTH,
                        60,
                    ) + data,
                },
            )
        } else if flag == flag_fragment() {
            Ok(
                ProcessedView::Fragment {
                    set_id: be_value(routing.subrange(17, 33)),
                    index: be_value(routing.subrange(1, 17)),
                    data,
                },
            )
        } else if flag == flag_deliver() {
            Ok(ProcessedView::Reply { meta: routing.subrange(1, 1 + REPLY_META_LENGTH), data })
        } else {
            Err(Error::InvalidHeaderFlag)
        }
    }
}

/// Onions a node can process without failing: long enough for the group
/// element, header and MAC, with a payload the cipher accepts.
pub open spec fn onion_fits(h: nat, onion: Seq<u8>) -> bool {
    &&& onion.len() >= ALPHA_LEN + h + 16
    &&& pi_accepts((onion.len() - (ALPHA_LEN + h + 16)) as nat)
}

/// The parameters of the format: the longest path an onion can take and
/// the size of the payload each onion carries.
#[derive(Debug, Clone)]
pub struct Scylla {
    max_path_length: u32,
    payload_size: u32,
}

/// Flag byte of a relay hop.
pub open spec fn flag_relay() -> u8 {
    0xf1u8
}

/// Flag byte of the last hop of a fragment.
pub open spec fn flag_fragment() -> u8 {
    0xf2u8
}

/// Flag byte of the last hop of a reply.
pub open spec fn flag_deliver() -> u8 {
    0xf0u8
}

/// The contents of a vector of 32-byte arrays.
pub open spec fn array_views(v: Seq<[u8; 32]>) -> Seq<Seq<u8>> {
    Seq::new(v.len(), |i: int| v[i]@)
}

/// Pushing the next array extends the contents by that array.
pub proof fn lemma_array_views_push(before: Seq<[u8; 32]>, v: [u8; 32], target: Seq<Seq<u8>>, k: int)
    requires
        array_views(before) == target.take(k),
        0 <= k < target.len(),
        v@ == target[k],
    ensures
        array_views(before.push(v)) == target.take(k + 1),
{
    assert(array_views(before).len() == before.len());
    assert(target.take(k).len() == k);
    assert forall|j: int| 0 <= j <= k implies #[trigger] array_views(before.push(v))[j]
        == target.take(k + 1)[j] by {
        if j < k {
            assert(array_views(before)[j] == target.take(k)[j]);
        }
    }
    assert(array_views(before.push(v)) =~= target.take(k + 1));
}

/// The public keys of the nodes of a path.
pub open spec fn path_keys(path: Seq<Node>) -> Seq<Seq<u8>> {
    Seq::new(path.len(), |i: int| path[i].key_view())
}

/// The addresses of the nodes of a path.
pub open spec fn path_addresses(path: Seq<Node>) -> Seq<Seq<u8>> {
    Seq::new(path.len(), |i: int| path[i].address_view())
}

/// The scalar factor and the group element after blinding `i` times along
/// a path with public keys `keys`, starting from the secret scalar `x`.
pub open spec fn blind_chain(x: Seq<u8>, keys: Seq<Seq<u8>>, i: nat) -> (Seq<u8>, Seq<u8>)
    decreases i,
{
    if i == 0 {
        (x, fixed(edwards_base_mul(x), 32))
    } else {
        let (f, a) = blind_chain(x, keys, (i - 1) as nat);
        let s = fixed(edwards_mul(keys[i - 1], f), 32);
        let b = h_b_spec(a, s);
        (scalar_product(f, b), fixed(edwards_mul(a, b), 32))
    }
}

/// The secret the sender shares with each node of a path.
pub open spec fn shared_secrets(x: Seq<u8>, keys: Seq<Seq<u8>>) -> Seq<Seq<u8>> {
    Seq::new(keys.len(), |i: int| fixed(edwards_mul(keys[i], blind_chain(x, keys, i as nat).0), 32))
}

/// The header key stream of a shared secret, `h + 60` bytes long for a
/// header of `h` bytes.
pub open spec fn stream_of(s: Seq<u8>, h: nat) -> Seq<u8> {
    Seq::new(h + 60, |i: int| chacha20_stream(h_rho_spec(s), h + 60)[i])
}

/// The filler that makes the header keep its length along the path, after
/// the first `k` hops.
pub open spec fn filler_spec(ss: Seq<Seq<u8>>, h: nat, k: nat) -> Seq<u8>
    decreases k,
{
    if k == 0 {
        Seq::empty()
    } else {
        xor_seq(
            filler_spec(ss, h, (k - 1) as nat) + zeros(60),
            stream_of(ss[k - 1], h).skip(h - 60 * (k - 1)),
        )
    }
}

/// Routing information of a relay hop: flag, next address, zero delay and
/// version, and the MAC of the next header.
pub open spec fn relay_info(addr: Seq<u8>, mac: Seq<u8>) -> Seq<u8> {
    seq![flag_relay()] + addr + zeros(11) + mac
}

/// The header that hop `i` of the path receives.
pub open spec fn beta_spec(
    ss: Seq<Seq<u8>>,
    addrs: Seq<Seq<u8>>,
    h: nat,
    final_info: Seq<u8>,
    padding: Seq<u8>,
    i: int,
) -> Seq<u8>
    decreases ss.len() - i,
{
    if i + 1 >= ss.len() {
        xor_seq(final_info, stream_of(ss.last(), h)) + padding + filler_spec(
            ss,
            h,
            (ss.len() - 1) as nat,
        )
    } else {
        let next = beta_spec(ss, addrs, h, final_info, padding, i + 1);
        xor_seq(
            relay_info(addrs[i + 1], mu_spec(h_mu_spec(ss[i + 1]), next)) + next,
            stream_of(ss[i], h).take(h as int),
        )
    }
}

/// `data` encrypted with the payload cipher under `keys[i]`, then under
/// `keys[i - 1]`, down to `keys[0]`... that is, the layers from `keys[i]` on,
/// the innermost being the last key.
pub open spec fn layered_spec(keys: Seq<Seq<u8>>, data: Seq<u8>, i: int) -> Seq<u8>
    decreases keys.len() - i,
{
    if i >= keys.len() {
        data
    } else {
        pi_spec(keys[i], layered_spec(keys, data, i + 1))
    }
}

/// The payload cipher keys of a sequence of shared secrets.
pub open spec fn pi_keys(ss: Seq<Seq<u8>>) -> Seq<Seq<u8>> {
    Seq::new(ss.len(), |i: int| h_pi_spec(ss[i]))
}

/// The contents of a vector of payload keys.
pub open spec fn key_views(v: Seq<[u8; PI_KEY_SIZE]>) -> Seq<Seq<u8>> {
    Seq::new(v.len(), |i: int| v[i]@)
}

/// The payloads a sequence of hops sees when each removes one layer with
/// its key: `ys[0]` enters the first hop and `ys[i + 1]` leaves hop `i`,
/// each of the same length.
pub open spec fn peel_trace(keys: Seq<Seq<u8>>, ys: Seq<Seq<u8>>) -> bool {
    &&& ys.len() == keys.len() + 1
    &&& forall|i: int|
        0 <= i < keys.len() ==> ys[i + 1] == #[trigger] pi_inv_spec(keys[i], ys[i]) && ys[i].len()
            == ys[i + 1].len()
}

/// Every layer of a payload wrapped under `keys` decrypts to the next one
/// and has the payload's length.
pub open spec fn layers_peel(keys: Seq<Seq<u8>>, payload: Seq<u8>) -> bool {
    forall|j: int|
        0 <= j < keys.len() ==> #[trigger] pi_inv_spec(keys[j], layered_spec(keys, payload, j))
            == layered_spec(keys, payload, j + 1) && layered_spec(keys, payload, j).len() == payload.len()
}

/// The group element at the front of an onion is a curve point, in its
/// canonical compressed form.
pub open spec fn alpha_canonical(onion: Seq<u8>) -> bool {
    &&& edwards_decompresses(onion_alpha(onion))
    &&& fixed(edwards_recompress(onion_alpha(onion)), 32) == onion_alpha(onion)
}

/// The onion built along a path with node keys `keys` and addresses
/// `addrs`, from the secret scalar `x`, for a header of `h` bytes, the last
/// hop's routing information `final_info`, the header padding and the
/// payload.
pub open spec fn onion_spec(
    x: Seq<u8>,
    keys: Seq<Seq<u8>>,
    addrs: Seq<Seq<u8>>,
    h: nat,
    final_info: Seq<u8>,
    padding: Seq<u8>,
    payload: Seq<u8>,
) -> Seq<u8> {
    let ss = shared_secrets(x, keys);
    let beta = beta_spec(ss, addrs, h, final_info, padding, 0);
    blind_chain(x, keys, 0).1 + beta + mu_spec(h_mu_spec(ss[0]), beta) + layered_spec(pi_keys(ss), payload, 0)
}

/// The routing information of the last hop of a reply: the deliver flag
/// and the reply's routing information.
pub open spec fn reply_info(meta: Seq<u8>) -> Seq<u8> {
    seq![flag_deliver()] + meta
}

/// The last node of a path, by address and key.
pub open spec fn last_view(p: Seq<Node>) -> Option<(Seq<u8>, Seq<u8>)> {
    if p.len() == 0 {
        None
    } else {
        Some((p.last().address_view(), p.last().key_view()))
    }
}

/// The node sequences of a sequence of paths.
pub open spec fn path_views(paths: Seq<Vec<Node>>) -> Seq<Seq<Node>> {
    Seq::new(paths.len(), |i: int| paths[i]@)
}

/// The routing information of the last hop of fragment `i` of the set
/// `set_id`: the fragment flag, the index in 16 big-endian bytes, the set
/// identifier and zero padding.
pub open spec fn fragment_info(i: nat, set_id: Seq<u8>) -> Seq<u8> {
    seq![flag_fragment()] + be_bytes(i, 16) + set_id + zeros(19)
}

/// The fragments of a message to `destination` as they enter the
/// transform: the first gets 16 zero bytes and the destination in front.
pub open spec fn prepared_fragments(destination: Seq<u8>, fragments: Seq<Seq<u8>>) -> Seq<Seq<u8>> {
    fragments.update(0, zeros(KAPPA as nat) + destination + fragments[0])
}

/// The message bytes that the inverse transform of a fragment set yields.
pub open spec fn defrag_data(fragments: Seq<Seq<u8>>) -> Seq<u8> {
    concat_all(aont_inv_spec(fragments))
}

/// The fragment sets on which reassembly cannot complete: the message
/// bytes start with 16 zero bytes but are too short to hold a destination.
pub open spec fn defrag_overruns(fragments: Seq<Seq<u8>>) -> bool {
    let data = defrag_data(fragments);
    &&& data.len() >= KAPPA
    &&& data.take(KAPPA as int) == zeros(KAPPA as nat)
    &&& data.len() < KAPPA + FINAL_HOP_META_LENGTH
}

/// Reassembly: the inverse transform; a complete set starts with 16 zero
/// bytes, followed by the destination and the message.
pub open spec fn defrag_spec(fragments: Seq<Seq<u8>>) -> Result<(Seq<u8>, Seq<u8>)> {
    let data = defrag_data(fragments);
    if data.len() < KAPPA || data.take(KAPPA as int) != zeros(KAPPA as nat) {
        Err(Error::MissingFragments)
    } else {
        Ok(
            (
                data.subrange(KAPPA as int, KAPPA + FINAL_HOP_META_LENGTH),
                data.skip(KAPPA + FINAL_HOP_META_LENGTH),
            ),
        )
    }
}

/// The contents of a reassembly result.
pub open spec fn defrag_view(r: Result<(FinalHopMeta, Vec<u8>)>) -> Result<(Seq<u8>, Seq<u8>)> {
    match r {
        Ok((a, d)) => Ok((a@, d@)),
        Err(e) => Err(e),
    }
}

/// Whether the last nodes of two paths are the same (or both paths empty).
fn same_last(a: &[Node], b: &[Node]) -> (res: bool)
    ensures
        res == (last_view(a@) == last_view(b@)),
{
    if a.len() == 0 || b.len() == 0 {
        return a.len() == 0 && b.len() == 0;
    }
    let x = &a[a.len() - 1];
    let y = &b[b.len() - 1];
    let xa = x.address();
    let ya = y.address();
    let xk = x.public_key();
    let yk = y.public_key();
    bytes_eq(&xa, &ya) && bytes_eq(&xk, &yk)
}

impl Scylla {
    /// Which error, if any, `create_onions` reports for `paths` and
    /// `fragments`.
    pub open spec fn create_check(self, paths: Seq<Seq<Node>>, fragments: Seq<Seq<u8>>) -> Option<
        Error,
    > {
        if fragments.len() != paths.len() {
            Some(Error::InvalidPathCount)
        } else if fragments.len() == 0 {
            None
        } else if fragments[0].len() + 2 * KAPPA + FINAL_HOP_META_LENGTH != self.payload_len() {
            Some(Error::InvalidFragmentSize)
        } else if exists|j: int| 1 <= j < fragments.len() && #[trigger] fragments[j].len() != self.payload_len() {
            Some(Error::InvalidFragmentSize)
        } else if exists|j: int| 1 <= j < paths.len() && #[trigger] last_view(paths[j]) != last_view(paths[0]) {
            Some(Error::DivergingPaths)
        } else {
            None
        }
    }

    /// `onions` are the onions of the fragment set with seed `r` and set
    /// identifier `set_id`: onion `i` is wrapped along `paths[i]` with the
    /// fragment information for index `i` around the `i`-th transformed
    /// fragment.
    pub open spec fn fragment_onions(
        self,
        paths: Seq<Seq<Node>>,
        destination: Seq<u8>,
        fragments: Seq<Seq<u8>>,
        r: Seq<u8>,
        set_id: Seq<u8>,
        onions: Seq<Seq<u8>>,
    ) -> bool {
        &&& r.len() == KAPPA
        &&& set_id.len() == KAPPA
        &&& onions.len() == paths.len()
        &&& forall|i: int|
            0 <= i < onions.len() ==> #[trigger] self.wrapped(
                paths[i],
                fragment_info(i as nat, set_id),
                aont_spec(r, prepared_fragments(destination, fragments))[i],
                onions[i],
            )
    }

    /// `o` is an onion along `path` with last-hop information `final_info`
    /// and payload `payload`, built from some secret scalar (64 bytes reduced)
    /// and some header padding of the right length.
    pub open spec fn wrapped(
        self,
        path: Seq<Node>,
        final_info: Seq<u8>,
        payload: Seq<u8>,
        o: Seq<u8>,
    ) -> bool {
        exists|wide: Seq<u8>, padding: Seq<u8>|
            wide.len() == 64 && padding.len() == BYTES_PER_HOP * (self.max_path() - path.len())
                && layers_peel(pi_keys(shared_secrets(scalar_reduce_wide(wide), path_keys(path))), payload) && o
                == #[trigger] onion_spec(
                scalar_reduce_wide(wide),
                path_keys(path),
                path_addresses(path),
                self.header_len(),
                final_info,
                padding,
                payload,
            )
    }

    /// The length limits of the machine: an onion's size fits in `usize`.
    pub open spec fn fits_machine(self) -> bool {
        self.header_len() + BYTES_PER_HOP + ALPHA_LEN + 16 + self.payload_len() <= usize::MAX
    }

    /// The longest path an onion can take.
    pub closed spec fn max_path(self) -> nat {
        self.max_path_length as nat
    }

    /// The size of the payload of every onion.
    pub closed spec fn payload_len(self) -> nat {
        self.payload_size as nat
    }

    /// The length of an onion header.
    pub open spec fn header_len(self) -> nat {
        (BYTES_PER_HOP * (self.max_path() - 1) + (1 + REPLY_META_LENGTH)) as nat
    }

    /// Parameters for which the header length is defined: a path of at least
    /// one hop and a header length that fits in 32 bits.
    pub open spec fn params_ok(self) -> bool {
        &&& self.max_path() >= 1
        &&& BYTES_PER_HOP * (self.max_path() - 1) + (1 + REPLY_META_LENGTH) <= u32::MAX
    }

    /// The format with the given longest path and payload size.
    pub fn new(max_path_length: u32, payload_size: u32) -> (res: Self)
        ensures
            res.max_path() == max_path_length,
            res.payload_len() == payload_size,
    {
        Scylla { max_path_length, payload_size }
    }

    /// The length of an onion header: room for the routing information of
    /// every hop but the last, and for the last hop's.
    pub fn header_length(&self) -> (res: u32)
        requires
            self.params_ok(),
        ensures
            res == self.header_len(),
    {
        BYTES_PER_HOP as u32 * (self.max_path_length - 1) + (1 + REPLY_META_LENGTH as u32)
    }

    /// Processes `onion` at the node with private key `private_key`: checks
    /// the header MAC, removes one layer of encryption from header and
    /// payload, and reads the routing information meant for this node. The
    /// decrypted payload is the only one that encrypts back to the received
    /// payload.
    pub fn process(&self, private_key: &[u8; 32], onion: &[u8]) -> (res: Result<ProcessedOnion>)
        requires
            self.params_ok(),
            onion_fits(self.header_len(), onion@),
            edwards_decompresses(onion_alpha(onion@)),
        ensures
            processed_view(res) == process_spec(self.header_len(), private_key@, onion@),
            res matches Ok(ProcessedOnion::Relay { onion: next, .. }) ==> next@.len() == onion@.len()
                && alpha_canonical(next@),
            res matches Ok(ProcessedOnion::Fragment { data, .. }) ==> data@.len() == onion_delta(
                self.header_len(),
                onion@,
            ).len(),
            res matches Ok(ProcessedOnion::Reply { data, .. }) ==> data@.len() == onion_delta(
                self.header_len(),
                onion@,
            ).len(),
            res is Ok ==> forall|y: Seq<u8>|
                y.len() == onion_delta(self.header_len(), onion@).len() && #[trigger] pi_spec(
                    h_pi_spec(node_secret(private_key@, onion@)),
                    y,
                ) == onion_delta(self.header_len(), onion@) ==> y == pi_inv_spec(
                    h_pi_spec(node_secret(private_key@, onion@)),
                    onion_delta(self.header_len(), onion@),
                ),
    {
        let header_length = self.header_length() as usize;
        let ghost h = self.header_len();
        let alpha_bytes: [u8; 32] = to_array(&onion[0..ALPHA_LEN]);
        let alpha = match point_recompress(&alpha_bytes) {
            Some(v) => v,
            None => { unreached() },
        };
        assert(alpha@ =~= fixed(edwards_recompress(onion_alpha(onion@)), 32));
        let shared_secret = match point_mul(&alpha, private_key) {
            Some(v) => v,
            None => { unreached() },
        };
        assert(shared_secret@ =~= fixed(edwards_mul(alpha@, private_key@), 32));
        let onion_len = onion.len();
        assert(ALPHA_LEN + header_length + 16 <= onion_len);
        let beta = &onion[ALPHA_LEN..ALPHA_LEN + header_length];
        let expected_gamma = &onion[ALPHA_LEN + header_length..ALPHA_LEN + header_length + 16];
        let mac_key = h_mu(&shared_secret);
        let my_gamma = mu(mac_key.as_slice(), beta);
        if !bytes_eq(expected_gamma, my_gamma.as_slice()) {
            return Err(Error::MacMismatch);
        }
        let stream_key = h_rho(&shared_secret);
        let stream = rho(stream_key.as_slice(), header_length + BYTES_PER_HOP);
        assert(stream@ =~= stream_of(shared_secret@, h));
        let mut padded = concat(beta, &[]);
        append_zeros(&mut padded, BYTES_PER_HOP);
        let routing = xor(padded.as_slice(), stream.as_slice());
        assert(routing@.len() == h + 60);
        let payload_key = h_pi(&shared_secret);
        let delta = pi_inv(&payload_key, &onion[ALPHA_LEN + header_length + 16..onion.len()]);
        assert(onion@.subrange((ALPHA_LEN + h + 16) as int, onion@.len() as int) =~= onion_delta(
            h,
            onion@,
        ));
        let flag = routing[0];
        if flag == 0xf1u8 {
            let meta: PerHopMeta = to_array(&routing.as_slice()[1..1 + PER_HOP_META_LENGTH]);
            let blinding = h_b(&alpha, &shared_secret);
            let blinded_alpha = match point_mul(&alpha, &blinding) {
                Some(v) => v,
                None => { unreached() },
            };
            assert(blinded_alpha@ =~= fixed(edwards_mul(alpha@, blinding@), 32));
            let mut output: Vec<u8> = Vec::new();
            append_bytes(&mut output, &blinded_alpha);
            append_bytes(&mut output, &routing.as_slice()[BYTES_PER_HOP..routing.len()]);
            append_bytes(&mut output, &routing.as_slice()[1 + PER_HOP_META_LENGTH..BYTES_PER_HOP]);
            append_bytes(&mut output, delta.as_slice());
            assert(routing@.subrange(60, routing@.len() as int) =~= routing@.skip(60));
            assert(onion_alpha(output@) =~= blinded_alpha@);
            assert(fixed(edwards_recompress(blinded_alpha@), 32) =~= blinded_alpha@);
            Ok(ProcessedOnion::Relay { meta, onion: output })
        } else if flag == 0xf2u8 {
            let index = u128_from_be(&routing.as_slice()[1..1 + 16]);
            let set_id = u128_from_be(&routing.as_slice()[1 + 16..1 + 2 * 16]);
            Ok(ProcessedOnion::Fragment { set_id, index, data: delta })
        } else if flag == 0xf0u8 {
            let meta: ReplyMeta = to_array(&routing.as_slice()[1..1 + REPLY_META_LENGTH]);
            Ok(ProcessedOnion::Reply { meta, data: delta })
        } else {
            Err(Error::InvalidHeaderFlag)
        }
    }

    /// Reassembles a message from its fragments, in index order: undoes the
    /// all-or-nothing transform and checks that the message starts with 16
    /// zero bytes, which only a complete set gives; then splits off the
    /// destination.
    pub fn defrag(&self, fragments: &[Vec<u8>]) -> (res: Result<(FinalHopMeta, Vec<u8>)>)
        requires
            fragments@.len() >= 1,
            fragments@[0]@.len() >= KAPPA,
            total_len(byte_views(fragments@)) <= usize::MAX,
            !defrag_overruns(byte_views(fragments@)),
        ensures
            defrag_view(res) == defrag_spec(byte_views(fragments@)),
    {
        let ghost fs = byte_views(fragments@);
        let inverted = match aont_inv(fragments) {
            Ok(v) => v,
            Err(_) => { unreached() },
        };
        let data = concat_fragments(inverted.as_slice());
        proof {
            lemma_aont_inv_len(fs);
        }
        if data.len() < KAPPA || !is_zero(&data.as_slice()[0..KAPPA]) {
            return Err(Error::MissingFragments);
        }
        assert(data@.subrange(0, KAPPA as int) =~= data@.take(KAPPA as int));
        let address: FinalHopMeta = to_array(&data.as_slice()[KAPPA..KAPPA + FINAL_HOP_META_LENGTH]);
        let rest = copy_bytes(&data.as_slice()[KAPPA + FINAL_HOP_META_LENGTH..data.len()]);
        assert(data@.subrange((KAPPA + FINAL_HOP_META_LENGTH) as int, data@.len() as int) =~= data@.skip(
            (KAPPA + FINAL_HOP_META_LENGTH) as int,
        ));
        Ok((address, rest))
    }

    /// Like `defrag`, for any fragment set the transform can be undone on:
    /// `None` for the sets whose message bytes start with 16 zero bytes but
    /// are too short to hold a destination, which `defrag` does not accept.
    pub fn try_defrag(&self, fragments: &[Vec<u8>]) -> (res: Option<Result<(FinalHopMeta, Vec<u8>)>>)
        requires
            fragments@.len() >= 1,
            fragments@[0]@.len() >= KAPPA,
            total_len(byte_views(fragments@)) <= usize::MAX,
        ensures
            res is None <==> defrag_overruns(byte_views(fragments@)),
            res matches Some(r) ==> defrag_view(r) == defrag_spec(byte_views(fragments@)),
    {
        let inverted = match aont_inv(fragments) {
            Ok(v) => v,
            Err(_) => { unreached() },
        };
        let data = concat_fragments(inverted.as_slice());
        if data.len() >= KAPPA && data.len() < KAPPA + FINAL_HOP_META_LENGTH && is_zero(
            &data.as_slice()[0..KAPPA],
        ) {
            assert(data@.subrange(0, KAPPA as int) =~= data@.take(KAPPA as int));
            return None;
        }
        proof {
            if data@.len() >= KAPPA {
                assert(data@.subrange(0, KAPPA as int) =~= data@.take(KAPPA as int));
            }
        }
        Some(self.defrag(fragments))
    }

    /// Builds one onion per fragment, fragment `i` along `paths[i]`, for a
    /// message to `destination`. The first fragment is `payload_size - 64`
    /// bytes long, the others `payload_size`; all paths end at the same
    /// node. The fragments, the first with 16 zero bytes and the destination
    /// in front, go through the all-or-nothing transform with a fresh seed;
    /// each result is wrapped along its path with the fragment flag, its
    /// index and a fresh set identifier as last-hop information.
    pub fn create_onions(&self, paths: &[Vec<Node>], destination: &FinalHopMeta, fragments: Vec<Vec<u8>>) -> (res:
        Result<Vec<Vec<u8>>>)
        requires
            self.create_check(path_views(paths@), byte_views(fragments@)) is None ==> {
                &&& self.params_ok()
                &&& self.fits_machine()
                &&& total_len(byte_views(fragments@)) + KAPPA + FINAL_HOP_META_LENGTH <= usize::MAX
                &&& forall|i: int| 0 <= i < paths@.len() ==> 1 <= #[trigger] paths@[i]@.len() <= self.max_path()
            },
        ensures
            match res {
                Err(e) => self.create_check(path_views(paths@), byte_views(fragments@)) == Some(e),
                Ok(onions) => {
                    &&& self.create_check(path_views(paths@), byte_views(fragments@)) is None
                    &&& onions@.len() == paths@.len()
                    &&& forall|i: int|
                        0 <= i < onions@.len() ==> (#[trigger] onions@[i])@.len() == ALPHA_LEN + self.header_len()
                            + 16 + self.payload_len() && alpha_canonical(onions@[i]@)
                    &&& exists|r: Seq<u8>, set_id: Seq<u8>|
                        #[trigger] self.fragment_onions(
                            path_views(paths@),
                            destination@,
                            byte_views(fragments@),
                            r,
                            set_id,
                            byte_views(onions@),
                        )
                },
            },
    {
        let ghost fs = byte_views(fragments@);
        let ghost pv = path_views(paths@);
        let n = fragments.len();
        if n != paths.len() {
            return Err(Error::InvalidPathCount);
        }
        assert(fs.len() == n && pv.len() == n);
        if n == 0 {
            let none: Vec<Vec<u8>> = Vec::new();
            assert(self.create_check(pv, fs) is None);
            proof {
                let z = zeros(KAPPA as nat);
                assert(self.fragment_onions(pv, destination@, fs, z, z, byte_views(none@)));
            }
            return Ok(none);
        }
        let payload_size = self.payload_size as usize;
        let first_len = fragments[0].len();
        if first_len > payload_size || payload_size - first_len != 2 * KAPPA + FINAL_HOP_META_LENGTH {
            return Err(Error::InvalidFragmentSize);
        }
        let mut j: usize = 1;
        while j < n
            invariant
                1 <= j <= n,
                n == fragments@.len(),
                fs == byte_views(fragments@),
                pv == path_views(paths@),
                fs.len() == n,
                pv.len() == n,
                payload_size == self.payload_len(),
                fs[0].len() + 2 * KAPPA + FINAL_HOP_META_LENGTH == self.payload_len(),
                forall|m: int| 1 <= m < j ==> #[trigger] fs[m].len() == self.payload_len(),
            decreases n - j,
        {
            if fragments[j].len() != payload_size {
                assert(fs[j as int].len() != self.payload_len());
                assert(self.create_check(pv, fs) == Some(Error::InvalidFragmentSize));
                return Err(Error::InvalidFragmentSize);
            }
            j = j + 1;
        }
        let mut j: usize = 1;
        while j < n
            invariant
                1 <= j <= n,
                n == paths@.len(),
                pv == path_views(paths@),
                fs == byte_views(fragments@),
                fs.len() == n,
                pv.len() == n,
                fs[0].len() + 2 * KAPPA + FINAL_HOP_META_LENGTH == self.payload_len(),
                forall|m: int| 1 <= m < n ==> #[trigger] fs[m].len() == self.payload_len(),
                forall|m: int| 1 <= m < j ==> #[trigger] last_view(pv[m]) == last_view(pv[0]),
            decreases n - j,
        {
            if !same_last(paths[j].as_slice(), paths[0].as_slice()) {
                assert(last_view(pv[j as int]) != last_view(pv[0]));
                assert(self.create_check(pv, fs) == Some(Error::DivergingPaths));
                return Err(Error::DivergingPaths);
            }
            j = j + 1;
        }
        assert(self.create_check(pv, fs) is None);
        let mut first: Vec<u8> = Vec::new();
        append_zeros(&mut first, KAPPA);
        append_bytes(&mut first, destination);
        append_bytes(&mut first, fragments[0].as_slice());
        let ghost prepared = prepared_fragments(destination@, fs);
        let mut prepared_vec: Vec<Vec<u8>> = Vec::new();
        prepared_vec.push(first);
        let mut j: usize = 1;
        while j < n
            invariant
                1 <= j <= n,
                n == fragments@.len(),
                fs == byte_views(fragments@),
                prepared == prepared_fragments(destination@, fs),
                byte_views(prepared_vec@) == prepared.take(j as int),
                self.create_check(pv, fs) is None,
            decreases n - j,
        {
            let c = copy_bytes(fragments[j].as_slice());
            proof {
                crate::aont::lemma_byte_views_push(prepared_vec@, c, prepared, j as int);
            }
            prepared_vec.push(c);
            j = j + 1;
        }
        proof {
            assert(byte_views(prepared_vec@) =~= prepared);
            crate::aont::lemma_total_len_update(fs, 0, prepared[0]);
        }
        let transformed = aont(thread_rng(), prepared_vec.as_slice());
        let ghost r = choose|r: Seq<u8>|
            r.len() == KAPPA && byte_views(transformed@) == #[trigger] aont_spec(r, prepared);
        proof {
            lemma_aont_lens(r, prepared);
        }
        let ghost payloads = aont_spec(r, prepared);
        let mut rng = thread_rng();
        let frag_set_id = random_bytes(&mut rng, KAPPA);
        let mut onions: Vec<Vec<u8>> = Vec::new();
        let mut i: usize = 0;
        while i < n
            invariant
                i <= n,
                n == paths@.len(),
                n == transformed@.len(),
                payloads == aont_spec(r, prepared),
                byte_views(transformed@) == payloads,
                payloads.len() == n,
                forall|m: int| 0 <= m < n ==> #[trigger] payloads[m].len() == self.payload_len(),
                self.params_ok(),
                self.fits_machine(),
                self.payload_len() >= 64,
                forall|m: int| 0 <= m < n ==> 1 <= #[trigger] paths@[m]@.len() <= self.max_path(),
                frag_set_id@.len() == KAPPA,
                self.create_check(pv, fs) is None,
                pv == path_views(paths@),
                fs == byte_views(fragments@),
                prepared == prepared_fragments(destination@, fs),
                onions@.len() == i,
                forall|m: int|
                    0 <= m < i ==> (#[trigger] onions@[m])@.len() == ALPHA_LEN + self.header_len() + 16
                        + self.payload_len() && alpha_canonical(onions@[m]@),
                forall|m: int|
                    0 <= m < i ==> #[trigger] self.wrapped(
                        paths@[m]@,
                        fragment_info(m as nat, frag_set_id@),
                        payloads[m],
                        onions@[m]@,
                    ),
            decreases n - i,
        {
            let mut final_info: Vec<u8> = Vec::new();
            final_info.push(0xf2u8);
            let index = u128_to_be(i as u128);
            proof {
                lemma_be_bytes_len(i as nat, 16);
            }
            append_bytes(&mut final_info, index.as_slice());
            append_bytes(&mut final_info, frag_set_id.as_slice());
            append_zeros(&mut final_info, 1 + REPLY_META_LENGTH - 1 - 2 * KAPPA);
            assert(final_info@ =~= fragment_info(i as nat, frag_set_id@));
            assert(transformed@[i as int]@ == payloads[i as int]);
            let (_, onion) = self.wrap(paths[i].as_slice(), final_info.as_slice(), transformed[i].as_slice());
            onions.push(onion);
            i = i + 1;
        }
        assert(self.fragment_onions(pv, destination@, fs, r, frag_set_id@, byte_views(onions@)));
        let res: Result<Vec<Vec<u8>>> = Ok(onions);
        assert(match res {
            Err(e) => false,
            Ok(o) => {
                &&& self.create_check(path_views(paths@), byte_views(fragments@)) is None
                &&& o@.len() == paths@.len()
                &&& forall|i: int|
                    0 <= i < o@.len() ==> (#[trigger] o@[i])@.len() == ALPHA_LEN + self.header_len() + 16
                        + self.payload_len() && alpha_canonical(o@[i]@)
                &&& exists|r: Seq<u8>, set_id: Seq<u8>|
                    #[trigger] self.fragment_onions(
                        path_views(paths@),
                        destination@,
                        byte_views(fragments@),
                        r,
                        set_id,
                        byte_views(o@),
                    )
            },
        });
        res
    }

    /// Like `process`, for any onion long enough to process: `None` when its
    /// group element is not a curve point, which `process` does not accept.
    pub fn try_process(&self, private_key: &[u8; 32], onion: &[u8]) -> (res: Option<
        Result<ProcessedOnion>,
    >)
        requires
            self.params_ok(),
            onion_fits(self.header_len(), onion@),
        ensures
            res is None <==> !edwards_decompresses(onion_alpha(onion@)),
            res matches Some(r) ==> processed_view(r) == process_spec(
                self.header_len(),
                private_key@,
                onion@,
            ),
    {
        let alpha_bytes: [u8; 32] = to_array(&onion[0..ALPHA_LEN]);
        match point_recompress(&alpha_bytes) {
            None => None,
            Some(_) => Some(self.process(private_key, onion)),
        }
    }

    /// Builds the onion for `path` with a fresh secret scalar and header
    /// padding, and returns it with the secrets shared with the nodes.
    fn wrap(&self, path: &[Node], final_info: &[u8], payload: &[u8]) -> (res: (
        Vec<[u8; 32]>,
        Vec<u8>,
    ))
        requires
            self.params_ok(),
            1 <= path@.len() <= self.max_path(),
            final_info@.len() == 1 + REPLY_META_LENGTH,
            pi_accepts(payload@.len()),
            self.header_len() + BYTES_PER_HOP + ALPHA_LEN + 16 + payload@.len() <= usize::MAX,
        ensures
            res.1@.len() == ALPHA_LEN + self.header_len() + 16 + payload@.len(),
            alpha_canonical(res.1@),
            exists|wide: Seq<u8>, padding: Seq<u8>|
                wide.len() == 64 && padding.len() == BYTES_PER_HOP * (self.max_path() - path@.len())
                    && array_views(res.0@) == shared_secrets(
                    scalar_reduce_wide(wide),
                    path_keys(path@),
                ) && layers_peel(pi_keys(shared_secrets(scalar_reduce_wide(wide), path_keys(path@))), payload@)
                    && res.1@ == #[trigger] onion_spec(
                    scalar_reduce_wide(wide),
                    path_keys(path@),
                    path_addresses(path@),
                    self.header_len(),
                    final_info@,
                    padding,
                    payload@,
                ),
    {
        let mut rng = thread_rng();
        let wide = random_bytes(&mut rng, 64);
        let secret = scalar_from_wide(wide.as_slice());
        let padding_len = (self.max_path_length as usize - path.len()) * BYTES_PER_HOP;
        let padding = random_bytes(&mut rng, padding_len);
        self.wrap_with(path, final_info, payload, &secret, padding.as_slice())
    }

    /// A single-use reply block along `path` whose last hop delivers to the
    /// user that `meta` names, with the payload keys of its hops. The block
    /// is an onion with an empty payload; the keys are the payload cipher
    /// keys of the secrets it shares with the hops.
    pub fn create_surb(&self, path: &[Node], meta: &ReplyMeta) -> (res: (Vec<[u8; PI_KEY_SIZE]>, Vec<u8>))
        requires
            self.params_ok(),
            1 <= path@.len() <= self.max_path(),
            self.header_len() + BYTES_PER_HOP + ALPHA_LEN + 16 <= usize::MAX,
        ensures
            res.1@.len() == ALPHA_LEN + self.header_len() + 16,
            alpha_canonical(res.1@),
            exists|wide: Seq<u8>, padding: Seq<u8>|
                wide.len() == 64 && padding.len() == BYTES_PER_HOP * (self.max_path() - path@.len())
                    && key_views(res.0@) == pi_keys(
                    shared_secrets(scalar_reduce_wide(wide), path_keys(path@)),
                ) && res.1@ == #[trigger] onion_spec(
                    scalar_reduce_wide(wide),
                    path_keys(path@),
                    path_addresses(path@),
                    self.header_len(),
                    reply_info(meta@),
                    padding,
                    Seq::empty(),
                ),
    {
        let mut final_info: Vec<u8> = Vec::new();
        final_info.push(0xf0u8);
        append_bytes(&mut final_info, meta);
        assert(final_info@ =~= reply_info(meta@));
        let empty: Vec<u8> = Vec::new();
        let (secrets, surb) = self.wrap(path, final_info.as_slice(), empty.as_slice());
        let ghost ss = array_views(secrets@);
        let mut keys: Vec<[u8; PI_KEY_SIZE]> = Vec::new();
        let mut i: usize = 0;
        while i < secrets.len()
            invariant
                i <= secrets@.len(),
                ss == array_views(secrets@),
                key_views(keys@) == pi_keys(ss).take(i as int),
            decreases secrets@.len() - i,
        {
            let k = h_pi(&secrets[i]);
            proof {
                assert(key_views(keys@).len() == keys@.len());
                assert(keys@.len() == i);
                assert(key_views(keys@.push(k)) =~= pi_keys(ss).take(i + 1)) by {
                    assert forall|j: int| 0 <= j <= i implies #[trigger] key_views(keys@.push(k))[j]
                        == pi_keys(ss).take(i + 1)[j] by {
                        if j < i {
                            assert(key_views(keys@)[j] == pi_keys(ss).take(i as int)[j]);
                        }
                    }
                }
            }
            keys.push(k);
            i = i + 1;
        }
        assert(pi_keys(ss).take(i as int) =~= pi_keys(ss));
        assert(empty@ =~= Seq::<u8>::empty());
        (keys, surb)
    }

    /// Removes the payload layers a reply picked up along the path of its
    /// reply block: encrypts `data` under the block's keys, last key first.
    /// Whatever payload entered the path and was decrypted by each hop with
    /// its key comes back out.
    pub fn unwrap_reply(&self, secrets: &[[u8; PI_KEY_SIZE]], data: &[u8]) -> (res: Vec<u8>)
        requires
            secrets@.len() > 0 ==> pi_accepts(data@.len()),
        ensures
            res@ == layered_spec(key_views(secrets@), data@, 0),
            res@.len() == data@.len(),
            forall|ys: Seq<Seq<u8>>|
                peel_trace(key_views(secrets@), ys) && #[trigger] ys[ys.len() - 1] == data@ ==> res@
                    == ys[0],
    {
        let ghost keys = key_views(secrets@);
        let mut out: Vec<u8> = concat(data, &[]);
        let mut j: usize = secrets.len();
        while j > 0
            invariant
                j <= secrets@.len(),
                keys == key_views(secrets@),
                out@ == layered_spec(keys, data@, j as int),
                out@.len() == data@.len(),
                j > 0 ==> pi_accepts(data@.len()),
                forall|ys: Seq<Seq<u8>>|
                    peel_trace(keys, ys) && #[trigger] ys[ys.len() - 1] == data@ ==> out@ == ys[j as int],
            decreases j,
        {
            j = j - 1;
            let ghost prev = out@;
            out = pi(&secrets[j], out.as_slice());
            assert forall|ys: Seq<Seq<u8>>|
                peel_trace(keys, ys) && #[trigger] ys[ys.len() - 1] == data@ implies out@ == ys[j as int] by {
                assert(prev == ys[j + 1]);
                assert(ys[j + 1] == pi_inv_spec(keys[j as int], ys[j as int]));
                assert(ys[j as int].len() == ys[j + 1].len());
                assert(pi_inv_spec(secrets@[j as int]@, ys[j as int]) == prev);
            }
        }
        out
    }

    /// Builds the onion for `path` from the secret scalar `secret` and the
    /// header padding, and returns it with the secrets shared with the
    /// nodes of the path.
    fn wrap_with(
        &self,
        path: &[Node],
        final_info: &[u8],
        payload: &[u8],
        secret: &[u8; 32],
        padding: &[u8],
    ) -> (res: (Vec<[u8; 32]>, Vec<u8>))
        requires
            self.params_ok(),
            1 <= path@.len() <= self.max_path(),
            final_info@.len() == 1 + REPLY_META_LENGTH,
            padding@.len() == BYTES_PER_HOP * (self.max_path() - path@.len()),
            pi_accepts(payload@.len()),
            self.header_len() + BYTES_PER_HOP + ALPHA_LEN + 16 + payload@.len() <= usize::MAX,
        ensures
            array_views(res.0@) == shared_secrets(secret@, path_keys(path@)),
            res.1@.len() == ALPHA_LEN + self.header_len() + 16 + payload@.len(),
            alpha_canonical(res.1@),
            layers_peel(pi_keys(shared_secrets(secret@, path_keys(path@))), payload@),
            res.1@ == onion_spec(
                secret@,
                path_keys(path@),
                path_addresses(path@),
                self.header_len(),
                final_info@,
                padding@,
                payload@,
            ),
    {
        let n = path.len();
        let ghost keys = path_keys(path@);
        let ghost x = secret@;
        let mut shared: Vec<[u8; 32]> = Vec::new();
        let mut factor: [u8; 32] = *secret;
        let mut alpha: [u8; 32] = base_mul(&factor);
        let alpha_zero = alpha;
        assert(alpha@ =~= fixed(edwards_base_mul(x), 32));
        let mut i: usize = 0;
        while i < n
            invariant
                n == path@.len(),
                keys == path_keys(path@),
                x == secret@,
                i <= n,
                factor@ == blind_chain(x, keys, i as nat).0,
                alpha@ == blind_chain(x, keys, i as nat).1,
                edwards_decompresses(alpha@),
                array_views(shared@) == shared_secrets(x, keys).take(i as int),
                alpha_zero@ == blind_chain(x, keys, 0).1,
            decreases n - i,
        {
            let key = path[i].public_key();
            let s = match point_mul(&key, &factor) {
                Some(v) => v,
                None => { unreached() },
            };
            assert(s@ =~= fixed(edwards_mul(keys[i as int], factor@), 32));
            proof {
                lemma_array_views_push(shared@, s, shared_secrets(x, keys), i as int);
            }
            shared.push(s);
            let blinding = h_b(&alpha, &s);
            let ghost old_alpha = alpha@;
            alpha = match point_mul(&alpha, &blinding) {
                Some(v) => v,
                None => { unreached() },
            };
            assert(alpha@ =~= fixed(edwards_mul(old_alpha, blinding@), 32));
            factor = scalar_mul(&factor, &blinding);
            i = i + 1;
        }
        let ghost ss = shared_secrets(x, keys);
        assert(array_views(shared@) =~= ss);
        assert(shared@.len() == n) by {
            assert(array_views(shared@).len() == shared@.len());
        }
        let header_length = self.header_length() as usize;
        let ghost h = self.header_len();
        let mut streams: Vec<Vec<u8>> = Vec::new();
        let mut k: usize = 0;
        while k < n
            invariant
                n == path@.len(),
                k <= n,
                array_views(shared@) == ss,
                shared@.len() == n,
                ss.len() == n,
                h == header_length,
                header_length + 60 <= usize::MAX,
                streams@.len() == k,
                forall|j: int| 0 <= j < k ==> #[trigger] streams@[j]@ == stream_of(ss[j], h),
            decreases n - k,
        {
            let key = h_rho(&shared[k]);
            let st = rho(key.as_slice(), header_length + BYTES_PER_HOP);
            assert(st@ =~= stream_of(ss[k as int], h));
            streams.push(st);
            k = k + 1;
        }
        let mut filler: Vec<u8> = Vec::new();
        let mut k: usize = 0;
        while k + 1 < n
            invariant
                n == path@.len(),
                n <= self.max_path(),
                self.params_ok(),
                h == self.header_len(),
                h == header_length,
                k + 1 <= n,
                streams@.len() == n,
                forall|j: int| 0 <= j < n ==> #[trigger] streams@[j]@ == stream_of(ss[j], h),
                filler@ == filler_spec(ss, h, k as nat),
                filler@.len() == BYTES_PER_HOP * k,
            decreases n - k,
        {
            let mut extended = concat(filler.as_slice(), &[]);
            append_zeros(&mut extended, BYTES_PER_HOP);
            let st = &streams[k];
            assert(BYTES_PER_HOP * k <= header_length) by (nonlinear_arith)
                requires
                    k + 1 < n,
                    n <= self.max_path(),
                    header_length == BYTES_PER_HOP * (self.max_path() - 1) + 52,
            ;
            let start = header_length - k * BYTES_PER_HOP;
            filler = xor(extended.as_slice(), &st.as_slice()[start..st.len()]);
            assert(st@.subrange(start as int, st@.len() as int) =~= stream_of(ss[k as int], h).skip(
                h - 60 * k,
            ));
            k = k + 1;
        }
        assert(n - 1 == k);
        let last = &streams[n - 1];
        let mut beta = xor(final_info, last.as_slice());
        append_bytes(&mut beta, padding);
        append_bytes(&mut beta, filler.as_slice());
        assert(beta@ == beta_spec(ss, path_addresses(path@), h, final_info@, padding@, (n - 1) as int));
        assert(beta@.len() == h) by (nonlinear_arith)
            requires
                beta@.len() == 52 + BYTES_PER_HOP * (self.max_path() - n) + BYTES_PER_HOP * (n - 1),
                h == BYTES_PER_HOP * (self.max_path() - 1) + 52,
                1 <= n <= self.max_path(),
        ;
        let ghost addrs = path_addresses(path@);
        let mut j: usize = n - 1;
        while j > 0
            invariant
                n == path@.len(),
                j < n,
                addrs == path_addresses(path@),
                array_views(shared@) == ss,
                shared@.len() == n,
                ss.len() == n,
                h == header_length,
                streams@.len() == n,
                forall|m: int| 0 <= m < n ==> #[trigger] streams@[m]@ == stream_of(ss[m], h),
                beta@ == beta_spec(ss, addrs, h, final_info@, padding@, j as int),
                beta@.len() == h,
            decreases j,
        {
            j = j - 1;
            let next_hop = path[j + 1].address();
            let mac_key = h_mu(&shared[j + 1]);
            let mac = mu(mac_key.as_slice(), beta.as_slice());
            let mut info: Vec<u8> = Vec::new();
            info.push(0xf1u8);
            append_bytes(&mut info, &next_hop);
            append_zeros(&mut info, PER_HOP_META_LENGTH - ADDRESS_LENGTH);
            append_bytes(&mut info, mac.as_slice());
            assert(info@ =~= relay_info(addrs[j + 1], mu_spec(h_mu_spec(ss[j + 1]), beta@)));
            let st = &streams[j];
            let with_info = concat(info.as_slice(), beta.as_slice());
            beta = xor(with_info.as_slice(), &st.as_slice()[0..header_length]);
            assert(st@.subrange(0, header_length as int) =~= stream_of(ss[j as int], h).take(h as int));
        }
        let mac_key = h_mu(&shared[0]);
        let gamma = mu(mac_key.as_slice(), beta.as_slice());
        let mut body: Vec<u8> = concat(payload, &[]);
        let mut j: usize = n;
        while j > 0
            invariant
                j <= n,
                n == ss.len(),
                array_views(shared@) == ss,
                shared@.len() == n,
                body@ == layered_spec(pi_keys(ss), payload@, j as int),
                body@.len() == payload@.len(),
                pi_accepts(payload@.len()),
                forall|m: int|
                    j <= m < n ==> #[trigger] pi_inv_spec(pi_keys(ss)[m], layered_spec(pi_keys(ss), payload@, m))
                        == layered_spec(pi_keys(ss), payload@, m + 1) && layered_spec(pi_keys(ss), payload@, m).len()
                        == payload@.len(),
            decreases j,
        {
            j = j - 1;
            let key = h_pi(&shared[j]);
            assert(shared@[j as int]@ == ss[j as int]) by {
                assert(array_views(shared@)[j as int] == shared@[j as int]@);
            }
            assert(key@ == pi_keys(ss)[j as int]);
            body = pi(&key, body.as_slice());
        }
        assert(layers_peel(pi_keys(ss), payload@));
        let mut output: Vec<u8> = Vec::new();
        append_bytes(&mut output, &alpha_zero);
        append_bytes(&mut output, beta.as_slice());
        append_bytes(&mut output, gamma.as_slice());
        append_bytes(&mut output, body.as_slice());
        assert(onion_alpha(output@) =~= alpha_zero@);
        assert(fixed(edwards_recompress(alpha_zero@), 32) =~= alpha_zero@);
        (shared, output)
    }
}

} // verus!
