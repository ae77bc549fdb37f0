//! The data of the latency simulation: messages, acknowledgements and
//! layered packets travelling through mix nodes, and the event queues of
//! nodes and users.
use vstd::prelude::*;
use std::collections::{HashMap, HashSet};

verus! {

broadcast use vstd::std_specs::hash::group_hash_axioms;

/// Identifier of a mix node: its index among the nodes.
pub type NodeId = u64;

/// Identifier of a user: its index among the users.
pub type UserId = u64;

/// A point in simulated time.
pub type Timestamp = u64;

/// A fragment of a message, with the acknowledgement packet its recipient
/// sends back.
#[derive(Debug)]
pub struct Message {
    pub id: u64,
    pub sending_time: Timestamp,
    pub recipient: UserId,
    pub sender: UserId,
    pub fragment_set: u64,
    pub fragment_size: u32,
    pub fragment_index: u32,
    pub ack: Box<Packet>,
}

/// An acknowledgement of a message (or of a whole fragment set).
#[derive(Debug, Clone)]
pub struct Ack {
    pub message_id: u64,
    pub recipient: UserId,
}

/// Messages waiting for an acknowledgement until a deadline.
#[derive(Debug)]
pub struct PendingAck {
    pub deadline: Timestamp,
    pub id: u64,
    pub messages: Vec<Message>,
}

/// A packet on its way to `destination`, where it waits `delay` before its
/// content moves on.
#[derive(Debug)]
pub struct Packet {
    pub destination: NodeId,
    pub delay: Timestamp,
    pub content: Content,
}

/// What a packet carries: a message for a user, an acknowledgement for a
/// user, or the packet for the next hop.
#[derive(Debug)]
pub enum Content {
    Message(Box<Message>),
    Ack(Box<Ack>),
    Packet(Box<Packet>),
}

/// The delay a packet accumulates over all its layers.
pub open spec fn total_delay_spec(p: Packet) -> int
    decreases p,
{
    p.delay + match p.content {
        Content::Packet(q) => total_delay_spec(*q),
        _ => 0,
    }
}

/// The number of layers of a packet.
pub open spec fn depth(p: Packet) -> nat
    decreases p,
{
    match p.content {
        Content::Packet(q) => 1 + depth(*q),
        _ => 1,
    }
}

/// Whether the innermost content of a packet is a message.
pub open spec fn has_message(p: Packet) -> bool
    decreases p,
{
    match p.content {
        Content::Packet(q) => has_message(*q),
        Content::Message(_) => true,
        Content::Ack(_) => false,
    }
}

/// The message inside a packet.
pub open spec fn message_of(p: Packet) -> Message
    recommends
        has_message(p),
    decreases p,
{
    match p.content {
        Content::Packet(q) => message_of(*q),
        Content::Message(m) => *m,
        Content::Ack(_) => arbitrary(),
    }
}

/// The packet with its innermost message replaced by `m`.
pub open spec fn with_message(p: Packet, m: Message) -> Packet
    decreases p,
{
    match p.content {
        Content::Packet(q) => Packet { content: Content::Packet(Box::new(with_message(*q, m))), ..p },
        Content::Message(_) => Packet { content: Content::Message(Box::new(m)), ..p },
        Content::Ack(_) => p,
    }
}

/// A copy of a packet.
pub fn copy_packet(p: &Packet) -> (res: Packet)
    ensures
        res == *p,
    decreases p,
{
    let content = match &p.content {
        Content::Message(m) => Content::Message(Box::new(copy_message(m))),
        Content::Ack(a) => Content::Ack(Box::new(Ack { message_id: a.message_id, recipient: a.recipient })),
        Content::Packet(q) => Content::Packet(Box::new(copy_packet(q))),
    };
    Packet { destination: p.destination, delay: p.delay, content }
}

/// A copy of a message.
pub fn copy_message(m: &Message) -> (res: Message)
    ensures
        res == *m,
    decreases m,
{
    Message {
        id: m.id,
        sending_time: m.sending_time,
        recipient: m.recipient,
        sender: m.sender,
        fragment_set: m.fragment_set,
        fragment_size: m.fragment_size,
        fragment_index: m.fragment_index,
        ack: Box::new(copy_packet(&m.ack)),
    }
}

impl Packet {
    /// The delay of the packet summed over all its layers.
    pub fn total_delay(&self) -> (res: Timestamp)
        requires
            total_delay_spec(*self) <= u64::MAX,
        ensures
            res == total_delay_spec(*self),
        decreases self,
    {
        self.delay + match &self.content {
            Content::Packet(p) => p.total_delay(),
            _ => 0,
        }
    }

    /// The message at the core of the packet.
    pub fn message(&self) -> (res: &Message)
        requires
            has_message(*self),
        ensures
            *res == message_of(*self),
        decreases self,
    {
        match &self.content {
            Content::Packet(p) => p.message(),
            Content::Message(m) => m,
            Content::Ack(_) => { unreached() },
        }
    }

    /// The message at the core of the packet, to change in place.
    pub fn message_mut(&mut self) -> (res: &mut Message)
        requires
            has_message(*old(self)),
        ensures
            *res == message_of(*old(self)),
            *final(self) == with_message(*old(self), *final(res)),
        decreases depth(*old(self)),
    {
        match &mut self.content {
            Content::Packet(p) => p.message_mut(),
            Content::Message(m) => m,
            Content::Ack(_) => { unreached() },
        }
    }

    /// The identifier of the message at the core of the packet.
    pub fn message_id(&self) -> (res: u64)
        requires
            has_message(*self),
        ensures
            res == message_of(*self).id,
    {
        self.message().id
    }
}

/// The entries of a queue are ordered by time.
pub open spec fn times_sorted<T>(q: Seq<(Timestamp, T)>) -> bool {
    forall|i: int, j: int| 0 <= i <= j < q.len() ==> #[trigger] q[i].0 <= #[trigger] q[j].0
}

/// Where an entry for time `t` goes: after every leading entry that is not
/// later than `t`.
pub open spec fn insert_index<T>(q: Seq<(Timestamp, T)>, t: Timestamp) -> int
    decreases q.len(),
{
    if q.len() == 0 {
        0
    } else if q[0].0 > t {
        0
    } else {
        1 + insert_index(q.drop_first(), t)
    }
}

/// The queue with `(t, x)` inserted after every leading entry that is not
/// later than `t`.
pub open spec fn insert_at_time<T>(q: Seq<(Timestamp, T)>, t: Timestamp, x: T) -> Seq<(Timestamp, T)> {
    q.insert(insert_index(q, t), (t, x))
}

/// The index of insertion lies within the queue, after entries not later
/// than `t` and before an entry later than `t`.
pub proof fn lemma_insert_index<T>(q: Seq<(Timestamp, T)>, t: Timestamp)
    ensures
        0 <= insert_index(q, t) <= q.len(),
        forall|k: int| 0 <= k < insert_index(q, t) ==> q[k].0 <= t,
        insert_index(q, t) < q.len() ==> q[insert_index(q, t)].0 > t,
    decreases q.len(),
{
    if q.len() > 0 && q[0].0 <= t {
        lemma_insert_index(q.drop_first(), t);
        assert forall|k: int| 0 <= k < insert_index(q, t) implies q[k].0 <= t by {
            if k > 0 {
                assert(q[k] == q.drop_first()[k - 1]);
            }
        }
    }
}

/// Inserting at the insertion index keeps a queue ordered by time.
pub proof fn lemma_insert_sorted<T>(q: Seq<(Timestamp, T)>, t: Timestamp, x: T)
    requires
        times_sorted(q),
    ensures
        times_sorted(insert_at_time(q, t, x)),
{
    lemma_insert_index(q, t);
    let idx = insert_index(q, t);
    let r = insert_at_time(q, t, x);
    assert forall|i: int, j: int| 0 <= i <= j < r.len() implies #[trigger] r[i].0 <= #[trigger] r[j].0 by {
        if i < idx && j < idx {
            assert(r[i] == q[i] && r[j] == q[j]);
        } else if i < idx && j == idx {
        } else if i < idx {
            assert(r[i] == q[i] && r[j] == q[j - 1]);
        } else if i == idx && j > idx {
            assert(r[j] == q[j - 1]);
            assert(q[idx].0 <= q[j - 1].0);
        } else if i > idx {
            assert(r[i] == q[i - 1] && r[j] == q[j - 1]);
        }
    }
}

/// Removing the first entry keeps a queue ordered by time.
pub proof fn lemma_drop_first_sorted<T>(q: Seq<(Timestamp, T)>)
    requires
        times_sorted(q),
        q.len() > 0,
    ensures
        times_sorted(q.drop_first()),
{
    assert forall|i: int, j: int| 0 <= i <= j < q.len() - 1 implies #[trigger] q.drop_first()[i].0
        <= #[trigger] q.drop_first()[j].0 by {
        assert(q[i + 1].0 <= q[j + 1].0);
    }
}

/// Inserts `(t, x)` after every leading entry of the queue that is not later
/// than `t`; on a queue ordered by time, after all entries not later than
/// `t`.
pub fn queue_insert<T>(q: &mut Vec<(Timestamp, T)>, t: Timestamp, x: T)
    ensures
        final(q)@ == insert_at_time(old(q)@, t, x),
{
    let ghost s = q@;
    let mut idx: usize = 0;
    assert(s.skip(0) =~= s);
    while idx < q.len() && q[idx].0 <= t
        invariant
            q@ == s,
            0 <= idx <= s.len(),
            insert_index(s, t) == idx + insert_index(s.skip(idx as int), t),
        decreases s.len() - idx,
    {
        assert(s.skip(idx as int).drop_first() =~= s.skip(idx + 1));
        idx = idx + 1;
    }
    assert(insert_index(s.skip(idx as int), t) == 0);
    q.insert(idx, (t, x));
}

/// The time of the first entry of a queue, if any.
pub fn queue_next<T>(q: &Vec<(Timestamp, T)>) -> (res: Option<Timestamp>)
    ensures
        res == (if q@.len() == 0 {
            None::<Timestamp>
        } else {
            Some(q@[0].0)
        }),
{
    if q.len() == 0 {
        None
    } else {
        Some(q[0].0)
    }
}

/// Removes the first entry of a non-empty queue and returns its item.
pub fn queue_pop<T>(q: &mut Vec<(Timestamp, T)>) -> (res: T)
    requires
        old(q)@.len() > 0,
    ensures
        res == old(q)@[0].1,
        final(q)@ == old(q)@.drop_first(),
{
    let (_, x) = q.remove(0);
    assert(q@ =~= old(q)@.drop_first());
    x
}

/// A mix node and the packets waiting in it, ordered by the time they
/// leave.
#[derive(Debug)]
pub struct Node {
    pub ingress: Vec<(Timestamp, Packet)>,
}

impl Node {
    /// A node with no packets.
    pub fn new() -> (res: Node)
        ensures
            res.ingress@ == Seq::<(Timestamp, Packet)>::empty(),
    {
        Node { ingress: Vec::new() }
    }

    /// Queues `packet` to leave at `timestamp`, after the packets leaving
    /// no later.
    pub fn insert(&mut self, timestamp: Timestamp, packet: Packet)
        ensures
            final(self).ingress@ == insert_at_time(old(self).ingress@, timestamp, packet),
    {
        queue_insert(&mut self.ingress, timestamp, packet);
    }

    /// When the next packet leaves, if any.
    pub fn next(&self) -> (res: Option<Timestamp>)
        ensures
            res == (if self.ingress@.len() == 0 {
                None::<Timestamp>
            } else {
                Some(self.ingress@[0].0)
            }),
    {
        queue_next(&self.ingress)
    }

    /// Takes the next packet.
    pub fn pop(&mut self) -> (res: Option<Packet>)
        requires
            old(self).ingress@.len() > 0,
        ensures
            res == Some(old(self).ingress@[0].1),
            final(self).ingress@ == old(self).ingress@.drop_first(),
    {
        Some(queue_pop(&mut self.ingress))
    }
}

/// What happens to a user.
#[derive(Debug)]
pub enum UserEvent {
    /// A message arrives.
    Message(Message),
    /// A packet leaves the user.
    Egress(Packet),
    /// The acknowledgement with the given identifier is overdue.
    AckTimeout(u64),
    /// The user sends a message of the given number of fragments.
    SendMessage(u32),
}

/// A user: its events ordered by time, the fragments it has received per
/// set, when the first fragment of each set arrived, and the messages it
/// awaits acknowledgements for.
#[derive(Debug)]
pub struct User {
    pub events: Vec<(Timestamp, UserEvent)>,
    pub fragments: HashMap<u64, HashSet<u32>>,
    pub t_first: HashMap<u64, Timestamp>,
    pub original_messages: HashMap<u64, Message>,
}

/// The fragment indices a user has received, per fragment set.
pub open spec fn fragment_sets(u: User) -> Map<u64, Set<u32>> {
    Map::new(|k: u64| u.fragments@.contains_key(k), |k: u64| u.fragments@[k]@)
}

/// The fragment indices received of one set.
pub open spec fn received(u: User, set: u64) -> Set<u32> {
    if u.fragments@.contains_key(set) {
        u.fragments@[set]@
    } else {
        Set::empty()
    }
}

/// The indices received of a set, read off the map of all sets.
pub proof fn lemma_received(u: User, set: u64)
    ensures
        fragment_sets(u).contains_key(set) == u.fragments@.contains_key(set),
        received(u, set) == (if fragment_sets(u).contains_key(set) {
            fragment_sets(u)[set]
        } else {
            Set::<u32>::empty()
        }),
{
}

/// The indices marked in set `s` by a sequence of `(set, index)` marks.
pub open spec fn marked_in(marks: Seq<(u64, u32)>, s: u64) -> Set<u32> {
    Set::new(|i: u32| exists|j: int| 0 <= j < marks.len() && marks[j] == (s, i))
}

/// `us[k + 1]` is `us[k]` after `mark_fragment(marks[k].0, marks[k].1)`, as
/// that method's contract describes it.
pub open spec fn marked_in_turn(us: Seq<User>, marks: Seq<(u64, u32)>) -> bool {
    &&& us.len() == marks.len() + 1
    &&& forall|k: int|
        0 <= k < marks.len() ==> fragment_sets(#[trigger] us[k + 1]) == fragment_sets(us[k]).insert(
            marks[k].0,
            received(us[k], marks[k].0).insert(marks[k].1),
        )
}

/// A user that starts with no fragments and then marks a sequence of
/// fragments has received, of each set, exactly the indices marked in it:
/// repeated marks count once, marks of other sets do not count, and
/// `fragment_set_size` reports the number of those indices.
pub proof fn lemma_marks_counted(us: Seq<User>, marks: Seq<(u64, u32)>, s: u64)
    requires
        marked_in_turn(us, marks),
        fragment_sets(us[0]) == Map::<u64, Set<u32>>::empty(),
    ensures
        received(us[marks.len() as int], s) == marked_in(marks, s),
        received(us[marks.len() as int], s).finite(),
    decreases marks.len(),
{
    let n = marks.len();
    if n == 0 {
        lemma_received(us[0], s);
        assert(marked_in(marks, s) =~= Set::<u32>::empty());
    } else {
        let ps = marks.drop_last();
        let pus = us.take(n as int);
        assert forall|k: int| 0 <= k < ps.len() implies fragment_sets(#[trigger] pus[k + 1]) == fragment_sets(
            pus[k],
        ).insert(ps[k].0, received(pus[k], ps[k].0).insert(ps[k].1)) by {
            assert(pus[k + 1] == us[k + 1] && pus[k] == us[k] && ps[k] == marks[k]);
        }
        lemma_marks_counted(pus, ps, s);
        let prev = us[n - 1];
        let last = us[n as int];
        assert(pus[n - 1] == prev);
        lemma_received(prev, s);
        lemma_received(last, s);
        lemma_received(prev, marks[n - 1].0);
        assert(fragment_sets(last) == fragment_sets(prev).insert(
            marks[n - 1].0,
            received(prev, marks[n - 1].0).insert(marks[n - 1].1),
        ));
        if marks[n - 1].0 == s {
            assert(marked_in(marks, s) =~= marked_in(ps, s).insert(marks[n - 1].1)) by {
                assert forall|i: u32| marked_in(marks, s).contains(i) implies #[trigger] marked_in(ps, s).insert(
                    marks[n - 1].1,
                ).contains(i) by {
                    let j = choose|j: int| 0 <= j < marks.len() && marks[j] == (s, i);
                    if j < n - 1 {
                        assert(ps[j] == marks[j]);
                    }
                }
                assert forall|i: u32| marked_in(ps, s).contains(i) implies #[trigger] marked_in(marks, s).contains(
                    i,
                ) by {
                    let j = choose|j: int| 0 <= j < ps.len() && ps[j] == (s, i);
                    assert(marks[j] == ps[j]);
                }
                assert(marked_in(marks, s).contains(marks[n - 1].1)) by {
                    assert(marks[n - 1] == (s, marks[n - 1].1));
                }
            }
        } else {
            assert(marked_in(marks, s) =~= marked_in(ps, s)) by {
                assert forall|i: u32| marked_in(marks, s).contains(i) implies #[trigger] marked_in(ps, s).contains(
                    i,
                ) by {
                    let j = choose|j: int| 0 <= j < marks.len() && marks[j] == (s, i);
                    assert(j != n - 1);
                    assert(ps[j] == marks[j]);
                }
                assert forall|i: u32| marked_in(ps, s).contains(i) implies #[trigger] marked_in(marks, s).contains(
                    i,
                ) by {
                    let j = choose|j: int| 0 <= j < ps.len() && ps[j] == (s, i);
                    assert(marks[j] == ps[j]);
                }
            }
        }
    }
}

impl User {
    /// A user with no events, fragments or pending messages.
    pub fn new() -> (res: User)
        ensures
            res.events@ == Seq::<(Timestamp, UserEvent)>::empty(),
            res.fragments@ == Map::<u64, HashSet<u32>>::empty(),
            res.t_first@ == Map::<u64, Timestamp>::empty(),
            res.original_messages@ == Map::<u64, Message>::empty(),
    {
        User {
            events: Vec::new(),
            fragments: HashMap::new(),
            t_first: HashMap::new(),
            original_messages: HashMap::new(),
        }
    }

    /// Queues `event` at `timestamp`, after the events no later.
    pub fn insert(&mut self, timestamp: Timestamp, event: UserEvent)
        ensures
            final(self).events@ == insert_at_time(old(self).events@, timestamp, event),
            final(self).fragments == old(self).fragments,
            final(self).t_first == old(self).t_first,
            final(self).original_messages == old(self).original_messages,
    {
        queue_insert(&mut self.events, timestamp, event);
    }

    /// When the next event happens, if any.
    pub fn next(&self) -> (res: Option<Timestamp>)
        ensures
            res == (if self.events@.len() == 0 {
                None::<Timestamp>
            } else {
                Some(self.events@[0].0)
            }),
    {
        queue_next(&self.events)
    }

    /// Takes the next event.
    pub fn pop(&mut self) -> (res: Option<UserEvent>)
        requires
            old(self).events@.len() > 0,
        ensures
            res == Some(old(self).events@[0].1),
            final(self).events@ == old(self).events@.drop_first(),
            final(self).fragments == old(self).fragments,
            final(self).t_first == old(self).t_first,
            final(self).original_messages == old(self).original_messages,
    {
        Some(queue_pop(&mut self.events))
    }

    /// Records that fragment `index` of set `set` arrived.
    pub fn mark_fragment(&mut self, set: u64, index: u32)
        ensures
            fragment_sets(*final(self)) == fragment_sets(*old(self)).insert(
                set,
                received(*old(self), set).insert(index),
            ),
            final(self).events == old(self).events,
            final(self).t_first == old(self).t_first,
            final(self).original_messages == old(self).original_messages,
    {
        let mut indices = match self.fragments.remove(&set) {
            Some(s) => s,
            None => HashSet::new(),
        };
        indices.insert(index);
        self.fragments.insert(set, indices);
        assert(fragment_sets(*self) =~= fragment_sets(*old(self)).insert(
            set,
            received(*old(self), set).insert(index),
        ));
    }

    /// How many fragments of set `set` arrived, as a `u32`.
    pub fn fragment_set_size(&self, set: u64) -> (res: u32)
        ensures
            res == received(*self, set).len() as u32,
    {
        match self.fragments.get(&set) {
            Some(s) => s.len() as u32,
            None => 0,
        }
    }
}

} // verus!
