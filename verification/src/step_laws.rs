//! What one step of the simulation does to the event it handles, stated
//! over the state before and after the step: where a node forwards a
//! packet, when a fragment's first arrival is noted and how its delivery
//! times are measured, which acknowledgement timeouts a departing packet
//! arms, and what a resent fragment carries.
use vstd::prelude::*;
use crate::sim::{has_message, insert_at_time, insert_index, lemma_insert_index, message_of, Message, Packet, Timestamp, UserEvent, Content};
use crate::simulation::{
    drop_timeouts, is_timeout_for, lemma_next_of, next_of, received_view, step_ok, step_spec, AckStrategy, DrawsView,
    Next, SimView,
};

verus! {

/// Inserting an entry keeps every entry of the queue and adds the new one.
pub proof fn lemma_insert_contains<T>(q: Seq<(Timestamp, T)>, t: Timestamp, x: T)
    ensures
        insert_at_time(q, t, x).contains((t, x)),
        forall|e: (Timestamp, T)| q.contains(e) ==> #[trigger] insert_at_time(q, t, x).contains(e),
{
    lemma_insert_index(q, t);
    let idx = insert_index(q, t);
    let r = insert_at_time(q, t, x);
    assert(r[idx] == (t, x));
    assert forall|e: (Timestamp, T)| q.contains(e) implies #[trigger] r.contains(e) by {
        let j = choose|j: int| 0 <= j < q.len() && q[j] == e;
        if j < idx {
            assert(r[j] == e);
        } else {
            assert(r[j + 1] == e);
        }
    }
}

/// Removing the timeouts of an acknowledgement leaves none of them.
pub proof fn lemma_drop_timeouts_none(q: Seq<(Timestamp, UserEvent)>, id: u64)
    ensures
        forall|j: int|
            0 <= j < drop_timeouts(q, id).len() ==> !is_timeout_for(#[trigger] drop_timeouts(q, id)[j].1, id),
    decreases q.len(),
{
    if q.len() > 0 {
        lemma_drop_timeouts_none(q.drop_last(), id);
        let rest = drop_timeouts(q.drop_last(), id);
        if !is_timeout_for(q.last().1, id) {
            assert forall|j: int| 0 <= j < rest.push(q.last()).len() implies !is_timeout_for(
                #[trigger] rest.push(q.last())[j].1,
                id,
            ) by {
                if j < rest.len() {
                    assert(rest.push(q.last())[j] == rest[j]);
                }
            }
        }
    }
}

/// A node forwards the first packet it holds: the clock moves to the
/// packet's time `t`; an inner layer is queued at its next node to leave at
/// `t` plus the inner layer's own delay; a message is queued at its
/// recipient at `t`; an acknowledgement removes every pending timeout for
/// it at its recipient.
pub proof fn lemma_node_forwards(v: SimView, d: DrawsView, id: u64, t: Timestamp, p: Packet)
    requires
        step_ok(v, d),
        v.nodes.len() <= u64::MAX,
        v.users.len() <= u64::MAX,
        next_of(v) == Some(Next::Node(id)),
        v.nodes[id as int][0] == (t, p),
        v.timestamp <= t,
    ensures
        step_spec(v, d).0.timestamp == t,
        step_spec(v, d).1 is Ok,
        p.content matches Content::Packet(inner) ==> step_spec(v, d).0.nodes[inner.destination as int].contains(
            ((t + inner.delay) as u64, *inner),
        ) && t + inner.delay <= u64::MAX,
        p.content matches Content::Message(m) ==> step_spec(v, d).0.users[m.recipient as int].events.contains(
            (t, UserEvent::Message(*m)),
        ),
        p.content matches Content::Ack(a) ==> forall|j: int|
            0 <= j < step_spec(v, d).0.users[a.recipient as int].events.len() ==> !is_timeout_for(
                #[trigger] step_spec(v, d).0.users[a.recipient as int].events[j].1,
                a.message_id,
            ),
{
    lemma_next_of(v);
    let w = step_spec(v, d).0;
    match p.content {
        Content::Packet(inner) => {
            let q0 = v.nodes[id as int].drop_first();
            let v0 = crate::simulation::with_node(v, id, q0);
            let v1 = SimView { timestamp: t, ..v0 };
            lemma_insert_contains(v1.nodes[inner.destination as int], (t + inner.delay) as u64, *inner);
        },
        Content::Message(m) => {
            let q0 = v.nodes[id as int].drop_first();
            let v0 = crate::simulation::with_node(v, id, q0);
            let v1 = SimView { timestamp: t, ..v0 };
            let u = v1.users[m.recipient as int];
            lemma_insert_contains(u.events, t, UserEvent::Message(*m));
        },
        Content::Ack(a) => {
            let q0 = v.nodes[id as int].drop_first();
            let v0 = crate::simulation::with_node(v, id, q0);
            let v1 = SimView { timestamp: t, ..v0 };
            let u = v1.users[a.recipient as int];
            lemma_drop_timeouts_none(u.events, a.message_id);
        },
    }
}

/// The first arrival of a fragment set at a user, once noted, is kept: no
/// step changes or removes it.
pub proof fn lemma_first_arrival_kept(v: SimView, d: DrawsView, uid: int, s: u64)
    requires
        step_ok(v, d),
        v.nodes.len() <= u64::MAX,
        v.users.len() <= u64::MAX,
        0 <= uid < v.users.len(),
        v.users[uid].t_first.contains_key(s),
    ensures
        step_spec(v, d).0.users.len() == v.users.len(),
        step_spec(v, d).0.users[uid].t_first.contains_key(s),
        step_spec(v, d).0.users[uid].t_first[s] == v.users[uid].t_first[s],
{
    lemma_next_of(v);
    crate::timeline::lemma_step_moves_forward(v, d);
}

/// A fragment `m` reaches user `uid` at `t`: the user has the fragment's
/// index among those received of its set; the set's first arrival is the
/// one noted before, or `t` if none was; and when the set completes (the
/// step records delivery times), the delivery time is `t` minus the
/// sending time and the first-to-last time is `t` minus the set's first
/// arrival.
pub proof fn lemma_fragment_arrives_at_user(v: SimView, d: DrawsView, uid: u64, t: Timestamp, m: Message)
    requires
        step_ok(v, d),
        v.nodes.len() <= u64::MAX,
        v.users.len() <= u64::MAX,
        next_of(v) == Some(Next::User(uid)),
        v.users[uid as int].events[0] == (t, UserEvent::Message(m)),
        v.timestamp <= t,
    ensures
        ({
            let w = step_spec(v, d).0;
            let u = v.users[uid as int];
            let s = m.fragment_set;
            let first = if u.t_first.contains_key(s) {
                u.t_first[s]
            } else {
                t
            };
            &&& step_spec(v, d).1 is Ok
            &&& w.timestamp == t
            &&& w.users[uid as int].t_first.contains_key(s)
            &&& w.users[uid as int].t_first[s] == first
            &&& received_view(w.users[uid as int], s) == received_view(u, s).insert(m.fragment_index)
            &&& v.first_to_last.is_prefix_of(w.first_to_last)
            &&& v.delivery_times.is_prefix_of(w.delivery_times)
            &&& w.first_to_last.len() <= v.first_to_last.len() + 1
            &&& w.delivery_times.len() == w.first_to_last.len() - v.first_to_last.len() + v.delivery_times.len()
            &&& (w.first_to_last.len() > v.first_to_last.len()) == (received_view(w.users[uid as int], s).len()
                as u32 == m.fragment_size)
            &&& w.first_to_last.len() > v.first_to_last.len() ==> {
                &&& w.first_to_last.last() == t - first
                &&& w.delivery_times.last() == t - m.sending_time
            }
        }),
{
    lemma_next_of(v);
    crate::timeline::lemma_step_moves_forward(v, d);
    let w = step_spec(v, d).0;
    assert(v.first_to_last.is_prefix_of(w.first_to_last));
    assert(v.delivery_times.is_prefix_of(w.delivery_times));
}

/// A packet `p` leaves user `uid` at `t`, whether or not the network loses
/// it. The packet count grows by one. The message is kept for resending,
/// with an acknowledgement timeout at `t` plus the drawn timeout: per
/// message, or per fragment set at the first departure of the set. The
/// packet is queued at its first node to leave at `t` plus its delay
/// exactly when it survives; otherwise no node changes.
pub proof fn lemma_packet_departs(v: SimView, d: DrawsView, uid: u64, t: Timestamp, p: Packet)
    requires
        step_ok(v, d),
        v.nodes.len() <= u64::MAX,
        v.users.len() <= u64::MAX,
        next_of(v) == Some(Next::User(uid)),
        v.users[uid as int].events[0] == (t, UserEvent::Egress(p)),
        v.timestamp <= t,
    ensures
        ({
            let w = step_spec(v, d).0;
            let m = message_of(p);
            let key = if v.ack_strat == AckStrategy::PerFragment {
                m.id
            } else {
                m.fragment_set
            };
            let timeout = (t + d.scaled_delay + v.config.ack_addition) as u64;
            let arms = v.ack_strat == AckStrategy::PerFragment || !v.users[uid as int].original_messages.contains_key(
                key,
            );
            &&& step_spec(v, d).1 is Ok
            &&& w.timestamp == t
            &&& w.packet_count == v.packet_count + 1
            &&& w.users[uid as int].original_messages.contains_key(key)
            &&& arms ==> w.users[uid as int].original_messages[key] == m
            &&& arms ==> w.users[uid as int].events.contains((timeout, UserEvent::AckTimeout(key)))
            &&& arms ==> t + d.scaled_delay + v.config.ack_addition <= u64::MAX
            &&& d.keep ==> w.nodes[p.destination as int].contains(((t + p.delay) as u64, p))
                && t + p.delay <= u64::MAX
            &&& !d.keep ==> w.nodes == v.nodes
        }),
{
    lemma_next_of(v);
    let u = v.users[uid as int];
    let m = message_of(p);
    let timeout = (t + d.scaled_delay + v.config.ack_addition) as u64;
    lemma_insert_contains(u.events.drop_first(), timeout, UserEvent::AckTimeout(m.id));
    lemma_insert_contains(u.events.drop_first(), timeout, UserEvent::AckTimeout(m.fragment_set));
    let v1 = crate::simulation::with_user(
        SimView { timestamp: t, ..v },
        uid,
        crate::simulation::UserView { events: u.events.drop_first(), ..u },
    );
    let w0 = crate::simulation::user_egress_step(v1, uid, t, p, d);
    let u1 = if v.ack_strat == AckStrategy::PerFragment {
        crate::simulation::UserView {
            events: insert_at_time(u.events.drop_first(), timeout, UserEvent::AckTimeout(m.id)),
            original_messages: u.original_messages.insert(m.id, m),
            ..u
        }
    } else if u.original_messages.contains_key(m.fragment_set) {
        crate::simulation::UserView { events: u.events.drop_first(), ..u }
    } else {
        crate::simulation::UserView {
            events: insert_at_time(u.events.drop_first(), timeout, UserEvent::AckTimeout(m.fragment_set)),
            original_messages: u.original_messages.insert(m.fragment_set, m),
            ..u
        }
    };
    let v2 = crate::simulation::with_user(v1, uid, u1);
    lemma_insert_contains(v2.nodes[p.destination as int], (t + p.delay) as u64, p);
}

/// The innermost content of a packet.
pub open spec fn innermost(p: Packet) -> Content
    decreases p,
{
    match p.content {
        Content::Packet(q) => innermost(*q),
        _ => p.content,
    }
}

/// A packet whose innermost content is a message carries that message.
pub proof fn lemma_innermost_message(p: Packet)
    requires
        innermost(p) is Message,
    ensures
        has_message(p),
        message_of(p) == *innermost(p)->Message_0,
    decreases p,
{
    if let Content::Packet(q) = p.content {
        lemma_innermost_message(*q);
    }
}

/// Replacing the message of a packet that carries one: the packet carries
/// the new message.
pub proof fn lemma_with_message(p: Packet, m: Message)
    requires
        has_message(p),
    ensures
        has_message(crate::sim::with_message(p, m)),
        message_of(crate::sim::with_message(p, m)) == m,
    decreases p,
{
    if let Content::Packet(q) = p.content {
        lemma_with_message(*q, m);
    }
}

/// Layers wrapped around a message or acknowledgement keep it innermost.
proof fn lemma_wrap_innermost(content: Content, delays: Seq<Timestamp>, hops: Seq<crate::sim::NodeId>, i: nat)
    requires
        !(content is Packet),
    ensures
        match crate::simulation::wrap_layers(content, delays, hops, i) {
            Content::Packet(q) => innermost(*q) == content,
            c => c == content,
        },
    decreases i,
{
    if i > 0 {
        lemma_wrap_innermost(content, delays, hops, (i - 1) as nat);
    }
}

/// A message or acknowledgement routed along a route is the packet's
/// innermost content.
pub proof fn lemma_routed_innermost(content: Content, route: (Seq<Timestamp>, Seq<crate::sim::NodeId>), k: nat)
    requires
        !(content is Packet),
    ensures
        innermost(crate::simulation::routed_packet(content, route, k)) == content,
{
    lemma_wrap_innermost(content, route.0, route.1, (k - 1) as nat);
}

/// `r` is `m` sent again under identifier `id`: the same fragment of the
/// same set, message size, sending time, sender and recipient.
pub open spec fn resent_as(r: Message, m: Message, id: u64) -> bool {
    &&& r.id == id
    &&& r.fragment_set == m.fragment_set
    &&& r.fragment_index == m.fragment_index
    &&& r.fragment_size == m.fragment_size
    &&& r.sending_time == m.sending_time
    &&& r.sender == m.sender
    &&& r.recipient == m.recipient
}

/// Per fragment, an overdue acknowledgement `id` of user `uid` at `t`
/// sends the message it was waiting for again at `t`: the same fragment of
/// the same set with the same sending time, under the next fresh message
/// identifier, with an acknowledgement back to `uid` for that identifier;
/// the old message is no longer awaited.
pub proof fn lemma_fragment_resent(v: SimView, d: DrawsView, uid: u64, t: Timestamp, id: u64)
    requires
        step_ok(v, d),
        v.nodes.len() <= u64::MAX,
        v.users.len() <= u64::MAX,
        next_of(v) == Some(Next::User(uid)),
        v.users[uid as int].events[0] == (t, UserEvent::AckTimeout(id)),
        v.timestamp <= t,
        v.ack_strat == AckStrategy::PerFragment,
    ensures
        ({
            let w = step_spec(v, d).0;
            let m = v.users[uid as int].original_messages[id];
            &&& step_spec(v, d).1 is Ok
            &&& w.timestamp == t
            &&& w.next_message_id == v.next_message_id + 1
            &&& !w.users[uid as int].original_messages.contains_key(id)
            &&& exists|p: Packet|
                #[trigger] w.users[uid as int].events.contains((t, UserEvent::Egress(p))) && has_message(p)
                    && resent_as(message_of(p), m, v.next_message_id) && innermost(*message_of(p).ack) == Content::Ack(
                    Box::new(crate::sim::Ack { recipient: uid, message_id: v.next_message_id }),
                )
        }),
{
    lemma_next_of(v);
    let u = v.users[uid as int];
    let m = u.original_messages[id];
    let k = v.config.num_hops as nat;
    let new_id = v.next_message_id;
    let ack = crate::sim::Ack { recipient: uid, message_id: new_id };
    let m1 = Message {
        id: new_id,
        ack: Box::new(crate::simulation::routed_packet(Content::Ack(Box::new(ack)), d.routes[0], k)),
        ..m
    };
    let packet = crate::simulation::routed_packet(Content::Message(Box::new(m1)), d.routes[1], k);
    lemma_routed_innermost(Content::Message(Box::new(m1)), d.routes[1], k);
    lemma_routed_innermost(Content::Ack(Box::new(ack)), d.routes[0], k);
    lemma_innermost_message(packet);
    let u1 = crate::simulation::UserView {
        events: u.events.drop_first(),
        original_messages: u.original_messages.remove(id),
        ..u
    };
    lemma_insert_contains(u1.events, t, UserEvent::Egress(packet));
    assert(step_spec(v, d).0.users[uid as int].events.contains((t, UserEvent::Egress(packet))));
}

/// Every packet queued to leave keeps the entries already there and is
/// there afterwards.
pub proof fn lemma_queue_egress_contains(q: Seq<(Timestamp, UserEvent)>, t: Timestamp, packets: Seq<Packet>)
    ensures
        forall|f: int| 0 <= f < packets.len() ==> #[trigger] crate::simulation::queue_egress(q, t, packets).contains(
            (t, UserEvent::Egress(packets[f])),
        ),
    decreases packets.len(),
{
    if packets.len() > 0 {
        let ps = packets.drop_last();
        lemma_queue_egress_contains(q, t, ps);
        let r = crate::simulation::queue_egress(q, t, ps);
        lemma_insert_contains(r, t, UserEvent::Egress(packets.last()));
        assert forall|f: int| 0 <= f < packets.len() implies #[trigger] crate::simulation::queue_egress(
            q,
            t,
            packets,
        ).contains((t, UserEvent::Egress(packets[f]))) by {
            if f < ps.len() {
                assert(ps[f] == packets[f]);
                assert(r.contains((t, UserEvent::Egress(ps[f]))));
            }
        }
    }
}

/// Fragment `f` of message `m`, resent in fragment set `set`, is queued to
/// leave at `t`: with the message's first sending time, sender, recipient
/// and size.
pub open spec fn fragment_leaves(q: Seq<(Timestamp, UserEvent)>, t: Timestamp, f: u32, set: u64, m: Message) -> bool {
    exists|p: Packet|
        #[trigger] q.contains((t, UserEvent::Egress(p))) && has_message(p) && message_of(p).fragment_index == f
            && message_of(p).fragment_set == set && message_of(p).fragment_size == m.fragment_size
            && message_of(p).sending_time == m.sending_time && message_of(p).sender == m.sender
            && message_of(p).recipient == m.recipient
}

/// For a whole message, an overdue acknowledgement `id` of user `uid` at
/// `t` sends the whole message again at `t` in the next fresh fragment
/// set: every fragment index below the message's size leaves, with the
/// message's first sending time, sender, recipient and size; the recipient
/// forgets what it received of the old set, and the old set is no longer
/// awaited.
pub proof fn lemma_message_resent(v: SimView, d: DrawsView, uid: u64, t: Timestamp, id: u64)
    requires
        step_ok(v, d),
        v.nodes.len() <= u64::MAX,
        v.users.len() <= u64::MAX,
        next_of(v) == Some(Next::User(uid)),
        v.users[uid as int].events[0] == (t, UserEvent::AckTimeout(id)),
        v.timestamp <= t,
        v.ack_strat == AckStrategy::WholeMessage,
    ensures
        ({
            let w = step_spec(v, d).0;
            let m = v.users[uid as int].original_messages[id];
            &&& step_spec(v, d).1 is Ok
            &&& w.timestamp == t
            &&& w.next_fragment_set == v.next_fragment_set + 1
            &&& w.next_message_id == v.next_message_id + m.fragment_size
            &&& !w.users[m.recipient as int].fragments.contains_key(m.fragment_set)
            &&& uid != m.recipient ==> !w.users[uid as int].original_messages.contains_key(id)
            &&& forall|f: u32|
                f < m.fragment_size ==> #[trigger] fragment_leaves(
                    w.users[uid as int].events,
                    t,
                    f,
                    v.next_fragment_set,
                    m,
                )
        }),
{
    lemma_next_of(v);
    let u = v.users[uid as int];
    let m = u.original_messages[id];
    let k = v.config.num_hops as nat;
    let packets = crate::simulation::message_packets(
        v.ack_strat,
        t,
        v.next_message_id,
        v.next_fragment_set,
        m.sender,
        m.recipient,
        m.fragment_size,
        d.routes,
        k,
    );
    let stamped = Seq::new(packets.len(), |i: int| crate::simulation::restamp(packets[i], m.sending_time));
    let v0 = crate::simulation::with_user(
        SimView { timestamp: t, ..v },
        uid,
        crate::simulation::UserView { events: u.events.drop_first(), ..u },
    );
    let u1 = crate::simulation::UserView { original_messages: v0.users[uid as int].original_messages.remove(id), ..v0.users[uid as int] };
    let v1 = crate::simulation::with_user(v0, uid, u1);
    let r = v1.users[m.recipient as int];
    let v2 = crate::simulation::with_user(
        v1,
        m.recipient,
        crate::simulation::UserView { fragments: r.fragments.remove(m.fragment_set), ..r },
    );
    let v3 = SimView {
        next_message_id: (v.next_message_id + m.fragment_size) as u64,
        next_fragment_set: (v.next_fragment_set + 1) as u64,
        ..v2
    };
    let wq = v3.users[uid as int].events;
    lemma_queue_egress_contains(wq, t, stamped);
    assert forall|f: u32| f < m.fragment_size implies #[trigger] fragment_leaves(
        step_spec(v, d).0.users[uid as int].events,
        t,
        f,
        v.next_fragment_set,
        m,
    ) by {
        let fm = crate::simulation::fragment_message(
            v.ack_strat,
            t,
            (v.next_message_id + f) as u64,
            v.next_fragment_set,
            m.sender,
            m.recipient,
            f,
            m.fragment_size,
            d.routes[2 * f],
            k,
        );
        let pk = packets[f as int];
        lemma_routed_innermost(Content::Message(Box::new(fm)), d.routes[2 * f + 1], k);
        lemma_innermost_message(pk);
        let sp = stamped[f as int];
        lemma_with_message(pk, Message { sending_time: m.sending_time, ..message_of(pk) });
        assert(step_spec(v, d).0.users[uid as int].events.contains((t, UserEvent::Egress(sp))));
    }
}

} // verus!
