//! What every step of the simulation keeps: events happen in time order.
//! The queues stay ordered by time, the clock moves to the earliest pending
//! event and never back, and no event is left behind the clock.
use vstd::prelude::*;
use crate::sim::{
    insert_at_time, insert_index, lemma_drop_first_sorted, lemma_insert_index, lemma_insert_sorted, times_sorted,
    Ack, Content, Message, Packet, message_of, Timestamp, UserEvent,
};
use crate::simulation::{
    drop_timeouts, earliest, is_timeout_for, lemma_earliest, lemma_next_of, next_of, node_event_ok, queue_at_node,
    queue_egress, received_view, message_packets, restamp, routed_packet, step_ok, step_spec, user_egress_step, user_event_ok, user_message_step, user_queues,
    user_send_step, user_timeout_step, with_node, with_user, AckStrategy, DrawsView, Next, SimView,
    StepError, UserView,
};

verus! {

/// No entry of a queue lies before `t`.
pub open spec fn not_before<T>(q: Seq<(Timestamp, T)>, t: Timestamp) -> bool {
    forall|j: int| 0 <= j < q.len() ==> t <= #[trigger] q[j].0
}

/// No entry of a queue lies after `t`.
pub open spec fn not_after<T>(q: Seq<(Timestamp, T)>, t: Timestamp) -> bool {
    forall|j: int| 0 <= j < q.len() ==> #[trigger] q[j].0 <= t
}

/// Every queue of every node and user is ordered by time.
pub open spec fn queues_sorted(v: SimView) -> bool {
    &&& forall|i: int| 0 <= i < v.nodes.len() ==> times_sorted(#[trigger] v.nodes[i])
    &&& forall|i: int| 0 <= i < v.users.len() ==> times_sorted(#[trigger] v.users[i].events)
}

/// No pending event of any node or user lies before `t`.
pub open spec fn pending_from(v: SimView, t: Timestamp) -> bool {
    &&& forall|i: int| 0 <= i < v.nodes.len() ==> not_before(#[trigger] v.nodes[i], t)
    &&& forall|i: int| 0 <= i < v.users.len() ==> not_before(#[trigger] v.users[i].events, t)
}

/// The queues are ordered by time and no pending event lies before the
/// clock.
pub open spec fn timely(v: SimView) -> bool {
    queues_sorted(v) && pending_from(v, v.timestamp)
}

/// An entry inserted no earlier than `t` into a queue with no entry before
/// `t` leaves no entry before `t`.
proof fn lemma_insert_not_before<T>(q: Seq<(Timestamp, T)>, t: Timestamp, s: Timestamp, x: T)
    requires
        not_before(q, t),
        t <= s,
    ensures
        not_before(insert_at_time(q, s, x), t),
{
    lemma_insert_index(q, s);
    let idx = insert_index(q, s);
    let r = insert_at_time(q, s, x);
    assert forall|j: int| 0 <= j < r.len() implies t <= #[trigger] r[j].0 by {
        if j < idx {
            assert(r[j] == q[j]);
        } else if j > idx {
            assert(r[j] == q[j - 1]);
        }
    }
}

/// The front of an ordered queue is its earliest entry.
proof fn lemma_front_first<T>(q: Seq<(Timestamp, T)>)
    requires
        times_sorted(q),
        q.len() > 0,
    ensures
        not_before(q, q[0].0),
{
    assert forall|j: int| 0 <= j < q.len() implies q[0].0 <= #[trigger] q[j].0 by {
        assert(q[0].0 <= q[j].0);
    }
}

/// Dropping the front keeps the other entries.
proof fn lemma_drop_first_not_before<T>(q: Seq<(Timestamp, T)>, t: Timestamp)
    requires
        not_before(q, t),
        q.len() > 0,
    ensures
        not_before(q.drop_first(), t),
{
    assert forall|j: int| 0 <= j < q.drop_first().len() implies t <= #[trigger] q.drop_first()[j].0 by {
        assert(q.drop_first()[j] == q[j + 1]);
    }
}

/// Removing the timeouts of an acknowledgement keeps a queue ordered, and
/// keeps its entries between the same bounds.
proof fn lemma_drop_timeouts_within(q: Seq<(Timestamp, UserEvent)>, id: u64, lo: Timestamp, hi: Timestamp)
    requires
        times_sorted(q),
        not_before(q, lo),
        not_after(q, hi),
    ensures
        times_sorted(drop_timeouts(q, id)),
        not_before(drop_timeouts(q, id), lo),
        not_after(drop_timeouts(q, id), hi),
    decreases q.len(),
{
    if q.len() > 0 {
        let p = q.drop_last();
        let last = q.last();
        assert forall|i: int, j: int| 0 <= i <= j < p.len() implies #[trigger] p[i].0 <= #[trigger] p[j].0 by {
            assert(p[i] == q[i] && p[j] == q[j]);
        }
        assert forall|j: int| 0 <= j < p.len() implies lo <= #[trigger] p[j].0 by {
            assert(p[j] == q[j]);
        }
        assert forall|j: int| 0 <= j < p.len() implies #[trigger] p[j].0 <= last.0 by {
            assert(p[j] == q[j]);
            assert(q[j].0 <= q[q.len() - 1].0);
        }
        assert(lo <= q[q.len() - 1].0 && q[q.len() - 1].0 <= hi);
        lemma_drop_timeouts_within(p, id, lo, last.0);
        let rest = drop_timeouts(p, id);
        if !is_timeout_for(last.1, id) {
            let r = rest.push(last);
            assert(drop_timeouts(q, id) == r);
            assert forall|i: int, j: int| 0 <= i <= j < r.len() implies #[trigger] r[i].0 <= #[trigger] r[j].0 by {
                if j < rest.len() {
                    assert(r[i] == rest[i] && r[j] == rest[j]);
                } else if i < rest.len() {
                    assert(r[i] == rest[i]);
                }
            }
            assert forall|j: int| 0 <= j < r.len() implies lo <= #[trigger] r[j].0 by {
                if j < rest.len() {
                    assert(r[j] == rest[j]);
                }
            }
            assert forall|j: int| 0 <= j < r.len() implies #[trigger] r[j].0 <= hi by {
                if j < rest.len() {
                    assert(r[j] == rest[j]);
                }
            }
        }
    }
}

/// Removing the timeouts of an acknowledgement keeps a queue ordered, with
/// no entry before `t`.
pub proof fn lemma_drop_timeouts_timely(q: Seq<(Timestamp, UserEvent)>, id: u64, t: Timestamp)
    requires
        times_sorted(q),
        not_before(q, t),
    ensures
        times_sorted(drop_timeouts(q, id)),
        not_before(drop_timeouts(q, id), t),
{
    assert(not_after(q, u64::MAX));
    lemma_drop_timeouts_within(q, id, t, u64::MAX);
}

/// Queueing packets to leave at `s` keeps a queue ordered, with no entry
/// before `t <= s`.
pub proof fn lemma_queue_egress_timely(
    q: Seq<(Timestamp, UserEvent)>,
    t: Timestamp,
    s: Timestamp,
    packets: Seq<Packet>,
)
    requires
        times_sorted(q),
        not_before(q, t),
        t <= s,
    ensures
        times_sorted(queue_egress(q, s, packets)),
        not_before(queue_egress(q, s, packets), t),
    decreases packets.len(),
{
    if packets.len() > 0 {
        lemma_queue_egress_timely(q, t, s, packets.drop_last());
        let r = queue_egress(q, s, packets.drop_last());
        lemma_insert_sorted(r, s, UserEvent::Egress(packets.last()));
        lemma_insert_not_before(r, t, s, UserEvent::Egress(packets.last()));
    }
}

/// Inserting an entry no earlier than `t` keeps a queue ordered, with no
/// entry before `t`.
pub proof fn lemma_insert_timely<T>(q: Seq<(Timestamp, T)>, t: Timestamp, s: Timestamp, x: T)
    requires
        times_sorted(q),
        not_before(q, t),
        t <= s,
    ensures
        times_sorted(insert_at_time(q, s, x)),
        not_before(insert_at_time(q, s, x), t),
{
    lemma_insert_sorted(q, s, x);
    lemma_insert_not_before(q, t, s, x);
}

/// Taking the front off keeps a queue ordered, with no entry before its old
/// front.
pub proof fn lemma_pop_timely<T>(q: Seq<(Timestamp, T)>)
    requires
        times_sorted(q),
        q.len() > 0,
    ensures
        times_sorted(q.drop_first()),
        not_before(q.drop_first(), q[0].0),
{
    lemma_drop_first_sorted(q);
    lemma_front_first(q);
    lemma_drop_first_not_before(q, q[0].0);
}

/// No queue among the first `k` has a front earlier than the one
/// `earliest` picks, and it picks one whenever a queue is non-empty.
pub proof fn lemma_earliest_least<T>(qs: Seq<Seq<(Timestamp, T)>>, k: int)
    requires
        0 <= k <= qs.len(),
    ensures
        earliest(qs, k) is None ==> forall|j: int| 0 <= j < k ==> #[trigger] qs[j].len() == 0,
        earliest(qs, k) matches Some(p) ==> forall|j: int|
            0 <= j < k && #[trigger] qs[j].len() > 0 ==> p.1 <= qs[j][0].0,
    decreases k,
{
    if k > 0 {
        lemma_earliest_least(qs, k - 1);
    }
}

/// The queues are ordered by time and no pending event lies before `t`.
pub open spec fn ordered_from(v: SimView, t: Timestamp) -> bool {
    queues_sorted(v) && pending_from(v, t)
}

/// Replacing a node's queue by an ordered one with no entry before `t`.
proof fn lemma_with_node_ordered(v: SimView, id: u64, q: Seq<(Timestamp, Packet)>, t: Timestamp)
    requires
        ordered_from(v, t),
        id < v.nodes.len(),
        times_sorted(q),
        not_before(q, t),
    ensures
        ordered_from(with_node(v, id, q), t),
{
    let w = with_node(v, id, q);
    assert forall|i: int| 0 <= i < w.nodes.len() implies times_sorted(#[trigger] w.nodes[i]) && not_before(
        w.nodes[i],
        t,
    ) by {
        if i != id {
            assert(w.nodes[i] == v.nodes[i]);
        }
    }
    assert(w.users == v.users);
}

/// Replacing a user by one whose queue is ordered with no entry before `t`.
proof fn lemma_with_user_ordered(v: SimView, uid: u64, u: UserView, t: Timestamp)
    requires
        ordered_from(v, t),
        uid < v.users.len(),
        times_sorted(u.events),
        not_before(u.events, t),
    ensures
        ordered_from(with_user(v, uid, u), t),
{
    let w = with_user(v, uid, u);
    assert forall|i: int| 0 <= i < w.users.len() implies times_sorted(#[trigger] w.users[i].events)
        && not_before(w.users[i].events, t) by {
        if i != uid {
            assert(w.users[i] == v.users[i]);
        }
    }
    assert(w.nodes == v.nodes);
}

/// Queueing a packet at an existing node no earlier than `t`.
proof fn lemma_queue_at_node_ordered(v: SimView, id: u64, s: Timestamp, p: Packet, t: Timestamp)
    requires
        ordered_from(v, t),
        id < v.nodes.len(),
        t <= s,
    ensures
        ordered_from(queue_at_node(v, id, s, p), t),
        queue_at_node(v, id, s, p).nodes.len() == v.nodes.len(),
        queue_at_node(v, id, s, p).users == v.users,
{
    lemma_insert_timely(v.nodes[id as int], t, s, p);
    lemma_with_node_ordered(v, id, insert_at_time(v.nodes[id as int], s, p), t);
}

/// A fragment reaching its user keeps the queues ordered from `t`.
proof fn lemma_message_step_ordered(v: SimView, uid: u64, t: Timestamp, m: Message, d: DrawsView)
    requires
        ordered_from(v, t),
        uid < v.users.len(),
        user_event_ok(v, uid, t, UserEvent::Message(m), d),
    ensures
        ordered_from(user_message_step(v, uid, t, m), t),
        user_message_step(v, uid, t, m).timestamp == v.timestamp,
{
    let u = v.users[uid as int];
    let ack = *m.ack;
    let v1 = if v.ack_strat == AckStrategy::PerFragment {
        SimView {
            packet_count: (v.packet_count + 1) as u64,
            ..queue_at_node(v, ack.destination, (t + ack.delay) as u64, ack)
        }
    } else {
        v
    };
    if v.ack_strat == AckStrategy::PerFragment {
        lemma_queue_at_node_ordered(v, ack.destination, (t + ack.delay) as u64, ack, t);
    }
    assert(ordered_from(v1, t));
    assert(v1.users == v.users);
    let set = m.fragment_set;
    let t_first = if u.t_first.contains_key(set) {
        u.t_first
    } else {
        u.t_first.insert(set, t)
    };
    let frags = u.fragments.insert(set, received_view(u, set).insert(m.fragment_index));
    let u1 = UserView { t_first, fragments: frags, ..u };
    lemma_with_user_ordered(v1, uid, u1, t);
    let v2 = with_user(v1, uid, u1);
    let v3 = SimView {
        delivery_times: v2.delivery_times.push((t - m.sending_time) as u64),
        first_to_last: v2.first_to_last.push((t - t_first[set]) as u64),
        ..v2
    };
    assert(ordered_from(v3, t));
    if frags[set].len() as u32 == m.fragment_size && v.ack_strat == AckStrategy::WholeMessage {
        lemma_queue_at_node_ordered(v3, ack.destination, (t + ack.delay) as u64, ack, t);
    }
}

/// A packet leaving its user keeps the queues ordered from `t`.
proof fn lemma_egress_step_ordered(v: SimView, uid: u64, t: Timestamp, p: Packet, d: DrawsView)
    requires
        ordered_from(v, t),
        uid < v.users.len(),
        user_event_ok(v, uid, t, UserEvent::Egress(p), d),
    ensures
        ordered_from(user_egress_step(v, uid, t, p, d), t),
        user_egress_step(v, uid, t, p, d).timestamp == v.timestamp,
{
    let u = v.users[uid as int];
    let timeout = d.scaled_delay + v.config.ack_addition;
    let m = message_of(p);
    let u1 = if v.ack_strat == AckStrategy::PerFragment {
        UserView {
            events: insert_at_time(u.events, (t + timeout) as u64, UserEvent::AckTimeout(m.id)),
            original_messages: u.original_messages.insert(m.id, m),
            ..u
        }
    } else if u.original_messages.contains_key(m.fragment_set) {
        u
    } else {
        UserView {
            events: insert_at_time(u.events, (t + timeout) as u64, UserEvent::AckTimeout(m.fragment_set)),
            original_messages: u.original_messages.insert(m.fragment_set, m),
            ..u
        }
    };
    if v.ack_strat == AckStrategy::PerFragment {
        lemma_insert_timely(u.events, t, (t + timeout) as u64, UserEvent::AckTimeout(m.id));
    } else if !u.original_messages.contains_key(m.fragment_set) {
        lemma_insert_timely(u.events, t, (t + timeout) as u64, UserEvent::AckTimeout(m.fragment_set));
    }
    lemma_with_user_ordered(v, uid, u1, t);
    let v1 = with_user(v, uid, u1);
    if d.keep {
        lemma_queue_at_node_ordered(v1, p.destination, (t + p.delay) as u64, p, t);
    }
}

/// A user sending a message keeps the queues ordered from `t`.
proof fn lemma_send_step_ordered(v: SimView, uid: u64, t: Timestamp, n: u32, d: DrawsView)
    requires
        ordered_from(v, t),
        uid < v.users.len(),
    ensures
        ordered_from(user_send_step(v, uid, t, n, d), t),
        user_send_step(v, uid, t, n, d).timestamp == v.timestamp,
{
    let packets = message_packets(
        v.ack_strat,
        t,
        v.next_message_id,
        v.next_fragment_set,
        uid,
        1,
        n,
        d.routes,
        v.config.num_hops as nat,
    );
    let u = v.users[uid as int];
    let v1 = SimView {
        next_message_id: (v.next_message_id + n) as u64,
        next_fragment_set: (v.next_fragment_set + 1) as u64,
        ..v
    };
    lemma_queue_egress_timely(u.events, t, t, packets);
    lemma_with_user_ordered(v1, uid, UserView { events: queue_egress(u.events, t, packets), ..u }, t);
}

/// An overdue acknowledgement keeps the queues ordered from `t`.
proof fn lemma_timeout_step_ordered(v: SimView, uid: u64, t: Timestamp, id: u64, d: DrawsView)
    requires
        ordered_from(v, t),
        uid < v.users.len(),
        user_event_ok(v, uid, t, UserEvent::AckTimeout(id), d),
    ensures
        ordered_from(user_timeout_step(v, uid, t, id, d), t),
        user_timeout_step(v, uid, t, id, d).timestamp == v.timestamp,
{
    let u = v.users[uid as int];
    let m = u.original_messages[id];
    let u1 = UserView { original_messages: u.original_messages.remove(id), ..u };
    lemma_with_user_ordered(v, uid, u1, t);
    let v1 = with_user(v, uid, u1);
    let k = v.config.num_hops as nat;
    if v.ack_strat == AckStrategy::PerFragment {
        let new_id = v.next_message_id;
        let ack = Ack { recipient: uid, message_id: new_id };
        let m1 = Message {
            id: new_id,
            ack: Box::new(routed_packet(Content::Ack(Box::new(ack)), d.routes[0], k)),
            ..m
        };
        let packet = routed_packet(Content::Message(Box::new(m1)), d.routes[1], k);
        let v2 = SimView { next_message_id: (new_id + 1) as u64, ..v1 };
        lemma_insert_timely(u1.events, t, t, UserEvent::Egress(packet));
        lemma_with_user_ordered(
            v2,
            uid,
            UserView { events: insert_at_time(u1.events, t, UserEvent::Egress(packet)), ..u1 },
            t,
        );
    } else {
        let r = v1.users[m.recipient as int];
        let v2 = with_user(v1, m.recipient, UserView { fragments: r.fragments.remove(m.fragment_set), ..r });
        lemma_with_user_ordered(v1, m.recipient, UserView { fragments: r.fragments.remove(m.fragment_set), ..r }, t);
        let packets = message_packets(
            v.ack_strat,
            t,
            v.next_message_id,
            v.next_fragment_set,
            m.sender,
            m.recipient,
            m.fragment_size,
            d.routes,
            k,
        );
        let stamped = Seq::new(packets.len(), |i: int| restamp(packets[i], m.sending_time));
        let v3 = SimView {
            next_message_id: (v.next_message_id + m.fragment_size) as u64,
            next_fragment_set: (v.next_fragment_set + 1) as u64,
            ..v2
        };
        let w = v3.users[uid as int];
        lemma_queue_egress_timely(w.events, t, t, stamped);
        lemma_with_user_ordered(v3, uid, UserView { events: queue_egress(w.events, t, stamped), ..w }, t);
    }
}

/// Events happen in time order. From a state whose queues are ordered by
/// time with no event before the clock, a step whose event can be handled
/// (`step_ok`) never finds its event in the past, moves the clock to a time
/// no later than any pending event and never back, and leaves the queues
/// ordered with no event before the new time.
pub proof fn lemma_step_in_time_order(v: SimView, d: DrawsView)
    requires
        timely(v),
        step_ok(v, d),
        v.nodes.len() <= u64::MAX,
        v.users.len() <= u64::MAX,
    ensures
        step_spec(v, d).1 != Err::<(), StepError>(StepError::PastEvent),
        v.timestamp <= step_spec(v, d).0.timestamp,
        pending_from(v, step_spec(v, d).0.timestamp),
        timely(step_spec(v, d).0),
{
    lemma_next_of(v);
    lemma_earliest(v.nodes, v.nodes.len() as int);
    lemma_earliest(user_queues(v), v.users.len() as int);
    lemma_earliest_least(v.nodes, v.nodes.len() as int);
    lemma_earliest_least(user_queues(v), v.users.len() as int);
    assert forall|i: int| 0 <= i < v.nodes.len() && #[trigger] v.nodes[i].len() > 0 implies not_before(
        v.nodes[i],
        v.nodes[i][0].0,
    ) by {
        lemma_front_first(v.nodes[i]);
    }
    assert forall|i: int| 0 <= i < v.users.len() && #[trigger] v.users[i].events.len() > 0 implies not_before(
        v.users[i].events,
        v.users[i].events[0].0,
    ) by {
        lemma_front_first(v.users[i].events);
    }
    match next_of(v) {
        None => {
            assert forall|i: int| 0 <= i < v.users.len() implies #[trigger] v.users[i].events.len() == 0 by {
                assert(user_queues(v)[i] == v.users[i].events);
            }
        },
        Some(Next::Node(id)) => {
            let q = v.nodes[id as int];
            let t = q[0].0;
            assert forall|i: int| 0 <= i < v.nodes.len() implies not_before(#[trigger] v.nodes[i], t) by {
                if v.nodes[i].len() > 0 {
                    assert(t <= v.nodes[i][0].0);
                }
            }
            assert forall|i: int| 0 <= i < v.users.len() implies not_before(#[trigger] v.users[i].events, t) by {
                assert(user_queues(v)[i] == v.users[i].events);
                if v.users[i].events.len() > 0 {
                    assert(t <= v.users[i].events[0].0);
                }
            }
            assert(ordered_from(v, t));
            assert(v.timestamp <= t);
            lemma_pop_timely(q);
            lemma_drop_first_not_before(q, t);
            lemma_with_node_ordered(v, id, q.drop_first(), t);
            let v0 = with_node(v, id, q.drop_first());
            let v1 = SimView { timestamp: t, ..v0 };
            assert(ordered_from(v1, t));
            assert(node_event_ok(v1, t, q[0].1));
            match q[0].1.content {
                Content::Message(m) => {
                    let u = v1.users[m.recipient as int];
                    lemma_insert_timely(u.events, t, t, UserEvent::Message(*m));
                    lemma_with_user_ordered(
                        v1,
                        m.recipient,
                        UserView { events: insert_at_time(u.events, t, UserEvent::Message(*m)), ..u },
                        t,
                    );
                },
                Content::Ack(a) => {
                    let u = v1.users[a.recipient as int];
                    lemma_drop_timeouts_timely(u.events, a.message_id, t);
                    lemma_with_user_ordered(
                        v1,
                        a.recipient,
                        UserView { events: drop_timeouts(u.events, a.message_id), ..u },
                        t,
                    );
                },
                Content::Packet(inner) => {
                    lemma_queue_at_node_ordered(v1, inner.destination, (t + inner.delay) as u64, *inner, t);
                },
            }
        },
        Some(Next::User(uid)) => {
            let u = v.users[uid as int];
            let t = u.events[0].0;
            assert(user_queues(v)[uid as int] == u.events);
            assert forall|i: int| 0 <= i < v.nodes.len() implies not_before(#[trigger] v.nodes[i], t) by {
                if v.nodes[i].len() > 0 {
                    assert(t <= v.nodes[i][0].0);
                }
            }
            assert forall|i: int| 0 <= i < v.users.len() implies not_before(#[trigger] v.users[i].events, t) by {
                assert(user_queues(v)[i] == v.users[i].events);
                if v.users[i].events.len() > 0 {
                    assert(t <= v.users[i].events[0].0);
                }
            }
            assert(ordered_from(v, t));
            assert(v.timestamp <= t);
            lemma_pop_timely(u.events);
            lemma_drop_first_not_before(u.events, t);
            let u0 = UserView { events: u.events.drop_first(), ..u };
            lemma_with_user_ordered(SimView { timestamp: t, ..v }, uid, u0, t);
            let v1 = with_user(SimView { timestamp: t, ..v }, uid, u0);
            assert(ordered_from(v1, t));
            match u.events[0].1 {
                UserEvent::Message(m) => lemma_message_step_ordered(v1, uid, t, m, d),
                UserEvent::Egress(p) => lemma_egress_step_ordered(v1, uid, t, p, d),
                UserEvent::SendMessage(n) => lemma_send_step_ordered(v1, uid, t, n, d),
                UserEvent::AckTimeout(id) => lemma_timeout_step_ordered(v1, uid, t, id, d),
            }
        },
    }
}

/// What a step keeps of the counters and records: the clock, the message,
/// fragment set and packet counters never go down, the recorded times only
/// grow at the end, and the nodes, users, strategy and configuration stay.
pub open spec fn grows_from(v: SimView, w: SimView) -> bool {
    &&& v.timestamp <= w.timestamp
    &&& v.next_message_id <= w.next_message_id
    &&& v.next_fragment_set <= w.next_fragment_set
    &&& v.packet_count <= w.packet_count
    &&& v.delivery_times.is_prefix_of(w.delivery_times)
    &&& v.first_to_last.is_prefix_of(w.first_to_last)
    &&& w.nodes.len() == v.nodes.len()
    &&& w.users.len() == v.users.len()
    &&& w.ack_strat == v.ack_strat
    &&& w.config == v.config
}

/// A step only moves forward: whatever happens, `grows_from` holds between
/// the state before and after a step whose event can be handled, and a
/// step that finds no event changes nothing.
pub proof fn lemma_step_moves_forward(v: SimView, d: DrawsView)
    requires
        step_ok(v, d),
        v.nodes.len() <= u64::MAX,
        v.users.len() <= u64::MAX,
    ensures
        grows_from(v, step_spec(v, d).0),
        step_spec(v, d).1 == Err::<(), StepError>(StepError::NoMoreEvents) ==> step_spec(v, d).0 == v,
{
    lemma_next_of(v);
    lemma_earliest(v.nodes, v.nodes.len() as int);
    lemma_earliest(user_queues(v), v.users.len() as int);
    let w = step_spec(v, d).0;
    match next_of(v) {
        None => {
            assert(v.delivery_times.is_prefix_of(w.delivery_times));
            assert(v.first_to_last.is_prefix_of(w.first_to_last));
        },
        Some(Next::Node(id)) => {
            let q = v.nodes[id as int];
            let t = q[0].0;
            let v0 = with_node(v, id, q.drop_first());
            let v1 = SimView { timestamp: t, ..v0 };
            if t >= v.timestamp {
                assert(node_event_ok(v1, t, q[0].1));
            }
            assert(v.delivery_times.is_prefix_of(w.delivery_times));
            assert(v.first_to_last.is_prefix_of(w.first_to_last));
        },
        Some(Next::User(uid)) => {
            let u = v.users[uid as int];
            let t = u.events[0].0;
            if t >= v.timestamp {
                let u0 = UserView { events: u.events.drop_first(), ..u };
                let v1 = with_user(SimView { timestamp: t, ..v }, uid, u0);
                assert(user_event_ok(v1, uid, t, u.events[0].1, d));
                match u.events[0].1 {
                    UserEvent::Message(m) => {
                        let x = user_message_step(v1, uid, t, m);
                        assert(grows_from(v1, x)) by {
                            lemma_message_step_grows(v1, uid, t, m, d);
                        }
                    },
                    UserEvent::Egress(p) => {
                        assert(v.delivery_times.is_prefix_of(w.delivery_times));
                        assert(v.first_to_last.is_prefix_of(w.first_to_last));
                    },
                    UserEvent::SendMessage(n) => {
                        assert(v.delivery_times.is_prefix_of(w.delivery_times));
                        assert(v.first_to_last.is_prefix_of(w.first_to_last));
                    },
                    UserEvent::AckTimeout(id) => {
                        assert(v.delivery_times.is_prefix_of(w.delivery_times));
                        assert(v.first_to_last.is_prefix_of(w.first_to_last));
                    },
                }
            } else {
                assert(v.delivery_times.is_prefix_of(w.delivery_times));
                assert(v.first_to_last.is_prefix_of(w.first_to_last));
            }
        },
    }
}

/// A fragment reaching its user only moves forward.
proof fn lemma_message_step_grows(v: SimView, uid: u64, t: Timestamp, m: Message, d: DrawsView)
    requires
        uid < v.users.len(),
        user_event_ok(v, uid, t, UserEvent::Message(m), d),
    ensures
        grows_from(v, user_message_step(v, uid, t, m)),
{
    let w = user_message_step(v, uid, t, m);
    assert(v.delivery_times.is_prefix_of(w.delivery_times));
    assert(v.first_to_last.is_prefix_of(w.first_to_last));
}

} // verus!
