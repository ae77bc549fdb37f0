//! The latency simulation: users send fragmented messages through mix
//! nodes, acknowledge them per fragment or per whole message, and resend
//! what is not acknowledged in time. One call of `step` handles the
//! earliest event; the random draws a step needs (routes through the
//! network, packet loss, acknowledgement timeouts) are made by the caller
//! and handed in.
use vstd::prelude::*;
use std::collections::HashSet;
use crate::sim::{
    copy_message, copy_packet, fragment_sets, has_message, insert_at_time, lemma_received, message_of, received, total_delay_spec, with_message, Ack,
    Content, Message, Node, NodeId, Packet, Timestamp, User, UserEvent, UserId,
};

verus! {

/// When acknowledgements are sent: for every fragment, or once for a whole
/// message.
#[derive(Debug, Clone, Copy, PartialEq, Eq, Structural)]
pub enum AckStrategy {
    PerFragment,
    WholeMessage,
}

/// The integer parameters of a simulation: the mean delay per hop, the
/// number of hops of every packet and the constant part of the
/// acknowledgement timeout.
#[derive(Debug, Clone, Copy)]
pub struct Config {
    pub delay_per_hop: u32,
    pub num_hops: u32,
    pub ack_addition: u32,
}

/// The delays and the nodes of one packet's route, innermost hop first.
#[derive(Debug)]
pub struct Route {
    pub delays: Vec<Timestamp>,
    pub hops: Vec<NodeId>,
}

/// The draws one step may need: the scaled delay part of an
/// acknowledgement timeout, whether a packet leaving a user survives, and
/// the routes of the packets the step builds, in the order it builds them.
#[derive(Debug)]
pub struct Draws {
    pub scaled_delay: u32,
    pub keep: bool,
    pub routes: Vec<Route>,
}

/// Why a step did nothing (or only dropped a stale packet).
#[derive(Debug, Clone, Copy, PartialEq, Eq, Structural)]
pub enum StepError {
    /// No node and no user has a pending event.
    NoMoreEvents,
    /// The earliest event lies before the current time.
    PastEvent,
}

/// Who has the earliest event.
#[derive(Debug, Clone, Copy, PartialEq, Eq, Structural)]
pub enum Next {
    Node(NodeId),
    User(UserId),
}

/// What the next step needs drawn.
#[derive(Debug, Clone, Copy, PartialEq, Eq, Structural)]
pub enum Upcoming {
    /// There is no event.
    Nothing,
    /// Nothing to draw.
    Plain,
    /// A packet leaves `user`: a timeout for a packet of `total_delay`, and
    /// whether the packet survives.
    Egress { user: UserId, total_delay: Timestamp },
    /// The step builds this many packets and needs as many routes.
    Packets(u64),
}

/// The simulation state.
#[derive(Debug)]
pub struct Simulation {
    pub timestamp: Timestamp,
    pub ack_strat: AckStrategy,
    pub config: Config,
    pub nodes: Vec<Node>,
    pub users: Vec<User>,
    pub delivery_times: Vec<Timestamp>,
    pub first_to_last: Vec<Timestamp>,
    pub next_message_id: u64,
    pub next_fragment_set: u64,
    pub packet_count: u64,
}

/// A route as delays and hops.
pub open spec fn route_view(r: Route) -> (Seq<Timestamp>, Seq<NodeId>) {
    (r.delays@, r.hops@)
}

/// The routes of a draw.
pub open spec fn routes_view(rs: Seq<Route>) -> Seq<(Seq<Timestamp>, Seq<NodeId>)> {
    Seq::new(rs.len(), |i: int| route_view(rs[i]))
}

/// Taking the first route off a draw takes the first view off.
pub proof fn lemma_routes_view_remove_first(rs: Seq<Route>)
    requires
        rs.len() > 0,
    ensures
        routes_view(rs.remove(0)) == routes_view(rs).drop_first(),
{
    assert(routes_view(rs.remove(0)) =~= routes_view(rs).drop_first());
}

/// A route long enough for packets of `k` hops.
pub open spec fn route_fits(r: (Seq<Timestamp>, Seq<NodeId>), k: nat) -> bool {
    r.0.len() >= k && r.1.len() >= k
}

/// `content` wrapped in `i` layers, the innermost going to `hops[0]` with
/// the last delay, each further one to the next hop with the delay before.
pub open spec fn wrap_layers(content: Content, delays: Seq<Timestamp>, hops: Seq<NodeId>, i: nat) -> Content
    decreases i,
{
    if i == 0 {
        content
    } else {
        Content::Packet(
            Box::new(
                Packet {
                    destination: hops[i - 1],
                    delay: delays[delays.len() - i],
                    content: wrap_layers(content, delays, hops, (i - 1) as nat),
                },
            ),
        )
    }
}

/// The packet of `k` hops that carries `content` along a route: the
/// outermost layer goes to `hops[k - 1]` with the first delay.
pub open spec fn routed_packet(content: Content, route: (Seq<Timestamp>, Seq<NodeId>), k: nat) -> Packet {
    Packet {
        destination: route.1[k - 1],
        delay: route.0[0],
        content: wrap_layers(content, route.0, route.1, (k - 1) as nat),
    }
}

/// Fragment `f` of a message of `n` fragments in set `set`, with message
/// identifier `id`, sent at `t` from `sender` to `recipient`, its
/// acknowledgement routed along `ack_route`.
pub open spec fn fragment_message(
    strat: AckStrategy,
    t: Timestamp,
    id: u64,
    set: u64,
    sender: UserId,
    recipient: UserId,
    f: u32,
    n: u32,
    ack_route: (Seq<Timestamp>, Seq<NodeId>),
    k: nat,
) -> Message {
    let ack = Ack { recipient: sender, message_id: if strat == AckStrategy::PerFragment { id } else { set } };
    Message {
        id,
        recipient,
        sender,
        sending_time: t,
        fragment_set: set,
        fragment_index: f,
        fragment_size: n,
        ack: Box::new(routed_packet(Content::Ack(Box::new(ack)), ack_route, k)),
    }
}

/// The packets of a message of `n` fragments: fragment `f` gets message
/// identifier `first_id + f` and routes `2 f` (acknowledgement) and
/// `2 f + 1` (message).
pub open spec fn message_packets(
    strat: AckStrategy,
    t: Timestamp,
    first_id: u64,
    set: u64,
    sender: UserId,
    recipient: UserId,
    n: u32,
    routes: Seq<(Seq<Timestamp>, Seq<NodeId>)>,
    k: nat,
) -> Seq<Packet> {
    Seq::new(
        n as nat,
        |f: int|
            routed_packet(
                Content::Message(
                    Box::new(
                        fragment_message(
                            strat,
                            t,
                            (first_id + f) as u64,
                            set,
                            sender,
                            recipient,
                            f as u32,
                            n,
                            routes[2 * f],
                            k,
                        ),
                    ),
                ),
                routes[2 * f + 1],
                k,
            ),
    )
}

/// The state of a user, by its contents.
pub struct UserView {
    pub events: Seq<(Timestamp, UserEvent)>,
    pub fragments: Map<u64, Set<u32>>,
    pub t_first: Map<u64, Timestamp>,
    pub original_messages: Map<u64, Message>,
}

/// The contents of a user.
pub open spec fn user_view(u: User) -> UserView {
    UserView {
        events: u.events@,
        fragments: fragment_sets(u),
        t_first: u.t_first@,
        original_messages: u.original_messages@,
    }
}

/// The state of a simulation, by its contents.
pub struct SimView {
    pub timestamp: Timestamp,
    pub ack_strat: AckStrategy,
    pub config: Config,
    pub nodes: Seq<Seq<(Timestamp, Packet)>>,
    pub users: Seq<UserView>,
    pub delivery_times: Seq<Timestamp>,
    pub first_to_last: Seq<Timestamp>,
    pub next_message_id: u64,
    pub next_fragment_set: u64,
    pub packet_count: u64,
}

impl View for Simulation {
    type V = SimView;

    open spec fn view(&self) -> SimView {
        SimView {
            timestamp: self.timestamp,
            ack_strat: self.ack_strat,
            config: self.config,
            nodes: Seq::new(self.nodes@.len(), |i: int| self.nodes@[i].ingress@),
            users: Seq::new(self.users@.len(), |i: int| user_view(self.users@[i])),
            delivery_times: self.delivery_times@,
            first_to_last: self.first_to_last@,
            next_message_id: self.next_message_id,
            next_fragment_set: self.next_fragment_set,
            packet_count: self.packet_count,
        }
    }
}

/// The contents of a draw.
pub struct DrawsView {
    pub scaled_delay: u32,
    pub keep: bool,
    pub routes: Seq<(Seq<Timestamp>, Seq<NodeId>)>,
}

impl View for Draws {
    type V = DrawsView;

    open spec fn view(&self) -> DrawsView {
        DrawsView { scaled_delay: self.scaled_delay, keep: self.keep, routes: routes_view(self.routes@) }
    }
}

/// Among the first `k` queues, the first one whose front entry is earliest,
/// with that entry's time.
pub open spec fn earliest<T>(qs: Seq<Seq<(Timestamp, T)>>, k: int) -> Option<(u64, Timestamp)>
    decreases k,
{
    if k <= 0 {
        None
    } else {
        let prev = earliest(qs, k - 1);
        if qs[k - 1].len() == 0 {
            prev
        } else {
            match prev {
                Some(p) => if qs[k - 1][0].0 < p.1 {
                    Some(((k - 1) as u64, qs[k - 1][0].0))
                } else {
                    prev
                },
                None => Some(((k - 1) as u64, qs[k - 1][0].0)),
            }
        }
    }
}

/// The event queues of the users.
pub open spec fn user_queues(v: SimView) -> Seq<Seq<(Timestamp, UserEvent)>> {
    Seq::new(v.users.len(), |i: int| v.users[i].events)
}

/// Who has the earliest event: a node only if its event is strictly
/// earlier than every user's.
pub open spec fn next_of(v: SimView) -> Option<Next> {
    let a = earliest(v.nodes, v.nodes.len() as int);
    let b = earliest(user_queues(v), v.users.len() as int);
    match (a, b) {
        (Some(x), Some(y)) => if x.1 < y.1 {
            Some(Next::Node(x.0))
        } else {
            Some(Next::User(y.0))
        },
        (None, Some(y)) => Some(Next::User(y.0)),
        (Some(x), None) => Some(Next::Node(x.0)),
        (None, None) => None,
    }
}

/// Whether an event is the timeout of acknowledgement `id`.
pub open spec fn is_timeout_for(e: UserEvent, id: u64) -> bool {
    e matches UserEvent::AckTimeout(x) && x == id
}

/// The events without the timeouts of acknowledgement `id`.
pub open spec fn drop_timeouts(q: Seq<(Timestamp, UserEvent)>, id: u64) -> Seq<(Timestamp, UserEvent)>
    decreases q.len(),
{
    if q.len() == 0 {
        q
    } else {
        let rest = drop_timeouts(q.drop_last(), id);
        if is_timeout_for(q.last().1, id) {
            rest
        } else {
            rest.push(q.last())
        }
    }
}

/// The events with the packets queued to leave at `t`, in order.
pub open spec fn queue_egress(q: Seq<(Timestamp, UserEvent)>, t: Timestamp, packets: Seq<Packet>) -> Seq<
    (Timestamp, UserEvent),
>
    decreases packets.len(),
{
    if packets.len() == 0 {
        q
    } else {
        insert_at_time(queue_egress(q, t, packets.drop_last()), t, UserEvent::Egress(packets.last()))
    }
}

/// A message wrapped in layers is still a message at the core.
pub proof fn lemma_routed_has_message(m: Message, route: (Seq<Timestamp>, Seq<NodeId>), k: nat)
    requires
        k >= 1,
    ensures
        has_message(routed_packet(Content::Message(Box::new(m)), route, k)),
{
    lemma_wrap_has_message(m, route.0, route.1, (k - 1) as nat);
}

proof fn lemma_wrap_has_message(m: Message, delays: Seq<Timestamp>, hops: Seq<NodeId>, i: nat)
    ensures
        match wrap_layers(Content::Message(Box::new(m)), delays, hops, i) {
            Content::Message(_) => true,
            Content::Packet(q) => has_message(*q),
            Content::Ack(_) => false,
        },
    decreases i,
{
    if i > 0 {
        lemma_wrap_has_message(m, delays, hops, (i - 1) as nat);
    }
}

/// Every layer of a packet goes to one of the first `nodes` nodes.
pub open spec fn layers_within(p: Packet, nodes: nat) -> bool
    decreases p,
{
    &&& p.destination < nodes
    &&& match p.content {
        Content::Packet(q) => layers_within(*q, nodes),
        _ => true,
    }
}

/// Layers wrapped along hops below `nodes` go to nodes below `nodes`.
proof fn lemma_wrap_within(content: Content, delays: Seq<Timestamp>, hops: Seq<NodeId>, i: nat, nodes: nat)
    requires
        !(content is Packet),
        hops.len() >= i,
        forall|j: int| 0 <= j < i ==> #[trigger] hops[j] < nodes,
    ensures
        match wrap_layers(content, delays, hops, i) {
            Content::Packet(q) => layers_within(*q, nodes),
            _ => true,
        },
    decreases i,
{
    if i > 0 {
        lemma_wrap_within(content, delays, hops, (i - 1) as nat, nodes);
    }
}

/// A message or acknowledgement routed along a route whose hops name
/// existing nodes travels through existing nodes only.
pub proof fn lemma_routed_within(content: Content, route: (Seq<Timestamp>, Seq<NodeId>), k: nat, nodes: nat)
    requires
        !(content is Packet),
        k >= 1,
        route_fits(route, k),
        hops_within(route, k, nodes),
    ensures
        layers_within(routed_packet(content, route, k), nodes),
{
    assert(route.1[k - 1] < nodes);
    lemma_wrap_within(content, route.0, route.1, (k - 1) as nat, nodes);
}

/// Fragment `f` of a message, and the acknowledgement packet it carries,
/// travel through the first `nodes` nodes only.
pub open spec fn fragment_within(
    strat: AckStrategy,
    t: Timestamp,
    first_id: u64,
    set: u64,
    sender: UserId,
    recipient: UserId,
    n: u32,
    routes: Seq<(Seq<Timestamp>, Seq<NodeId>)>,
    k: nat,
    nodes: nat,
    f: int,
) -> bool {
    &&& layers_within(message_packets(strat, t, first_id, set, sender, recipient, n, routes, k)[f], nodes)
    &&& layers_within(
        *fragment_message(strat, t, (first_id + f) as u64, set, sender, recipient, f as u32, n, routes[2 * f], k).ack,
        nodes,
    )
}

/// Every packet a step builds for a message, and the acknowledgement packet
/// each fragment carries, travels through existing nodes only, when the
/// drawn routes name existing nodes.
pub proof fn lemma_message_packets_within(
    strat: AckStrategy,
    t: Timestamp,
    first_id: u64,
    set: u64,
    sender: UserId,
    recipient: UserId,
    n: u32,
    d: DrawsView,
    k: nat,
    nodes: nat,
)
    requires
        k >= 1,
        routes_cover(d, 2 * n, k, nodes),
    ensures
        forall|f: int|
            0 <= f < n ==> #[trigger] fragment_within(strat, t, first_id, set, sender, recipient, n, d.routes, k, nodes, f),
{
    assert forall|f: int| 0 <= f < n implies #[trigger] fragment_within(
        strat,
        t,
        first_id,
        set,
        sender,
        recipient,
        n,
        d.routes,
        k,
        nodes,
        f,
    ) by {
        let m = fragment_message(strat, t, (first_id + f) as u64, set, sender, recipient, f as u32, n, d.routes[2 * f], k);
        let ack = Ack { recipient: sender, message_id: if strat == AckStrategy::PerFragment { (first_id + f) as u64 } else { set } };
        assert(route_fits(d.routes[2 * f], k) && hops_within(d.routes[2 * f], k, nodes));
        assert(route_fits(d.routes[2 * f + 1], k) && hops_within(d.routes[2 * f + 1], k, nodes));
        lemma_routed_within(Content::Ack(Box::new(ack)), d.routes[2 * f], k, nodes);
        lemma_routed_within(Content::Message(Box::new(m)), d.routes[2 * f + 1], k, nodes);
        assert(message_packets(strat, t, first_id, set, sender, recipient, n, d.routes, k)[f] == routed_packet(
            Content::Message(Box::new(m)),
            d.routes[2 * f + 1],
            k,
        ));
    }
}

/// The packet with the sending time of its message set to `s`.
pub open spec fn restamp(p: Packet, s: Timestamp) -> Packet {
    with_message(p, Message { sending_time: s, ..message_of(p) })
}

/// The fragment indices a user has of a set.
pub open spec fn received_view(u: UserView, set: u64) -> Set<u32> {
    if u.fragments.contains_key(set) {
        u.fragments[set]
    } else {
        Set::empty()
    }
}

/// The simulation with node `id`'s queue replaced.
pub open spec fn with_node(v: SimView, id: u64, q: Seq<(Timestamp, Packet)>) -> SimView {
    SimView { nodes: v.nodes.update(id as int, q), ..v }
}

/// The simulation with a packet queued at node `id` to leave at `t`.
pub open spec fn queue_at_node(v: SimView, id: u64, t: Timestamp, p: Packet) -> SimView {
    with_node(v, id, insert_at_time(v.nodes[id as int], t, p))
}

/// The simulation with user `id` replaced.
pub open spec fn with_user(v: SimView, id: u64, u: UserView) -> SimView {
    SimView { users: v.users.update(id as int, u), ..v }
}

/// The first packet of node `id` moves on: a message or acknowledgement
/// reaches its user, an inner packet is queued at its next node.
pub open spec fn node_step(v: SimView, id: u64) -> (SimView, Result<(), StepError>) {
    let q = v.nodes[id as int];
    let t = q[0].0;
    let p = q[0].1;
    let v0 = with_node(v, id, q.drop_first());
    if t < v.timestamp {
        (v0, Err(StepError::PastEvent))
    } else {
        let v1 = SimView { timestamp: t, ..v0 };
        let v2 = match p.content {
            Content::Message(m) => {
                let u = v1.users[m.recipient as int];
                with_user(
                    v1,
                    m.recipient,
                    UserView { events: insert_at_time(u.events, t, UserEvent::Message(*m)), ..u },
                )
            },
            Content::Ack(a) => {
                let u = v1.users[a.recipient as int];
                with_user(v1, a.recipient, UserView { events: drop_timeouts(u.events, a.message_id), ..u })
            },
            Content::Packet(inner) => queue_at_node(v1, inner.destination, (t + inner.delay) as u64, *inner),
        };
        (v2, Ok(()))
    }
}

/// A fragment reaches user `uid` at `t` (its event already taken off):
/// the first arrival of its set is noted, the fragment recorded, the
/// acknowledgement sent per fragment or once the set is complete, and the
/// delivery times of a complete set recorded.
pub open spec fn user_message_step(v: SimView, uid: u64, t: Timestamp, m: Message) -> SimView {
    let u = v.users[uid as int];
    let set = m.fragment_set;
    let t_first = if u.t_first.contains_key(set) {
        u.t_first
    } else {
        u.t_first.insert(set, t)
    };
    let ack = *m.ack;
    let v1 = if v.ack_strat == AckStrategy::PerFragment {
        SimView {
            packet_count: (v.packet_count + 1) as u64,
            ..queue_at_node(v, ack.destination, (t + ack.delay) as u64, ack)
        }
    } else {
        v
    };
    let frags = u.fragments.insert(set, received_view(u, set).insert(m.fragment_index));
    let u1 = UserView { t_first, fragments: frags, ..u };
    let v2 = with_user(v1, uid, u1);
    if frags[set].len() as u32 == m.fragment_size {
        let v3 = SimView {
            delivery_times: v2.delivery_times.push((t - m.sending_time) as u64),
            first_to_last: v2.first_to_last.push((t - t_first[set]) as u64),
            ..v2
        };
        if v.ack_strat == AckStrategy::WholeMessage {
            SimView {
                packet_count: (v3.packet_count + 1) as u64,
                ..queue_at_node(v3, ack.destination, (t + ack.delay) as u64, ack)
            }
        } else {
            v3
        }
    } else {
        v2
    }
}

/// A packet leaves user `uid` at `t`: the acknowledgement timeout is set
/// (per message, or once per fragment set), the packet enters the network
/// unless it is lost, and the packet count grows.
pub open spec fn user_egress_step(v: SimView, uid: u64, t: Timestamp, p: Packet, d: DrawsView) -> SimView {
    let u = v.users[uid as int];
    let timeout = d.scaled_delay + v.config.ack_addition;
    let m = message_of(p);
    let u1 = if v.ack_strat == AckStrategy::PerFragment {
        UserView {
            events: insert_at_time(u.events, (t + timeout) as u64, UserEvent::AckTimeout(m.id)),
            original_messages: u.original_messages.insert(m.id, m),
            ..u
        }
    } else if u.original_messages.contains_key(m.fragment_set) {
        u
    } else {
        UserView {
            events: insert_at_time(u.events, (t + timeout) as u64, UserEvent::AckTimeout(m.fragment_set)),
            original_messages: u.original_messages.insert(m.fragment_set, m),
            ..u
        }
    };
    let v1 = with_user(v, uid, u1);
    let v2 = if d.keep {
        queue_at_node(v1, p.destination, (t + p.delay) as u64, p)
    } else {
        v1
    };
    SimView { packet_count: (v2.packet_count + 1) as u64, ..v2 }
}

/// User `uid` sends a message of `n` fragments to user 1 at `t`: its
/// packets are queued to leave at once.
pub open spec fn user_send_step(v: SimView, uid: u64, t: Timestamp, n: u32, d: DrawsView) -> SimView {
    let packets = message_packets(
        v.ack_strat,
        t,
        v.next_message_id,
        v.next_fragment_set,
        uid,
        1,
        n,
        d.routes,
        v.config.num_hops as nat,
    );
    let u = v.users[uid as int];
    let v1 = SimView {
        next_message_id: (v.next_message_id + n) as u64,
        next_fragment_set: (v.next_fragment_set + 1) as u64,
        ..v
    };
    with_user(v1, uid, UserView { events: queue_egress(u.events, t, packets), ..u })
}

/// The acknowledgement `id` of user `uid` is overdue at `t`: per fragment,
/// the message is resent with a fresh identifier and acknowledgement; per
/// whole message, the recipient forgets the set and the whole message is
/// sent again in a fresh set, with its first sending time.
pub open spec fn user_timeout_step(v: SimView, uid: u64, t: Timestamp, id: u64, d: DrawsView) -> SimView {
    let u = v.users[uid as int];
    let m = u.original_messages[id];
    let u1 = UserView { original_messages: u.original_messages.remove(id), ..u };
    let v1 = with_user(v, uid, u1);
    let k = v.config.num_hops as nat;
    if v.ack_strat == AckStrategy::PerFragment {
        let new_id = v.next_message_id;
        let ack = Ack { recipient: uid, message_id: new_id };
        let m1 = Message {
            id: new_id,
            ack: Box::new(routed_packet(Content::Ack(Box::new(ack)), d.routes[0], k)),
            ..m
        };
        let packet = routed_packet(Content::Message(Box::new(m1)), d.routes[1], k);
        let v2 = SimView { next_message_id: (new_id + 1) as u64, ..v1 };
        with_user(
            v2,
            uid,
            UserView { events: insert_at_time(u1.events, t, UserEvent::Egress(packet)), ..u1 },
        )
    } else {
        let r = v1.users[m.recipient as int];
        let v2 = with_user(v1, m.recipient, UserView { fragments: r.fragments.remove(m.fragment_set), ..r });
        let packets = message_packets(
            v.ack_strat,
            t,
            v.next_message_id,
            v.next_fragment_set,
            m.sender,
            m.recipient,
            m.fragment_size,
            d.routes,
            k,
        );
        let stamped = Seq::new(packets.len(), |i: int| restamp(packets[i], m.sending_time));
        let v3 = SimView {
            next_message_id: (v.next_message_id + m.fragment_size) as u64,
            next_fragment_set: (v.next_fragment_set + 1) as u64,
            ..v2
        };
        let w = v3.users[uid as int];
        with_user(v3, uid, UserView { events: queue_egress(w.events, t, stamped), ..w })
    }
}

/// The first event of user `uid` happens.
pub open spec fn user_step(v: SimView, uid: u64, d: DrawsView) -> (SimView, Result<(), StepError>) {
    let u = v.users[uid as int];
    let t = u.events[0].0;
    let e = u.events[0].1;
    if t < v.timestamp {
        (v, Err(StepError::PastEvent))
    } else {
        let v1 = with_user(SimView { timestamp: t, ..v }, uid, UserView { events: u.events.drop_first(), ..u });
        let v2 = match e {
            UserEvent::Message(m) => user_message_step(v1, uid, t, m),
            UserEvent::Egress(p) => user_egress_step(v1, uid, t, p, d),
            UserEvent::SendMessage(n) => user_send_step(v1, uid, t, n, d),
            UserEvent::AckTimeout(id) => user_timeout_step(v1, uid, t, id, d),
        };
        (v2, Ok(()))
    }
}

/// One step of the simulation: the earliest event happens.
pub open spec fn step_spec(v: SimView, d: DrawsView) -> (SimView, Result<(), StepError>) {
    match next_of(v) {
        None => (v, Err(StepError::NoMoreEvents)),
        Some(Next::Node(id)) => node_step(v, id),
        Some(Next::User(uid)) => user_step(v, uid, d),
    }
}

/// The node event at `t` with packet `p` can be handled: its user or next
/// node exists and its next time fits.
pub open spec fn node_event_ok(v: SimView, t: Timestamp, p: Packet) -> bool {
    match p.content {
        Content::Message(m) => m.recipient < v.users.len(),
        Content::Ack(a) => a.recipient < v.users.len(),
        Content::Packet(q) => q.destination < v.nodes.len() && t + q.delay <= u64::MAX,
    }
}

/// The first `k` hops of a route name nodes among the first `nodes`.
pub open spec fn hops_within(r: (Seq<Timestamp>, Seq<NodeId>), k: nat, nodes: nat) -> bool {
    forall|j: int| 0 <= j < k ==> #[trigger] r.1[j] < nodes
}

/// The routes of a draw cover `n` packets of `k` hops through the first
/// `nodes` nodes.
pub open spec fn routes_cover(d: DrawsView, n: int, k: nat, nodes: nat) -> bool {
    &&& d.routes.len() >= n
    &&& forall|i: int| 0 <= i < n ==> route_fits(#[trigger] d.routes[i], k) && hops_within(d.routes[i], k, nodes)
}

/// The event `e` of user `uid` at `t` can be handled in state `v` (the
/// event already taken off, the clock at `t`): the nodes and users it
/// names exist, the routes cover the packets it builds, and no counter or
/// time overflows.
pub open spec fn user_event_ok(v: SimView, uid: u64, t: Timestamp, e: UserEvent, d: DrawsView) -> bool {
    let u = v.users[uid as int];
    let k = v.config.num_hops as nat;
    match e {
        UserEvent::Message(m) => {
            let ack = *m.ack;
            let set = m.fragment_set;
            let tf = if u.t_first.contains_key(set) {
                u.t_first[set]
            } else {
                t
            };
            let ack_ok = ack.destination < v.nodes.len() && t + ack.delay <= u64::MAX;
            &&& v.ack_strat == AckStrategy::PerFragment ==> ack_ok && v.packet_count < u64::MAX
            &&& received_view(u, set).insert(m.fragment_index).len() as u32 == m.fragment_size ==> {
                &&& m.sending_time <= t
                &&& tf <= t
                &&& v.ack_strat == AckStrategy::WholeMessage ==> ack_ok && v.packet_count < u64::MAX
            }
        },
        UserEvent::Egress(p) => {
            let timeout = d.scaled_delay + v.config.ack_addition;
            &&& p.destination < v.nodes.len()
            &&& has_message(p)
            &&& total_delay_spec(p) <= u64::MAX
            &&& timeout <= u32::MAX
            &&& (v.ack_strat == AckStrategy::PerFragment || !u.original_messages.contains_key(
                message_of(p).fragment_set,
            )) ==> t + timeout <= u64::MAX
            &&& d.keep ==> t + p.delay <= u64::MAX
            &&& v.packet_count < u64::MAX
        },
        UserEvent::SendMessage(n) => {
            &&& v.next_fragment_set < u64::MAX
            &&& v.next_message_id + n <= u64::MAX
            &&& n > 0 ==> k >= 1
            &&& routes_cover(d, 2 * n, k, v.nodes.len())
        },
        UserEvent::AckTimeout(id) => {
            &&& u.original_messages.contains_key(id)
            &&& v.ack_strat == AckStrategy::PerFragment ==> {
                &&& v.next_message_id < u64::MAX
                &&& k >= 1
                &&& routes_cover(d, 2, k, v.nodes.len())
            }
            &&& v.ack_strat == AckStrategy::WholeMessage ==> {
                let m = u.original_messages[id];
                &&& m.recipient < v.users.len()
                &&& v.next_fragment_set < u64::MAX
                &&& v.next_message_id + m.fragment_size <= u64::MAX
                &&& m.fragment_size > 0 ==> k >= 1
                &&& routes_cover(d, 2 * m.fragment_size, k, v.nodes.len())
            }
        },
    }
}

/// The next step can be taken without failing: its event names nodes and
/// users that exist, the draws cover it, and nothing overflows.
pub open spec fn step_ok(v: SimView, d: DrawsView) -> bool {
    match next_of(v) {
        None => true,
        Some(Next::Node(id)) => {
            let q = v.nodes[id as int];
            q[0].0 < v.timestamp || node_event_ok(SimView { timestamp: q[0].0, ..v }, q[0].0, q[0].1)
        },
        Some(Next::User(uid)) => {
            let u = v.users[uid as int];
            let t = u.events[0].0;
            t < v.timestamp || user_event_ok(
                with_user(SimView { timestamp: t, ..v }, uid, UserView { events: u.events.drop_first(), ..u }),
                uid,
                t,
                u.events[0].1,
                d,
            )
        },
    }
}

/// The earliest queue is one of the queues, and its front entry is the
/// earliest.
pub proof fn lemma_earliest<T>(qs: Seq<Seq<(Timestamp, T)>>, k: int)
    requires
        0 <= k <= qs.len(),
        qs.len() <= u64::MAX,
    ensures
        earliest(qs, k) matches Some(p) ==> 0 <= p.0 < k && qs[p.0 as int].len() > 0 && qs[p.0 as int][0].0
            == p.1,
    decreases k,
{
    if k > 0 {
        lemma_earliest(qs, k - 1);
    }
}

/// Who has the earliest event names an existing node or user with a
/// pending event.
pub proof fn lemma_next_of(v: SimView)
    requires
        v.nodes.len() <= u64::MAX,
        v.users.len() <= u64::MAX,
    ensures
        next_of(v) matches Some(Next::Node(id)) ==> id < v.nodes.len() && v.nodes[id as int].len() > 0,
        next_of(v) matches Some(Next::User(id)) ==> id < v.users.len() && v.users[id as int].events.len() > 0,
{
    lemma_earliest(v.nodes, v.nodes.len() as int);
    lemma_earliest(user_queues(v), v.users.len() as int);
}

/// Removes the timeouts of acknowledgement `id` from a queue of events,
/// keeping the order of the rest.
pub fn remove_timeouts(q: &mut Vec<(Timestamp, UserEvent)>, id: u64)
    ensures
        final(q)@ == drop_timeouts(old(q)@, id),
{
    let ghost s = q@;
    let n0 = q.len();
    let mut reversed: Vec<(Timestamp, UserEvent)> = Vec::new();
    while q.len() > 0
        invariant
            q@.len() + reversed@.len() == s.len(),
            q@ == s.take(q@.len() as int),
            forall|j: int| 0 <= j < reversed@.len() ==> #[trigger] reversed@[j] == s[s.len() - 1 - j],
        decreases q@.len(),
    {
        let x = match q.pop() {
            Some(v) => v,
            None => { unreached() },
        };
        reversed.push(x);
        assert(q@ =~= s.take(q@.len() as int));
    }
    let mut k: usize = 0;
    while reversed.len() > 0
        invariant
            reversed@.len() + k == s.len(),
            s.len() == n0,
            forall|j: int| 0 <= j < reversed@.len() ==> #[trigger] reversed@[j] == s[s.len() - 1 - j],
            q@ == drop_timeouts(s.take(k as int), id),
        decreases reversed@.len(),
    {
        let x = match reversed.pop() {
            Some(v) => v,
            None => { unreached() },
        };
        assert(x == s[k as int]);
        assert(s.take(k + 1).drop_last() =~= s.take(k as int));
        let keep = match &x.1 {
            UserEvent::AckTimeout(other) => *other != id,
            _ => true,
        };
        if keep {
            q.push(x);
        }
        k = k + 1;
    }
    assert(s.take(k as int) =~= s);
}

/// What the next step needs drawn.
pub open spec fn upcoming_spec(v: SimView) -> Upcoming {
    match next_of(v) {
        None => Upcoming::Nothing,
        Some(Next::Node(_)) => Upcoming::Plain,
        Some(Next::User(uid)) => {
            let u = v.users[uid as int];
            let t = u.events[0].0;
            if t < v.timestamp {
                Upcoming::Plain
            } else {
                match u.events[0].1 {
                    UserEvent::Egress(p) => if total_delay_spec(p) <= u64::MAX {
                        Upcoming::Egress { user: uid, total_delay: total_delay_spec(p) as u64 }
                    } else {
                        Upcoming::Plain
                    },
                    UserEvent::SendMessage(n) => Upcoming::Packets((2 * n) as u64),
                    UserEvent::AckTimeout(id) => if v.ack_strat == AckStrategy::PerFragment {
                        Upcoming::Packets(2)
                    } else if u.original_messages.contains_key(id) {
                        Upcoming::Packets((2 * u.original_messages[id].fragment_size) as u64)
                    } else {
                        Upcoming::Plain
                    },
                    UserEvent::Message(_) => Upcoming::Plain,
                }
            }
        },
    }
}

/// The delay of a packet over all its layers, unless it overflows.
pub fn checked_total_delay(p: &Packet) -> (res: Option<Timestamp>)
    ensures
        res is Some <==> total_delay_spec(*p) <= u64::MAX,
        res matches Some(x) ==> x == total_delay_spec(*p),
    decreases p,
{
    match &p.content {
        Content::Packet(q) => match checked_total_delay(q) {
            Some(x) => p.delay.checked_add(x),
            None => None,
        },
        _ => Some(p.delay),
    }
}

/// Whether the innermost content of a packet is a message.
pub fn carries_message(p: &Packet) -> (res: bool)
    ensures
        res == has_message(*p),
    decreases p,
{
    match &p.content {
        Content::Packet(q) => carries_message(q),
        Content::Message(_) => true,
        Content::Ack(_) => false,
    }
}

/// Whether the first `k` hops name nodes below `nodes`.
fn hops_below(hops: &Vec<NodeId>, k: u32, nodes: u64) -> (res: bool)
    requires
        hops@.len() >= k,
    ensures
        res == (forall|j: int| 0 <= j < k ==> #[trigger] hops@[j] < nodes),
{
    let mut j: usize = 0;
    while j < k as usize
        invariant
            j <= k,
            hops@.len() >= k,
            forall|m: int| 0 <= m < j ==> #[trigger] hops@[m] < nodes,
        decreases k - j,
    {
        if hops[j] >= nodes {
            return false;
        }
        j = j + 1;
    }
    true
}

/// Whether the first `n` routes exist, have at least `k` delays and hops
/// each, and their first `k` hops name nodes below `nodes`.
pub fn routes_fit(routes: &Vec<Route>, n: u64, k: u32, nodes: u64) -> (res: bool)
    ensures
        res == routes_cover(
            DrawsView { scaled_delay: 0, keep: false, routes: routes_view(routes@) },
            n as int,
            k as nat,
            nodes as nat,
        ),
{
    let len = routes.len();
    if (len as u64) < n {
        return false;
    }
    let mut i: usize = 0;
    while (i as u64) < n
        invariant
            n <= len,
            len == routes@.len(),
            i <= n,
            forall|j: int|
                0 <= j < i ==> route_fits(#[trigger] routes_view(routes@)[j], k as nat) && hops_within(
                    routes_view(routes@)[j],
                    k as nat,
                    nodes as nat,
                ),
        decreases n - i,
    {
        let r = &routes[i];
        assert(routes_view(routes@)[i as int] == route_view(*r));
        if r.delays.len() < k as usize || r.hops.len() < k as usize {
            assert(!route_fits(routes_view(routes@)[i as int], k as nat));
            return false;
        }
        if !hops_below(&r.hops, k, nodes) {
            assert(routes_view(routes@)[i as int].1 == r.hops@);
            let ghost j = choose|j: int| 0 <= j < k && !(r.hops@[j] < nodes);
            assert(!(routes_view(routes@)[i as int].1[j] < nodes));
            assert(!hops_within(routes_view(routes@)[i as int], k as nat, nodes as nat));
            return false;
        }
        i = i + 1;
    }
    true
}

impl Simulation {
    /// What the next step needs drawn: nothing, the timeout and survival of
    /// a packet leaving a user, or the routes of the packets it builds.
    pub fn upcoming(&self) -> (res: Upcoming)
        ensures
            res == upcoming_spec(self@),
    {
        let n_nodes = self.nodes.len();
        let n_users = self.users.len();
        proof {
            lemma_next_of(self@);
        }
        match self.next() {
            None => Upcoming::Nothing,
            Some(Next::Node(_)) => Upcoming::Plain,
            Some(Next::User(uid)) => {
                let u = &self.users[uid as usize];
                assert(user_view(*u) == self@.users[uid as int]);
                let t = u.events[0].0;
                if t < self.timestamp {
                    return Upcoming::Plain;
                }
                match &u.events[0].1 {
                    UserEvent::Egress(p) => match checked_total_delay(p) {
                        Some(total_delay) => Upcoming::Egress { user: uid, total_delay },
                        None => Upcoming::Plain,
                    },
                    UserEvent::SendMessage(n) => Upcoming::Packets(2 * (*n as u64)),
                    UserEvent::AckTimeout(id) => {
                        if self.ack_strat == AckStrategy::PerFragment {
                            Upcoming::Packets(2)
                        } else {
                            match u.original_messages.get(id) {
                                Some(m) => Upcoming::Packets(2 * (m.fragment_size as u64)),
                                None => Upcoming::Plain,
                            }
                        }
                    },
                    UserEvent::Message(_) => Upcoming::Plain,
                }
            },
        }
    }

    /// How many fragments of set `set` user `ui` would have with fragment
    /// `index` added, as a `u32`; the user is left as it was.
    fn count_with(&mut self, ui: usize, set: u64, index: u32) -> (res: u32)
        requires
            ui < old(self).users@.len(),
        ensures
            final(self)@ == old(self)@,
            res == received_view(old(self)@.users[ui as int], set).insert(index).len() as u32,
    {
        let ghost v = self@;
        let ghost before = self.users@[ui as int];
        assert(user_view(before) == v.users[ui as int]);
        proof {
            lemma_received(before, set);
        }
        let (mut indices, existed) = match self.users[ui].fragments.remove(&set) {
            Some(x) => (x, true),
            None => (HashSet::new(), false),
        };
        let ghost r = indices@;
        assert(r == received_view(v.users[ui as int], set));
        let was_there = indices.contains(&index);
        indices.insert(index);
        let count = indices.len() as u32;
        if !was_there {
            indices.remove(&index);
            assert(indices@ =~= r);
        } else {
            assert(indices@ =~= r);
        }
        if existed {
            self.users[ui].fragments.insert(set, indices);
        }
        assert(fragment_sets(self.users@[ui as int]) =~= fragment_sets(before));
        assert(user_view(self.users@[ui as int]) == v.users[ui as int]);
        assert(self@.users =~= v.users);
        assert(self@.nodes =~= v.nodes);
        count
    }

    /// Whether `step` can be taken with these draws without failing. The
    /// state is left as it was.
    pub fn can_step(&mut self, draws: &Draws) -> (res: bool)
        ensures
            final(self)@ == old(self)@,
            res == step_ok(old(self)@, draws@),
    {
        let ghost v = self@;
        let ghost d = draws@;
        let n_nodes = self.nodes.len();
        let n_users = self.users.len();
        proof {
            lemma_next_of(self@);
        }
        match self.next() {
            None => true,
            Some(Next::Node(id)) => {
                let q = &self.nodes[id as usize].ingress;
                assert(q@ == v.nodes[id as int]);
                let t = q[0].0;
                if t < self.timestamp {
                    return true;
                }
                match &q[0].1.content {
                    Content::Message(m) => m.recipient < n_users as u64,
                    Content::Ack(a) => a.recipient < n_users as u64,
                    Content::Packet(inner) => inner.destination < n_nodes as u64 && inner.delay <= u64::MAX - t,
                }
            },
            Some(Next::User(uid)) => {
                let u = &self.users[uid as usize];
                assert(user_view(*u) == v.users[uid as int]);
                let t = u.events[0].0;
                if t < self.timestamp {
                    return true;
                }
                let ghost u0 = v.users[uid as int];
                let ghost v1 = with_user(
                    SimView { timestamp: t, ..v },
                    uid,
                    UserView { events: u0.events.drop_first(), ..u0 },
                );
                assert(v1.users[uid as int].t_first == u0.t_first);
                let k = self.config.num_hops;
                let pc_ok = self.packet_count < u64::MAX;
                match &u.events[0].1 {
                    UserEvent::Message(m) => {
                        let set = m.fragment_set;
                        let tf = match u.t_first.get(&set) {
                            Some(x) => *x,
                            None => t,
                        };
                        let ack_ok = m.ack.destination < n_nodes as u64 && m.ack.delay <= u64::MAX - t;
                        proof {
                            lemma_received(*u, set);
                        }
                        let sending_time = m.sending_time;
                        let index = m.fragment_index;
                        let fragment_size = m.fragment_size;
                        let size_after = self.count_with(uid as usize, set, index);
                        let complete = size_after == fragment_size;
                        (self.ack_strat != AckStrategy::PerFragment || (ack_ok && pc_ok)) && (!complete || (
                        sending_time <= t && tf <= t && (self.ack_strat != AckStrategy::WholeMessage || (ack_ok
                            && pc_ok))))
                    },
                    UserEvent::Egress(p) => {
                        if !(p.destination < n_nodes as u64) || !carries_message(p) {
                            return false;
                        }
                        if checked_total_delay(p).is_none() {
                            return false;
                        }
                        let timeout = draws.scaled_delay as u64 + self.config.ack_addition as u64;
                        if timeout > u32::MAX as u64 {
                            return false;
                        }
                        let set = p.message().fragment_set;
                        let sets_timeout = self.ack_strat == AckStrategy::PerFragment
                            || !u.original_messages.contains_key(&set);
                        (!sets_timeout || timeout <= u64::MAX - t) && (!draws.keep || p.delay <= u64::MAX - t) && pc_ok
                    },
                    UserEvent::SendMessage(n) => {
                        self.next_fragment_set < u64::MAX && self.next_message_id <= u64::MAX - (*n as u64) && (
                        *n == 0 || k >= 1) && routes_fit(&draws.routes, 2 * (*n as u64), k, n_nodes as u64)
                    },
                    UserEvent::AckTimeout(id) => {
                        match u.original_messages.get(id) {
                            None => false,
                            Some(m) => {
                                if self.ack_strat == AckStrategy::PerFragment {
                                    self.next_message_id < u64::MAX && k >= 1 && routes_fit(&draws.routes, 2, k, n_nodes as u64)
                                } else {
                                    m.recipient < n_users as u64 && self.next_fragment_set < u64::MAX
                                        && self.next_message_id <= u64::MAX - (m.fragment_size as u64) && (
                                    m.fragment_size == 0 || k >= 1) && routes_fit(
                                        &draws.routes,
                                        2 * (m.fragment_size as u64),
                                        k,
                                        n_nodes as u64,
                                    )
                                }
                            },
                        }
                    },
                }
            },
        }
    }

    /// Who has the earliest event: the first node (by identifier) whose next
    /// packet is earliest, unless some user's next event is no later, then
    /// the first user whose next event is earliest.
    fn next(&self) -> (res: Option<Next>)
        ensures
            res == next_of(self@),
    {
        let ghost v = self@;
        let mut best_node: Option<(u64, Timestamp)> = None;
        let mut i: usize = 0;
        while i < self.nodes.len()
            invariant
                v == self@,
                i <= self.nodes@.len(),
                best_node == earliest(v.nodes, i as int),
            decreases self.nodes@.len() - i,
        {
            match self.nodes[i].next() {
                Some(t) => {
                    best_node = match best_node {
                        Some(b) => if t < b.1 {
                            Some((i as u64, t))
                        } else {
                            Some(b)
                        },
                        None => Some((i as u64, t)),
                    };
                },
                None => {},
            }
            i = i + 1;
        }
        let mut best_user: Option<(u64, Timestamp)> = None;
        let mut j: usize = 0;
        while j < self.users.len()
            invariant
                v == self@,
                j <= self.users@.len(),
                best_user == earliest(user_queues(v), j as int),
            decreases self.users@.len() - j,
        {
            match self.users[j].next() {
                Some(t) => {
                    best_user = match best_user {
                        Some(b) => if t < b.1 {
                            Some((j as u64, t))
                        } else {
                            Some(b)
                        },
                        None => Some((j as u64, t)),
                    };
                },
                None => {},
            }
            j = j + 1;
        }
        match (best_node, best_user) {
            (Some(a), Some(b)) => if a.1 < b.1 {
                Some(Next::Node(a.0))
            } else {
                Some(Next::User(b.0))
            },
            (None, Some(b)) => Some(Next::User(b.0)),
            (Some(a), None) => Some(Next::Node(a.0)),
            (None, None) => None,
        }
    }

    /// The first packet of node `id` moves on.
    fn node_event(&mut self, id: u64) -> (res: Result<(), StepError>)
        requires
            id < old(self).nodes@.len(),
            old(self)@.nodes[id as int].len() > 0,
            old(self)@.nodes[id as int][0].0 >= old(self).timestamp ==> node_event_ok(
                SimView { timestamp: old(self)@.nodes[id as int][0].0, ..old(self)@ },
                old(self)@.nodes[id as int][0].0,
                old(self)@.nodes[id as int][0].1,
            ),
        ensures
            (final(self)@, res) == node_step(old(self)@, id),
    {
        let ghost v = self@;
        let n_nodes = self.nodes.len();
        let n_users = self.users.len();
        let idx = id as usize;
        assert(v.nodes[idx as int] == self.nodes@[idx as int].ingress@);
        let t = match self.nodes[idx].next() {
            Some(t) => t,
            None => { unreached() },
        };
        if t < self.timestamp {
            let _ = self.nodes[idx].pop();
            assert(self.nodes@.len() == v.nodes.len());
            assert(self.nodes@[idx as int].ingress@ == v.nodes[id as int].drop_first());
            assert forall|j: int| 0 <= j < v.nodes.len() && j != idx implies self.nodes@[j] == old(self).nodes@[j] by {}
            assert(self@.nodes =~= v.nodes.update(id as int, v.nodes[id as int].drop_first()));
            return Err(StepError::PastEvent);
        }
        self.timestamp = t;
        let packet = match self.nodes[idx].pop() {
            Some(p) => p,
            None => { unreached() },
        };
        let ghost v1 = SimView { timestamp: t, ..with_node(v, id, v.nodes[id as int].drop_first()) };
        assert(self@.nodes =~= v1.nodes);
        assert(self@.users =~= v1.users);
        assert(self@ == v1);
        match packet.content {
            Content::Message(msg) => {
                let r = msg.recipient as usize;
                self.users[r].insert(t, UserEvent::Message(*msg));
                assert(self@.users =~= v1.users.update(
                    r as int,
                    UserView { events: insert_at_time(v1.users[r as int].events, t, UserEvent::Message(*msg)), ..v1.users[r as int] },
                ));
                assert(self@.nodes =~= v1.nodes);
            },
            Content::Ack(ack) => {
                let r = ack.recipient as usize;
                remove_timeouts(&mut self.users[r].events, ack.message_id);
                assert(self@.users =~= v1.users.update(
                    r as int,
                    UserView { events: drop_timeouts(v1.users[r as int].events, ack.message_id), ..v1.users[r as int] },
                ));
                assert(self@.nodes =~= v1.nodes);
            },
            Content::Packet(inner) => {
                let d = inner.destination as usize;
                let at = t + inner.delay;
                self.nodes[d].insert(at, *inner);
                assert(self@.nodes =~= v1.nodes.update(d as int, insert_at_time(v1.nodes[d as int], at, *inner)));
                assert(self@.users =~= v1.users);
            },
        }
        Ok(())
    }

    /// A fragment reaches user `ui` now.
    fn on_message(&mut self, ui: usize, m: Message)
        requires
            ui < old(self).users@.len(),
            user_event_ok(old(self)@, ui as u64, old(self).timestamp, UserEvent::Message(m), DrawsView {
                scaled_delay: 0,
                keep: false,
                routes: Seq::empty(),
            }),
        ensures
            final(self)@ == user_message_step(old(self)@, ui as u64, old(self).timestamp, m),
    {
        let ghost v = self@;
        let n_nodes = self.nodes.len();
        let t = self.timestamp;
        let set = m.fragment_set;
        assert(user_view(self.users@[ui as int]) == v.users[ui as int]);
        if !self.users[ui].t_first.contains_key(&set) {
            self.users[ui].t_first.insert(set, t);
        }
        let ghost t_first = if v.users[ui as int].t_first.contains_key(set) {
            v.users[ui as int].t_first
        } else {
            v.users[ui as int].t_first.insert(set, t)
        };
        assert(self.users@[ui as int].t_first@ == t_first);
        let ack = m.ack;
        let ghost v1 = if v.ack_strat == AckStrategy::PerFragment {
            SimView {
                packet_count: (v.packet_count + 1) as u64,
                ..queue_at_node(v, ack.destination, (t + ack.delay) as u64, *ack)
            }
        } else {
            v
        };
        if self.ack_strat == AckStrategy::PerFragment {
            let d = ack.destination as usize;
            let at = t + ack.delay;
            self.nodes[d].insert(at, copy_packet(&ack));
            self.packet_count = self.packet_count + 1;
        }
        assert(self@.nodes =~= v1.nodes);
        let ghost before = self.users@[ui as int];
        proof {
            lemma_received(before, set);
        }
        self.users[ui].mark_fragment(set, m.fragment_index);
        proof {
            lemma_received(self.users@[ui as int], set);
        }
        let ghost u = v.users[ui as int];
        assert(fragment_sets(before) == u.fragments);
        let ghost frags = u.fragments.insert(set, received_view(u, set).insert(m.fragment_index));
        assert(received(self.users@[ui as int], set) == frags[set]);
        let ghost v2 = with_user(v1, ui as u64, UserView { t_first, fragments: frags, ..u });
        assert(user_view(self.users@[ui as int]) == UserView { t_first, fragments: frags, ..u });
        assert(self@.users =~= v2.users);
        assert(self@ == v2);
        if self.users[ui].fragment_set_size(set) == m.fragment_size {
            let delivery_time = t - m.sending_time;
            let first = match self.users[ui].t_first.get(&set) {
                Some(x) => *x,
                None => { unreached() },
            };
            let ftl = t - first;
            self.delivery_times.push(delivery_time);
            self.first_to_last.push(ftl);
            if self.ack_strat == AckStrategy::WholeMessage {
                let d = ack.destination as usize;
                let at = t + ack.delay;
                self.nodes[d].insert(at, *ack);
                self.packet_count = self.packet_count + 1;
                assert(self@.nodes =~= v2.nodes.update(d as int, insert_at_time(v2.nodes[d as int], at, *ack)));
            }
        }
    }

    /// A packet leaves user `ui` now.
    fn on_egress(&mut self, ui: usize, p: Packet, scaled_delay: u32, keep: bool)
        requires
            ui < old(self).users@.len(),
            user_event_ok(old(self)@, ui as u64, old(self).timestamp, UserEvent::Egress(p), DrawsView {
                scaled_delay,
                keep,
                routes: Seq::empty(),
            }),
        ensures
            final(self)@ == user_egress_step(old(self)@, ui as u64, old(self).timestamp, p, DrawsView {
                scaled_delay,
                keep,
                routes: Seq::empty(),
            }),
    {
        let ghost v = self@;
        let ghost d = DrawsView { scaled_delay, keep, routes: Seq::empty() };
        let n_nodes = self.nodes.len();
        let t = self.timestamp;
        let dest = p.destination as usize;
        let _total_delay = p.total_delay();
        let timeout: u32 = scaled_delay + self.config.ack_addition;
        assert(user_view(self.users@[ui as int]) == v.users[ui as int]);
        let ghost u = v.users[ui as int];
        let ghost m = message_of(p);
        match self.ack_strat {
            AckStrategy::PerFragment => {
                let message = copy_message(p.message());
                let id = message.id;
                self.users[ui].insert(t + timeout as u64, UserEvent::AckTimeout(id));
                self.users[ui].original_messages.insert(id, message);
                assert(user_view(self.users@[ui as int]) == UserView {
                    events: insert_at_time(u.events, (t + timeout) as u64, UserEvent::AckTimeout(m.id)),
                    original_messages: u.original_messages.insert(m.id, m),
                    ..u
                });
            },
            AckStrategy::WholeMessage => {
                let set = p.message().fragment_set;
                if !self.users[ui].original_messages.contains_key(&set) {
                    let message = copy_message(p.message());
                    self.users[ui].original_messages.insert(set, message);
                    self.users[ui].insert(t + timeout as u64, UserEvent::AckTimeout(set));
                    assert(user_view(self.users@[ui as int]) == UserView {
                        events: insert_at_time(u.events, (t + timeout) as u64, UserEvent::AckTimeout(m.fragment_set)),
                        original_messages: u.original_messages.insert(m.fragment_set, m),
                        ..u
                    });
                }
            },
        }
        let ghost u1 = user_view(self.users@[ui as int]);
        let ghost v1 = with_user(v, ui as u64, u1);
        assert(self@.users =~= v1.users);
        assert(self@.nodes =~= v1.nodes);
        if keep {
            let at = t + p.delay;
            self.nodes[dest].insert(at, p);
            assert(self@.nodes =~= v1.nodes.update(dest as int, insert_at_time(v1.nodes[dest as int], at, p)));
        }
        self.packet_count = self.packet_count + 1;
    }

    /// Queues the packets to leave user `ui` now, in order.
    fn queue_packets(&mut self, ui: usize, packets: Vec<Packet>)
        requires
            ui < old(self).users@.len(),
        ensures
            final(self)@ == with_user(
                old(self)@,
                ui as u64,
                UserView {
                    events: queue_egress(old(self)@.users[ui as int].events, old(self).timestamp, packets@),
                    ..old(self)@.users[ui as int]
                },
            ),
    {
        let ghost v = self@;
        let ghost ps = packets@;
        let t = self.timestamp;
        let mut packets = packets;
        let mut k: usize = 0;
        let n = packets.len();
        assert(ps.take(0) =~= Seq::<Packet>::empty());
        assert(queue_egress(v.users[ui as int].events, t, ps.take(0)) == v.users[ui as int].events);
        assert(self@.users =~= with_user(
            v,
            ui as u64,
            UserView { events: queue_egress(v.users[ui as int].events, t, ps.take(0)), ..v.users[ui as int] },
        ).users);
        while packets.len() > 0
            invariant
                ui < self.users@.len(),
                self.users@.len() == v.users.len(),
                k + packets@.len() == ps.len(),
                n == ps.len(),
                packets@ == ps.skip(k as int),
                self.timestamp == t,
                t == v.timestamp,
                self@ == with_user(
                    v,
                    ui as u64,
                    UserView { events: queue_egress(v.users[ui as int].events, t, ps.take(k as int)), ..v.users[ui as int] },
                ),
            decreases packets@.len(),
        {
            let packet = packets.remove(0);
            assert(ps.take(k + 1).drop_last() =~= ps.take(k as int));
            assert(packet == ps[k as int]);
            let ghost before = self@;
            assert(before.users[ui as int] == UserView {
                events: queue_egress(v.users[ui as int].events, t, ps.take(k as int)),
                ..v.users[ui as int]
            });
            self.users[ui].insert(t, UserEvent::Egress(packet));
            k = k + 1;
            assert(packets@ =~= ps.skip(k as int));
            assert(ps.take(k as int).last() == packet);
            assert(queue_egress(v.users[ui as int].events, t, ps.take(k as int)) == insert_at_time(
                queue_egress(v.users[ui as int].events, t, ps.take(k - 1)),
                t,
                UserEvent::Egress(packet),
            ));
            assert(self@.users =~= before.users.update(
                ui as int,
                UserView {
                    events: insert_at_time(before.users[ui as int].events, t, UserEvent::Egress(packet)),
                    ..before.users[ui as int]
                },
            ));
            assert(self@.users =~= with_user(
                v,
                ui as u64,
                UserView { events: queue_egress(v.users[ui as int].events, t, ps.take(k as int)), ..v.users[ui as int] },
            ).users);
        }
        assert(ps.take(k as int) =~= ps);
    }

    /// User `ui` sends a message of `n` fragments to user 1 now.
    fn on_send(&mut self, ui: usize, n: u32, routes: Vec<Route>)
        requires
            ui < old(self).users@.len(),
            user_event_ok(old(self)@, ui as u64, old(self).timestamp, UserEvent::SendMessage(n), DrawsView {
                scaled_delay: 0,
                keep: false,
                routes: routes_view(routes@),
            }),
        ensures
            final(self)@ == user_send_step(old(self)@, ui as u64, old(self).timestamp, n, DrawsView {
                scaled_delay: 0,
                keep: false,
                routes: routes_view(routes@),
            }),
    {
        let ghost v = self@;
        let ghost rv = routes_view(routes@);
        let mut routes = routes;
        let packets = self.build_messages(ui as u64, 1, n, &mut routes);
        let ghost v1 = self@;
        assert(v1.users =~= v.users);
        assert(v1.nodes =~= v.nodes);
        self.queue_packets(ui, packets);
        assert(self@.users =~= user_send_step(v, ui as u64, v.timestamp, n, DrawsView {
            scaled_delay: 0,
            keep: false,
            routes: rv,
        }).users);
    }

    /// Sets the sending time of every packet's message to `s`.
    fn restamp_all(packets: Vec<Packet>, s: Timestamp) -> (res: Vec<Packet>)
        requires
            forall|i: int| 0 <= i < packets@.len() ==> has_message(#[trigger] packets@[i]),
        ensures
            res@ == Seq::new(packets@.len(), |i: int| restamp(packets@[i], s)),
    {
        let ghost ps = packets@;
        let n = packets.len();
        let mut packets = packets;
        let mut out: Vec<Packet> = Vec::new();
        let mut k: usize = 0;
        while packets.len() > 0
            invariant
                k + packets@.len() == ps.len(),
                ps.len() == n,
                packets@ == ps.skip(k as int),
                forall|i: int| 0 <= i < ps.len() ==> has_message(#[trigger] ps[i]),
                out@ == Seq::new(k as nat, |i: int| restamp(ps[i], s)),
            decreases packets@.len(),
        {
            let mut packet = packets.remove(0);
            assert(packet == ps[k as int]);
            packet.message_mut().sending_time = s;
            out.push(packet);
            k = k + 1;
            assert(packets@ =~= ps.skip(k as int));
            assert(out@ =~= Seq::new(k as nat, |i: int| restamp(ps[i], s)));
        }
        out
    }

    /// The acknowledgement `id` of user `ui` is overdue now.
    fn on_timeout(&mut self, ui: usize, id: u64, routes: Vec<Route>)
        requires
            ui < old(self).users@.len(),
            user_event_ok(old(self)@, ui as u64, old(self).timestamp, UserEvent::AckTimeout(id), DrawsView {
                scaled_delay: 0,
                keep: false,
                routes: routes_view(routes@),
            }),
        ensures
            final(self)@ == user_timeout_step(old(self)@, ui as u64, old(self).timestamp, id, DrawsView {
                scaled_delay: 0,
                keep: false,
                routes: routes_view(routes@),
            }),
    {
        let ghost v = self@;
        let ghost d = DrawsView { scaled_delay: 0, keep: false, routes: routes_view(routes@) };
        let n_users = self.users.len();
        let t = self.timestamp;
        assert(user_view(self.users@[ui as int]) == v.users[ui as int]);
        let ghost u = v.users[ui as int];
        let mut message = match self.users[ui].original_messages.remove(&id) {
            Some(m) => m,
            None => { unreached() },
        };
        let ghost m = message;
        assert(m == u.original_messages[id]);
        let ghost u1 = UserView { original_messages: u.original_messages.remove(id), ..u };
        assert(user_view(self.users@[ui as int]) == u1);
        let ghost v1 = with_user(v, ui as u64, u1);
        assert(self@.users =~= v1.users);
        assert(self@.nodes =~= v1.nodes);
        let mut routes = routes;
        let ghost rv = routes_view(routes@);
        match self.ack_strat {
            AckStrategy::PerFragment => {
                message.id = self.next_message_id;
                self.next_message_id = self.next_message_id + 1;
                let ack = Ack { recipient: ui as u64, message_id: message.id };
                assert(routes_view(routes@)[0] == rv[0]);
                proof {
                    lemma_routes_view_remove_first(routes@);
                }
                let first_route = routes.remove(0);
                let ack_packet = self.build_packet(Content::Ack(Box::new(ack)), first_route);
                message.ack = Box::new(ack_packet);
                assert(routes_view(routes@)[0] == rv[1]);
                let second_route = routes.remove(0);
                let packet = self.build_packet(Content::Message(Box::new(message)), second_route);
                self.users[ui].insert(t, UserEvent::Egress(packet));
                assert(self@.users =~= user_timeout_step(v, ui as u64, t, id, d).users);
            },
            AckStrategy::WholeMessage => {
                let r = message.recipient as usize;
                let ghost ru = self.users@[r as int];
                self.users[r].fragments.remove(&message.fragment_set);
                assert(fragment_sets(self.users@[r as int]) =~= fragment_sets(ru).remove(m.fragment_set));
                let ghost v2 = with_user(
                    v1,
                    m.recipient,
                    UserView {
                        fragments: v1.users[m.recipient as int].fragments.remove(m.fragment_set),
                        ..v1.users[m.recipient as int]
                    },
                );
                assert(self@.users =~= v2.users);
                let packets = self.build_messages(
                    message.sender,
                    message.recipient,
                    message.fragment_size,
                    &mut routes,
                );
                proof {
                    assert forall|i: int| 0 <= i < packets@.len() implies has_message(#[trigger] packets@[i]) by {
                        let f = i;
                        lemma_routed_has_message(
                            fragment_message(
                                v.ack_strat,
                                t,
                                (v.next_message_id + f) as u64,
                                v.next_fragment_set,
                                m.sender,
                                m.recipient,
                                f as u32,
                                m.fragment_size,
                                rv[2 * f],
                                v.config.num_hops as nat,
                            ),
                            rv[2 * f + 1],
                            v.config.num_hops as nat,
                        );
                    }
                }
                let stamped = Self::restamp_all(packets, message.sending_time);
                let ghost v3 = self@;
                assert(v3.users =~= v2.users);
                self.queue_packets(ui, stamped);
                assert(self@.users =~= user_timeout_step(v, ui as u64, t, id, d).users);
                assert(self@.nodes =~= user_timeout_step(v, ui as u64, t, id, d).nodes);
            },
        }
    }

    /// The first event of user `uid` happens.
    fn user_event(&mut self, uid: u64, draws: Draws) -> (res: Result<(), StepError>)
        requires
            uid < old(self).users@.len(),
            old(self)@.users[uid as int].events.len() > 0,
            ({
                let v = old(self)@;
                let u = v.users[uid as int];
                let t = u.events[0].0;
                t < v.timestamp || user_event_ok(
                    with_user(SimView { timestamp: t, ..v }, uid, UserView { events: u.events.drop_first(), ..u }),
                    uid,
                    t,
                    u.events[0].1,
                    draws@,
                )
            }),
        ensures
            (final(self)@, res) == user_step(old(self)@, uid, draws@),
    {
        let ghost v = self@;
        let ghost d = draws@;
        let n_users = self.users.len();
        let ui = uid as usize;
        assert(user_view(self.users@[ui as int]) == v.users[uid as int]);
        let t = match self.users[ui].next() {
            Some(t) => t,
            None => { unreached() },
        };
        if t < self.timestamp {
            return Err(StepError::PastEvent);
        }
        self.timestamp = t;
        let event = match self.users[ui].pop() {
            Some(e) => e,
            None => { unreached() },
        };
        let ghost u = v.users[uid as int];
        let ghost v1 = with_user(SimView { timestamp: t, ..v }, uid, UserView { events: u.events.drop_first(), ..u });
        assert(user_view(self.users@[ui as int]) == UserView { events: u.events.drop_first(), ..u });
        assert(self@.users =~= v1.users);
        assert(self@.nodes =~= v1.nodes);
        assert(self@ == v1);
        match event {
            UserEvent::Message(m) => self.on_message(ui, m),
            UserEvent::Egress(p) => self.on_egress(ui, p, draws.scaled_delay, draws.keep),
            UserEvent::SendMessage(n) => self.on_send(ui, n, draws.routes),
            UserEvent::AckTimeout(id) => self.on_timeout(ui, id, draws.routes),
        }
        Ok(())
    }

    /// Handles the earliest event, using the draws it needs: a node's next
    /// packet moves on, or a user's next event happens. Fails when there is
    /// no event, or when the earliest event lies in the past (a node then
    /// drops the packet).
    pub fn step(&mut self, draws: Draws) -> (res: Result<(), StepError>)
        requires
            step_ok(old(self)@, draws@),
        ensures
            (final(self)@, res) == step_spec(old(self)@, draws@),
    {
        let n_nodes = self.nodes.len();
        let n_users = self.users.len();
        proof {
            lemma_next_of(self@);
        }
        match self.next() {
            None => Err(StepError::NoMoreEvents),
            Some(Next::Node(id)) => self.node_event(id),
            Some(Next::User(uid)) => self.user_event(uid, draws),
        }
    }

    /// An empty simulation at time 0.
    pub fn new(ack_strat: AckStrategy, config: Config) -> (res: Simulation)
        ensures
            res.timestamp == 0,
            res.ack_strat == ack_strat,
            res.config == config,
            res.nodes@.len() == 0,
            res.users@.len() == 0,
            res.delivery_times@.len() == 0,
            res.first_to_last@.len() == 0,
            res.next_message_id == 0,
            res.next_fragment_set == 0,
            res.packet_count == 0,
    {
        Simulation {
            timestamp: 0,
            ack_strat,
            config,
            nodes: Vec::new(),
            users: Vec::new(),
            delivery_times: Vec::new(),
            first_to_last: Vec::new(),
            next_message_id: 0,
            next_fragment_set: 0,
            packet_count: 0,
        }
    }

    /// Adds a node without packets; its identifier is one more than the
    /// largest so far (0 for the first).
    pub fn add_node(&mut self) -> (res: NodeId)
        requires
            old(self).nodes@.len() < u64::MAX,
        ensures
            res == old(self).nodes@.len(),
            final(self).nodes@ == old(self).nodes@.push(final(self).nodes@.last()),
            final(self).nodes@.last().ingress@.len() == 0,
            final(self).users == old(self).users,
            final(self).timestamp == old(self).timestamp,
            final(self).ack_strat == old(self).ack_strat,
            final(self).config == old(self).config,
            final(self).delivery_times == old(self).delivery_times,
            final(self).first_to_last == old(self).first_to_last,
            final(self).next_message_id == old(self).next_message_id,
            final(self).next_fragment_set == old(self).next_fragment_set,
            final(self).packet_count == old(self).packet_count,
    {
        let next_id = self.nodes.len() as u64;
        self.nodes.push(Node::new());
        next_id
    }

    /// Adds a user without events; its identifier is one more than the
    /// largest so far (0 for the first).
    pub fn add_user(&mut self) -> (res: UserId)
        requires
            old(self).users@.len() < u64::MAX,
        ensures
            res == old(self).users@.len(),
            final(self).users@ == old(self).users@.push(final(self).users@.last()),
            final(self).users@.last().events@.len() == 0,
            final(self).users@.last().fragments@ == Map::<u64, std::collections::HashSet<u32>>::empty(),
            final(self).users@.last().t_first@ == Map::<u64, Timestamp>::empty(),
            final(self).users@.last().original_messages@ == Map::<u64, Message>::empty(),
            final(self).nodes == old(self).nodes,
            final(self).timestamp == old(self).timestamp,
            final(self).ack_strat == old(self).ack_strat,
            final(self).config == old(self).config,
            final(self).delivery_times == old(self).delivery_times,
            final(self).first_to_last == old(self).first_to_last,
            final(self).next_message_id == old(self).next_message_id,
            final(self).next_fragment_set == old(self).next_fragment_set,
            final(self).packet_count == old(self).packet_count,
    {
        let next_id = self.users.len() as u64;
        self.users.push(User::new());
        next_id
    }

    /// Wraps `content` in `num_hops` layers along the given hops and delays:
    /// the innermost layer goes to `hops[0]` with the last delay, each
    /// further one to the next hop with the delay before it; the outermost
    /// goes to `hops[num_hops - 1]` with the first delay.
    pub fn build_packet_with_delays(&self, content: Content, delays: Vec<Timestamp>, hops: Vec<NodeId>) -> (res:
        Packet)
        requires
            self.config.num_hops >= 1,
            route_fits((delays@, hops@), self.config.num_hops as nat),
        ensures
            res == routed_packet(content, (delays@, hops@), self.config.num_hops as nat),
    {
        let ghost d = delays@;
        let ghost h = hops@;
        let k = self.config.num_hops;
        let mut delays = delays;
        let mut c = content;
        let mut i: u32 = 0;
        while i < k - 1
            invariant
                k >= 1,
                i <= k - 1,
                d.len() >= k,
                h.len() >= k,
                h == hops@,
                delays@ == d.take(d.len() - i),
                c == wrap_layers(content, d, h, i as nat),
            decreases k - 1 - i,
        {
            let node = hops[i as usize];
            let delay = match delays.pop() {
                Some(v) => v,
                None => { unreached() },
            };
            assert(delay == d[d.len() - (i + 1)]);
            c = Content::Packet(Box::new(Packet { destination: node, delay, content: c }));
            i = i + 1;
            assert(delays@ =~= d.take(d.len() - i));
        }
        let node = hops[(k - 1) as usize];
        let delay = delays[0];
        Packet { destination: node, delay, content: c }
    }

    /// Wraps `content` along a drawn route.
    pub fn build_packet(&self, content: Content, route: Route) -> (res: Packet)
        requires
            self.config.num_hops >= 1,
            route_fits(route_view(route), self.config.num_hops as nat),
        ensures
            res == routed_packet(content, route_view(route), self.config.num_hops as nat),
    {
        self.build_packet_with_delays(content, route.delays, route.hops)
    }

    /// The packets of a new message of `num_frags` fragments from `sender`
    /// to `recipient`, sent now, in a fresh fragment set, with fresh message
    /// identifiers, using the first `2 num_frags` routes.
    fn build_messages(&mut self, sender: UserId, recipient: UserId, num_frags: u32, routes: &mut Vec<Route>) -> (res:
        Vec<Packet>)
        requires
            num_frags > 0 ==> old(self).config.num_hops >= 1,
            old(self).next_fragment_set < u64::MAX,
            old(self).next_message_id + num_frags <= u64::MAX,
            old(routes)@.len() >= 2 * num_frags,
            forall|i: int|
                0 <= i < 2 * num_frags ==> route_fits(
                    #[trigger] routes_view(old(routes)@)[i],
                    old(self).config.num_hops as nat,
                ),
        ensures
            res@ == message_packets(
                old(self).ack_strat,
                old(self).timestamp,
                old(self).next_message_id,
                old(self).next_fragment_set,
                sender,
                recipient,
                num_frags,
                routes_view(old(routes)@),
                old(self).config.num_hops as nat,
            ),
            routes_view(final(routes)@) == routes_view(old(routes)@).skip(2 * num_frags),
            final(self).next_message_id == old(self).next_message_id + num_frags,
            final(self).next_fragment_set == old(self).next_fragment_set + 1,
            final(self).timestamp == old(self).timestamp,
            final(self).ack_strat == old(self).ack_strat,
            final(self).config == old(self).config,
            final(self).nodes == old(self).nodes,
            final(self).users == old(self).users,
            final(self).delivery_times == old(self).delivery_times,
            final(self).first_to_last == old(self).first_to_last,
            final(self).packet_count == old(self).packet_count,
    {
        let ghost rv = routes_view(routes@);
        let ghost first_id = self.next_message_id;
        let k = self.config.num_hops;
        let mut packets: Vec<Packet> = Vec::with_capacity(num_frags as usize);
        let fragment_set = self.next_fragment_set;
        self.next_fragment_set = self.next_fragment_set + 1;
        let mut frag: u32 = 0;
        while frag < num_frags
            invariant
                frag <= num_frags,
                self.config.num_hops == k,
                num_frags > 0 ==> k >= 1,
                self.next_message_id == first_id + frag,
                first_id + num_frags <= u64::MAX,
                self.next_fragment_set == fragment_set + 1,
                rv.len() >= 2 * num_frags,
                routes_view(routes@) == rv.skip(2 * frag),
                self.timestamp == old(self).timestamp,
                self.ack_strat == old(self).ack_strat,
                self.config == old(self).config,
                self.nodes == old(self).nodes,
                self.users == old(self).users,
                self.delivery_times == old(self).delivery_times,
                self.first_to_last == old(self).first_to_last,
                self.packet_count == old(self).packet_count,
                fragment_set == old(self).next_fragment_set,
                first_id == old(self).next_message_id,
                rv == routes_view(old(routes)@),
                forall|i: int| 0 <= i < 2 * num_frags ==> route_fits(#[trigger] rv[i], k as nat),
                packets@ == message_packets(
                    self.ack_strat,
                    self.timestamp,
                    first_id,
                    fragment_set,
                    sender,
                    recipient,
                    num_frags,
                    rv,
                    k as nat,
                ).take(frag as int),
            decreases num_frags - frag,
        {
            let id = self.next_message_id;
            self.next_message_id = self.next_message_id + 1;
            let ack = match self.ack_strat {
                AckStrategy::PerFragment => Ack { recipient: sender, message_id: id },
                AckStrategy::WholeMessage => Ack { recipient: sender, message_id: fragment_set },
            };
            assert(routes_view(routes@).len() == routes@.len());
            assert(routes@.len() == rv.len() - 2 * frag);
            assert(routes_view(routes@)[0] == rv[2 * frag]);
            proof {
                lemma_routes_view_remove_first(routes@);
            }
            let ack_route = routes.remove(0);
            assert(routes_view(routes@) =~= rv.skip(2 * frag + 1));
            let ack_packet = self.build_packet(Content::Ack(Box::new(ack)), ack_route);
            assert(routes_view(routes@)[0] == rv[2 * frag + 1]);
            proof {
                lemma_routes_view_remove_first(routes@);
            }
            let message_route = routes.remove(0);
            let message = Message {
                id,
                recipient,
                sender,
                sending_time: self.timestamp,
                fragment_set,
                fragment_index: frag,
                fragment_size: num_frags,
                ack: Box::new(ack_packet),
            };
            let packet = self.build_packet(Content::Message(Box::new(message)), message_route);
            let ghost before = packets@;
            packets.push(packet);
            frag = frag + 1;
            assert(packets@ =~= message_packets(
                self.ack_strat,
                self.timestamp,
                first_id,
                fragment_set,
                sender,
                recipient,
                num_frags,
                rv,
                k as nat,
            ).take(frag as int));
            assert(routes_view(routes@) =~= rv.skip(2 * frag));
        }
        assert(packets@ =~= message_packets(
            self.ack_strat,
            self.timestamp,
            first_id,
            fragment_set,
            sender,
            recipient,
            num_frags,
            rv,
            k as nat,
        ));
        packets
    }
}

} // verus!
