use scylla::sim::{Ack, Content, Message, Node as MixNode, Packet, User, UserEvent};
use scylla::simulation::{
    carries_message, checked_total_delay, remove_timeouts, routes_fit, AckStrategy, Config, Draws, Route,
    Simulation, StepError, Upcoming,
};

fn ack_packet(recipient: u64, message_id: u64, destination: u64, delay: u64) -> Packet {
    Packet {
        destination,
        delay,
        content: Content::Ack(Box::new(Ack { message_id, recipient })),
    }
}

fn message(id: u64) -> Message {
    Message {
        id,
        sending_time: 0,
        recipient: 1,
        sender: 0,
        fragment_set: 7,
        fragment_size: 2,
        fragment_index: 0,
        ack: Box::new(ack_packet(0, id, 0, 5)),
    }
}

fn layered(delays: &[u64]) -> Packet {
    let mut content = Content::Message(Box::new(message(3)));
    let mut packet = None;
    for (i, d) in delays.iter().enumerate().rev() {
        let p = Packet { destination: i as u64, delay: *d, content };
        if i == 0 {
            packet = Some(p);
            break;
        }
        content = Content::Packet(Box::new(p));
    }
    packet.unwrap()
}

fn route(delay: u64) -> Route {
    Route { delays: vec![delay, delay, delay], hops: vec![0, 1, 2] }
}

fn config() -> Config {
    Config { delay_per_hop: 10, num_hops: 3, ack_addition: 100 }
}

fn network(strat: AckStrategy) -> Simulation {
    let mut sim = Simulation::new(strat, config());
    assert_eq!(sim.add_node(), 0);
    assert_eq!(sim.add_node(), 1);
    assert_eq!(sim.add_node(), 2);
    assert_eq!(sim.add_user(), 0);
    assert_eq!(sim.add_user(), 1);
    sim
}

/// Whether every queue is ordered by time with nothing before the clock.
fn in_time_order(sim: &Simulation) -> bool {
    let t = sim.timestamp;
    let nodes_ok = sim.nodes.iter().all(|n| {
        n.ingress.iter().all(|e| e.0 >= t) && n.ingress.windows(2).all(|w| w[0].0 <= w[1].0)
    });
    let users_ok = sim.users.iter().all(|u| {
        u.events.iter().all(|e| e.0 >= t) && u.events.windows(2).all(|w| w[0].0 <= w[1].0)
    });
    nodes_ok && users_ok
}

/// Runs the simulation to its end; `keep` says whether the `n`-th packet
/// leaving a user survives.
fn run(sim: &mut Simulation, keep: impl Fn(usize) -> bool) -> usize {
    let mut egress = 0;
    let mut steps = 0;
    loop {
        let draws = match sim.upcoming() {
            Upcoming::Nothing => break,
            Upcoming::Plain => Draws { scaled_delay: 0, keep: true, routes: vec![] },
            Upcoming::Egress { total_delay, .. } => {
                assert_eq!(total_delay, 30);
                let k = keep(egress);
                egress += 1;
                Draws { scaled_delay: 45, keep: k, routes: vec![] }
            }
            Upcoming::Packets(n) => Draws { scaled_delay: 0, keep: true, routes: (0..n).map(|_| route(10)).collect() },
        };
        assert!(sim.can_step(&draws));
        let before = sim.timestamp;
        sim.step(draws).unwrap();
        assert!(sim.timestamp >= before);
        assert!(in_time_order(sim));
        steps += 1;
        assert!(steps < 1000);
    }
    assert_eq!(sim.step(Draws { scaled_delay: 0, keep: true, routes: vec![] }), Err(StepError::NoMoreEvents));
    steps
}

#[test]
fn total_delay_sums_all_layers() {
    let p = layered(&[10, 20, 30]);
    assert_eq!(p.total_delay(), 60);
    assert_eq!(checked_total_delay(&p), Some(60));
    assert_eq!(ack_packet(0, 1, 2, 7).total_delay(), 7);
    let huge = layered(&[u64::MAX, 1]);
    assert_eq!(checked_total_delay(&huge), None);
}

#[test]
fn message_is_found_under_all_layers() {
    let mut p = layered(&[1, 2, 3]);
    assert!(carries_message(&p));
    assert!(!carries_message(&ack_packet(0, 1, 2, 3)));
    assert_eq!(p.message().id, 3);
    assert_eq!(p.message_id(), 3);
    p.message_mut().sending_time = 99;
    assert_eq!(p.message().sending_time, 99);
    assert_eq!(p.total_delay(), 6);
}

#[test]
fn node_queue_is_ordered_by_time() {
    let mut node = MixNode::new();
    assert_eq!(node.next(), None);
    node.insert(5, ack_packet(0, 1, 0, 0));
    node.insert(3, ack_packet(0, 2, 0, 0));
    node.insert(5, ack_packet(0, 3, 0, 0));
    assert_eq!(node.next(), Some(3));
    let ids: Vec<u64> = (0..3)
        .map(|_| match node.pop().unwrap().content {
            Content::Ack(a) => a.message_id,
            _ => panic!("ack expected"),
        })
        .collect();
    assert_eq!(ids, vec![2, 1, 3]);
    assert_eq!(node.next(), None);
}

#[test]
fn user_queue_and_fragments() {
    let mut user = User::new();
    assert_eq!(user.next(), None);
    user.insert(4, UserEvent::SendMessage(2));
    user.insert(1, UserEvent::AckTimeout(9));
    assert_eq!(user.next(), Some(1));
    assert!(matches!(user.pop(), Some(UserEvent::AckTimeout(9))));
    assert_eq!(user.next(), Some(4));
    assert_eq!(user.fragment_set_size(7), 0);
    user.mark_fragment(7, 0);
    user.mark_fragment(7, 0);
    user.mark_fragment(7, 3);
    user.mark_fragment(8, 1);
    assert_eq!(user.fragment_set_size(7), 2);
    assert_eq!(user.fragment_set_size(8), 1);
}

#[test]
fn timeouts_of_one_acknowledgement_are_removed() {
    let mut q = vec![
        (1, UserEvent::AckTimeout(1)),
        (2, UserEvent::SendMessage(3)),
        (3, UserEvent::AckTimeout(2)),
        (4, UserEvent::AckTimeout(1)),
    ];
    remove_timeouts(&mut q, 1);
    assert_eq!(q.len(), 2);
    assert!(matches!(q[0], (2, UserEvent::SendMessage(3))));
    assert!(matches!(q[1], (3, UserEvent::AckTimeout(2))));
}

#[test]
fn routes_must_cover_the_packets() {
    let routes = vec![route(1), route(2)];
    assert!(routes_fit(&routes, 2, 3, 3));
    assert!(!routes_fit(&routes, 3, 3, 3));
    assert!(!routes_fit(&routes, 1, 4, 3));
    assert!(routes_fit(&routes, 0, 9, 3));
    assert!(!routes_fit(&routes, 2, 3, 2));
    assert!(routes_fit(&routes, 2, 2, 2));
}

#[test]
fn packets_are_layered_along_the_route() {
    let sim = network(AckStrategy::PerFragment);
    let p = sim.build_packet_with_delays(Content::Message(Box::new(message(1))), vec![10, 20, 30], vec![4, 5, 6]);
    assert_eq!(p.destination, 6);
    assert_eq!(p.delay, 10);
    let inner = match &p.content {
        Content::Packet(q) => q,
        _ => panic!("layer expected"),
    };
    assert_eq!(inner.destination, 5);
    assert_eq!(inner.delay, 20);
    let core = match &inner.content {
        Content::Packet(q) => q,
        _ => panic!("layer expected"),
    };
    assert_eq!(core.destination, 4);
    assert_eq!(core.delay, 30);
    assert!(matches!(core.content, Content::Message(_)));
    assert_eq!(p.total_delay(), 60);
    let q = sim.build_packet(Content::Ack(Box::new(Ack { message_id: 1, recipient: 0 })), route(7));
    assert_eq!(q.total_delay(), 21);
    assert!(!carries_message(&q));
}

#[test]
fn new_simulation_is_empty() {
    let mut sim = Simulation::new(AckStrategy::WholeMessage, config());
    assert_eq!(sim.timestamp, 0);
    assert_eq!(sim.packet_count, 0);
    assert_eq!(sim.upcoming(), Upcoming::Nothing);
    assert_eq!(sim.step(Draws { scaled_delay: 0, keep: true, routes: vec![] }), Err(StepError::NoMoreEvents));
}

#[test]
fn sending_asks_for_two_routes_per_fragment() {
    let mut sim = network(AckStrategy::PerFragment);
    sim.users[0].insert(0, UserEvent::SendMessage(3));
    assert_eq!(sim.upcoming(), Upcoming::Packets(6));
    let short = Draws { scaled_delay: 0, keep: true, routes: (0..5).map(|_| route(1)).collect() };
    assert!(!sim.can_step(&short));
    let draws = Draws { scaled_delay: 0, keep: true, routes: (0..6).map(|_| route(1)).collect() };
    assert!(sim.can_step(&draws));
    sim.step(draws).unwrap();
    assert_eq!(sim.next_message_id, 3);
    assert_eq!(sim.next_fragment_set, 1);
    assert_eq!(sim.users[0].events.len(), 3);
    for (i, (t, e)) in sim.users[0].events.iter().enumerate() {
        assert_eq!(*t, 0);
        match e {
            UserEvent::Egress(p) => {
                let m = p.message();
                assert_eq!(m.fragment_index, i as u32);
                assert_eq!(m.fragment_size, 3);
                assert_eq!(m.recipient, 1);
                assert_eq!(m.id, i as u64);
            }
            _ => panic!("egress expected"),
        }
    }
    assert_eq!(sim.upcoming(), Upcoming::Egress { user: 0, total_delay: 3 });
}

#[test]
fn per_fragment_delivery_without_loss() {
    let mut sim = network(AckStrategy::PerFragment);
    sim.users[0].insert(0, UserEvent::SendMessage(2));
    run(&mut sim, |_| true);
    assert_eq!(sim.delivery_times, vec![30]);
    assert_eq!(sim.first_to_last, vec![0]);
    assert_eq!(sim.packet_count, 4);
    assert_eq!(sim.timestamp, 60);
}

#[test]
fn whole_message_delivery_without_loss() {
    let mut sim = network(AckStrategy::WholeMessage);
    sim.users[0].insert(0, UserEvent::SendMessage(2));
    run(&mut sim, |_| true);
    assert_eq!(sim.delivery_times, vec![30]);
    assert_eq!(sim.first_to_last, vec![0]);
    assert_eq!(sim.packet_count, 3);
    assert_eq!(sim.timestamp, 60);
}

#[test]
fn per_fragment_resends_a_lost_fragment() {
    let mut sim = network(AckStrategy::PerFragment);
    sim.users[0].insert(0, UserEvent::SendMessage(2));
    run(&mut sim, |n| n != 0);
    assert_eq!(sim.delivery_times, vec![175]);
    assert_eq!(sim.first_to_last, vec![145]);
    assert_eq!(sim.packet_count, 5);
    assert_eq!(sim.next_message_id, 3);
    assert_eq!(sim.timestamp, 205);
}

#[test]
fn whole_message_resends_the_whole_set() {
    let mut sim = network(AckStrategy::WholeMessage);
    sim.users[0].insert(0, UserEvent::SendMessage(2));
    run(&mut sim, |n| n != 0);
    assert_eq!(sim.delivery_times, vec![175]);
    assert_eq!(sim.first_to_last, vec![0]);
    assert_eq!(sim.next_fragment_set, 2);
    assert_eq!(sim.next_message_id, 4);
    assert_eq!(sim.packet_count, 5);
}

#[test]
fn a_packet_in_the_past_is_dropped() {
    let mut sim = network(AckStrategy::PerFragment);
    sim.timestamp = 100;
    sim.nodes[1].insert(50, ack_packet(0, 1, 0, 0));
    assert_eq!(sim.upcoming(), Upcoming::Plain);
    let draws = Draws { scaled_delay: 0, keep: true, routes: vec![] };
    assert!(sim.can_step(&draws));
    assert_eq!(sim.step(draws), Err(StepError::PastEvent));
    assert_eq!(sim.nodes[1].next(), None);
    assert_eq!(sim.timestamp, 100);
}

#[test]
fn acknowledgement_cancels_its_timeout() {
    let mut sim = network(AckStrategy::PerFragment);
    sim.users[0].insert(500, UserEvent::AckTimeout(4));
    sim.users[0].insert(600, UserEvent::AckTimeout(5));
    sim.nodes[2].insert(10, ack_packet(0, 4, 0, 0));
    let draws = Draws { scaled_delay: 0, keep: true, routes: vec![] };
    assert!(sim.can_step(&draws));
    sim.step(draws).unwrap();
    assert_eq!(sim.timestamp, 10);
    assert_eq!(sim.users[0].events.len(), 1);
    assert!(matches!(sim.users[0].events[0], (600, UserEvent::AckTimeout(5))));
}

#[test]
fn missing_recipient_cannot_step() {
    let mut sim = network(AckStrategy::PerFragment);
    sim.nodes[0].insert(1, ack_packet(9, 4, 0, 0));
    let draws = Draws { scaled_delay: 0, keep: true, routes: vec![] };
    assert!(!sim.can_step(&draws));
}

#[test]
fn marks_count_each_index_once_per_set() {
    let mut user = User::new();
    let marks = [(1u64, 4u32), (2, 4), (1, 4), (1, 0), (3, 9), (1, 4)];
    for (set, index) in marks {
        user.mark_fragment(set, index);
    }
    assert_eq!(user.fragment_set_size(1), 2);
    assert_eq!(user.fragment_set_size(2), 1);
    assert_eq!(user.fragment_set_size(3), 1);
    assert_eq!(user.fragment_set_size(4), 0);
}

#[test]
fn a_single_fragment_completes_its_message() {
    let mut sim = Simulation::new(AckStrategy::WholeMessage, config());
    sim.add_node();
    sim.add_user();
    sim.add_user();
    let ack = ack_packet(0, 0, 0, 7);
    sim.users[1].insert(
        100,
        UserEvent::Message(Message {
            id: 0,
            sending_time: 40,
            recipient: 1,
            sender: 0,
            fragment_set: 0,
            fragment_size: 1,
            fragment_index: 0,
            ack: Box::new(ack),
        }),
    );
    let draws = Draws { scaled_delay: 0, keep: true, routes: vec![] };
    assert!(sim.can_step(&draws));
    assert!(sim.step(draws).is_ok());
    assert_eq!(sim.timestamp, 100);
    assert_eq!(sim.delivery_times, vec![60]);
    assert_eq!(sim.first_to_last, vec![0]);
    assert_eq!(sim.packet_count, 1);
    assert_eq!(sim.nodes[0].ingress.len(), 1);
    assert_eq!(sim.nodes[0].ingress[0].0, 107);
    assert!(sim.users[1].events.is_empty());
    assert_eq!(sim.users[1].t_first[&0], 100);
    assert_eq!(sim.users[1].fragment_set_size(0), 1);
}

#[test]
fn adding_nodes_and_users_keeps_the_rest() {
    let mut sim = network(AckStrategy::PerFragment);
    sim.users[0].insert(0, UserEvent::SendMessage(1));
    let draws = Draws { scaled_delay: 0, keep: true, routes: (0..2).map(|_| route(1)).collect() };
    sim.step(draws).unwrap();
    let before = (sim.timestamp, sim.next_message_id, sim.next_fragment_set, sim.packet_count);
    assert_eq!(sim.add_node(), 3);
    assert_eq!(sim.add_user(), 2);
    assert_eq!((sim.timestamp, sim.next_message_id, sim.next_fragment_set, sim.packet_count), before);
    assert_eq!(sim.users[0].events.len(), 1);
    assert_eq!(sim.config.num_hops, 3);
}

#[test]
fn routes_through_missing_nodes_cannot_step() {
    let mut sim = network(AckStrategy::PerFragment);
    sim.users[0].insert(0, UserEvent::SendMessage(1));
    let bad = Route { delays: vec![1, 1, 1], hops: vec![0, 1, 3] };
    let draws = Draws { scaled_delay: 0, keep: true, routes: vec![route(1), bad] };
    assert!(!sim.can_step(&draws));
    let draws = Draws { scaled_delay: 0, keep: true, routes: vec![route(1), route(1)] };
    assert!(sim.can_step(&draws));
}
