use crossbeam_channel::unbounded;
use crossbeam_channel::Receiver;
use crossbeam_channel::Sender;
use skylink::controller::DroneCommand;
use skylink::controller::DroneEvent;
use skylink::controller::DroneInput;
use skylink::drone::SkyLinkDrone;
use skylink::packet::Ack;
use skylink::packet::FloodRequest;
use skylink::packet::Fragment;
use skylink::packet::NackType;
use skylink::packet::NodeType;
use skylink::packet::Packet;
use skylink::packet::PacketType;
use skylink::packet::SourceRoutingHeader;

fn fragment_packet(hops: Vec<u8>, hop_index: usize, session: u64, idx: u64) -> Packet {
    Packet {
        pack_type: PacketType::MsgFragment(Fragment { fragment_index: idx }),
        routing_header: SourceRoutingHeader { hop_index, hops },
        session_id: session,
    }
}

fn ack_packet(hops: Vec<u8>, hop_index: usize, session: u64, idx: u64) -> Packet {
    Packet {
        pack_type: PacketType::Ack(Ack { fragment_index: idx }),
        routing_header: SourceRoutingHeader { hop_index, hops },
        session_id: session,
    }
}

fn flood_packet(flood_id: u64, initiator_id: u8, path_trace: Vec<(u8, NodeType)>) -> Packet {
    Packet {
        pack_type: PacketType::FloodRequest(FloodRequest { flood_id, initiator_id, path_trace }),
        routing_header: SourceRoutingHeader { hop_index: 0, hops: Vec::new() },
        session_id: 0,
    }
}

fn drone_with(
    id: u8,
    nbrs: Vec<(u8, Sender<Packet>)>,
    pdr: u32,
) -> (SkyLinkDrone, Receiver<DroneEvent>) {
    let (cs, cr) = unbounded();
    (SkyLinkDrone::new(id, cs, nbrs, pdr), cr)
}

fn nack_fields(p: &Packet) -> (u64, NackType) {
    match &p.pack_type {
        PacketType::Nack(n) => (n.fragment_index, n.nack_type),
        other => panic!("expected a Nack, got {:?}", other),
    }
}

#[test]
fn happy_path_relay() {
    let (s3, r3) = unbounded();
    let (mut d, events) = drone_with(2, vec![(3, s3)], 0);
    let p = fragment_packet(vec![1, 2, 3, 4], 1, 99, 7);
    assert!(d.packet_ok(&p));
    d.handle_packet(p);
    let out = r3.try_recv().expect("neighbour 3 should receive the fragment");
    assert_eq!(out.routing_header.hop_index, 2);
    assert_eq!(out.routing_header.hops, vec![1, 2, 3, 4]);
    assert_eq!(out.session_id, 99);
    assert_eq!(nack_fields_or_fragment(&out), 7);
    let ev = events.try_recv().expect("one PacketSent event");
    assert!(matches!(ev, DroneEvent::PacketSent(_)));
    assert!(events.try_recv().is_err());
    assert!(r3.try_recv().is_err());
}

fn nack_fields_or_fragment(p: &Packet) -> u64 {
    match &p.pack_type {
        PacketType::MsgFragment(f) => f.fragment_index,
        other => panic!("expected a fragment, got {:?}", other),
    }
}

#[test]
fn misrouted_fragment_nack() {
    let (s1, r1) = unbounded();
    let (mut d, events) = drone_with(2, vec![(1, s1)], 0);
    let p = fragment_packet(vec![1, 5, 3], 1, 4, 5);
    assert!(d.packet_ok(&p));
    d.handle_packet(p);
    let out = r1.try_recv().expect("neighbour 1 should receive the nack");
    let (idx, nt) = nack_fields(&out);
    assert_eq!(idx, 5);
    assert_eq!(nt, NackType::UnexpectedRecipient(2));
    assert_eq!(out.routing_header.hops, vec![5, 1]);
    assert_eq!(out.routing_header.hop_index, 1);
    assert!(matches!(events.try_recv().unwrap(), DroneEvent::PacketSent(_)));
}

#[test]
fn misrouted_fragment_shortcut_when_neighbour_absent() {
    let (s9, _r9) = unbounded();
    let (mut d, events) = drone_with(2, vec![(9, s9)], 0);
    let p = fragment_packet(vec![1, 5, 3], 1, 4, 5);
    d.handle_packet(p);
    match events.try_recv().unwrap() {
        DroneEvent::ControllerShortcut(q) => {
            let (_, nt) = nack_fields(&q);
            assert_eq!(nt, NackType::UnexpectedRecipient(2));
            assert_eq!(q.routing_header.hops, vec![5, 1]);
            assert_eq!(q.routing_header.hop_index, 0);
        },
        other => panic!("expected a shortcut, got {:?}", other),
    }
}

#[test]
fn full_pdr_drops_every_fragment() {
    let (s1, r1) = unbounded();
    let (s3, r3) = unbounded();
    let (mut d, events) = drone_with(2, vec![(1, s1), (3, s3)], 100);
    let p = fragment_packet(vec![1, 2, 3], 1, 11, 9);
    d.handle_packet(p);
    // the Dropped nack travels back to neighbour 1
    let out = r1.try_recv().expect("neighbour 1 should receive the Dropped nack");
    let (idx, nt) = nack_fields(&out);
    assert_eq!(idx, 9);
    assert_eq!(nt, NackType::Dropped);
    assert_eq!(out.routing_header.hops, vec![2, 1]);
    assert_eq!(out.routing_header.hop_index, 1);
    // source is node 1, not this drone: no PacketDropped
    let ev = events.try_recv().unwrap();
    assert!(matches!(ev, DroneEvent::PacketSent(_)));
    assert!(events.try_recv().is_err());
    assert!(r3.try_recv().is_err(), "a dropped fragment must not be forwarded");
}

#[test]
fn drop_of_own_fragment_notifies_controller() {
    let (s2, r2) = unbounded();
    let (mut d, events) = drone_with(1, vec![(2, s2)], 100);
    let p = fragment_packet(vec![1, 2, 3], 0, 12, 4);
    assert!(d.packet_ok(&p));
    d.handle_packet(p);
    match events.try_recv().unwrap() {
        DroneEvent::PacketDropped(q) => {
            assert_eq!(q.routing_header.hops, vec![1, 2, 3]);
        },
        other => panic!("expected PacketDropped, got {:?}", other),
    }
    assert!(events.try_recv().is_err());
    assert!(r2.try_recv().is_err());
}

#[test]
fn zero_pdr_never_drops() {
    let (s3, r3) = unbounded();
    let (mut d, events) = drone_with(2, vec![(3, s3)], 0);
    for i in 0..50u64 {
        let p = fragment_packet(vec![1, 2, 3], 1, i, i);
        d.handle_packet(p);
    }
    for _ in 0..50 {
        let out = r3.try_recv().expect("every fragment must be relayed at drop rate zero");
        assert!(matches!(out.pack_type, PacketType::MsgFragment(_)));
        assert!(matches!(events.try_recv().unwrap(), DroneEvent::PacketSent(_)));
    }
    assert!(r3.try_recv().is_err());
}

#[test]
fn destination_is_drone_nack() {
    let (s1, r1) = unbounded();
    let (mut d, _events) = drone_with(2, vec![(1, s1)], 0);
    let p = fragment_packet(vec![1, 2], 1, 8, 3);
    d.handle_packet(p);
    let out = r1.try_recv().expect("the DestinationIsDrone nack goes back to 1");
    let (idx, nt) = nack_fields(&out);
    assert_eq!(idx, 3);
    assert_eq!(nt, NackType::DestinationIsDrone);
    assert_eq!(out.routing_header.hops, vec![2, 1]);
    assert_eq!(out.routing_header.hop_index, 1);
}

#[test]
fn unknown_next_hop_nack() {
    let (s1, r1) = unbounded();
    let (mut d, _events) = drone_with(2, vec![(1, s1)], 0);
    let p = fragment_packet(vec![1, 2, 9], 1, 8, 6);
    d.handle_packet(p);
    let out = r1.try_recv().expect("the ErrorInRouting nack goes back to 1");
    let (idx, nt) = nack_fields(&out);
    assert_eq!(idx, 6);
    assert_eq!(nt, NackType::ErrorInRouting(9));
    assert_eq!(out.routing_header.hops, vec![2, 1]);
    assert_eq!(out.routing_header.hop_index, 1);
}

#[test]
fn misaddressed_ack_goes_to_controller_unchanged() {
    let (s3, r3) = unbounded();
    let (mut d, events) = drone_with(2, vec![(3, s3)], 0);
    let p = ack_packet(vec![1, 5, 3], 1, 21, 2);
    d.handle_packet(p);
    match events.try_recv().unwrap() {
        DroneEvent::ControllerShortcut(q) => {
            assert!(matches!(q.pack_type, PacketType::Ack(_)));
            assert_eq!(q.routing_header.hops, vec![1, 5, 3]);
            assert_eq!(q.routing_header.hop_index, 1);
        },
        other => panic!("expected a shortcut, got {:?}", other),
    }
    assert!(r3.try_recv().is_err());
}

#[test]
fn ack_is_relayed_like_a_fragment_but_never_dropped() {
    let (s3, r3) = unbounded();
    let (mut d, _events) = drone_with(2, vec![(3, s3)], 100);
    let p = ack_packet(vec![1, 2, 3], 1, 21, 2);
    d.handle_packet(p);
    let out = r3.try_recv().expect("acks pass the drop check untouched");
    assert_eq!(out.routing_header.hop_index, 2);
    assert_eq!(out.routing_header.hops, vec![1, 2, 3]);
}

#[test]
fn flood_first_visit_rebroadcasts_to_all_but_predecessor() {
    let (s2, r2) = unbounded();
    let (s3, r3) = unbounded();
    let (s7, r7) = unbounded();
    let (mut d, events) = drone_with(5, vec![(2, s2), (3, s3), (7, s7)], 0);
    let p = flood_packet(42, 1, vec![(1, NodeType::Client), (2, NodeType::Drone)]);
    d.handle_packet(p);
    let expected_trace =
        vec![(1, NodeType::Client), (2, NodeType::Drone), (5, NodeType::Drone)];
    for r in [&r3, &r7] {
        let out = r.try_recv().expect("the wave reaches both other neighbours");
        match &out.pack_type {
            PacketType::FloodRequest(f) => {
                assert_eq!(f.flood_id, 42);
                assert_eq!(f.initiator_id, 1);
                assert_eq!(f.path_trace, expected_trace);
            },
            other => panic!("expected a FloodRequest, got {:?}", other),
        }
    }
    assert!(r2.try_recv().is_err(), "the wave must not go back to its sender");
    assert!(matches!(events.try_recv().unwrap(), DroneEvent::PacketSent(_)));
    assert!(matches!(events.try_recv().unwrap(), DroneEvent::PacketSent(_)));
    assert!(events.try_recv().is_err());
}

#[test]
fn flood_revisit_answers_with_a_response() {
    let (s2, r2) = unbounded();
    let (s3, r3) = unbounded();
    let (s7, r7) = unbounded();
    let (mut d, _events) = drone_with(5, vec![(2, s2), (3, s3), (7, s7)], 0);
    d.handle_packet(flood_packet(42, 1, vec![(1, NodeType::Client), (2, NodeType::Drone)]));
    let _ = r3.try_recv().unwrap();
    let _ = r7.try_recv().unwrap();
    // the same wave arrives again, now via neighbour 7
    d.handle_packet(flood_packet(42, 1, vec![(1, NodeType::Client), (7, NodeType::Drone)]));
    let out = r7.try_recv().expect("the response travels back toward the initiator via 7");
    match &out.pack_type {
        PacketType::FloodResponse(g) => {
            assert_eq!(g.flood_id, 42);
            assert_eq!(
                g.path_trace,
                vec![(1, NodeType::Client), (7, NodeType::Drone), (5, NodeType::Drone)]
            );
        },
        other => panic!("expected a FloodResponse, got {:?}", other),
    }
    assert_eq!(out.routing_header.hops, vec![5, 7, 1]);
    assert_eq!(out.routing_header.hop_index, 1);
    assert_eq!(out.session_id, 42);
    assert!(r2.try_recv().is_err(), "a wave seen before is never rebroadcast");
    assert!(r3.try_recv().is_err(), "a wave seen before is never rebroadcast");
}

#[test]
fn flood_single_neighbour_answers_immediately() {
    let (s2, r2) = unbounded();
    let (mut d, _events) = drone_with(5, vec![(2, s2)], 0);
    d.handle_packet(flood_packet(7, 1, vec![(1, NodeType::Client), (2, NodeType::Drone)]));
    let out = r2.try_recv().expect("a leaf answers the wave at once");
    match &out.pack_type {
        PacketType::FloodResponse(g) => {
            assert_eq!(g.flood_id, 7);
        },
        other => panic!("expected a FloodResponse, got {:?}", other),
    }
    assert_eq!(out.routing_header.hops, vec![5, 2, 1]);
    assert_eq!(out.routing_header.hop_index, 1);
}

#[test]
fn flood_response_appends_absent_initiator() {
    let (s1, r1) = unbounded();
    let (mut d, _events) = drone_with(5, vec![(1, s1)], 0);
    d.handle_packet(flood_packet(3, 9, vec![(1, NodeType::Client)]));
    let out = r1.try_recv().expect("the response goes back through node 1");
    assert_eq!(out.routing_header.hops, vec![5, 1, 9]);
    assert_eq!(out.routing_header.hop_index, 1);
}

#[test]
fn commands_configure_the_drone() {
    let (s3, r3) = unbounded();
    let (mut d, _events) = drone_with(2, vec![(3, s3)], 0);
    assert_eq!(d.get_id(), 2);
    assert_eq!(d.get_pdr(), 0);
    assert_eq!(d.get_packet_send().len(), 1);
    let (s4, r4) = unbounded();
    d.handle_command(DroneCommand::AddSender(4, s4));
    assert_eq!(d.get_packet_send().len(), 2);
    d.handle_command(DroneCommand::SetPacketDropRate(250));
    assert_eq!(d.get_pdr(), 100, "the drop rate is clamped to one hundred");
    d.handle_command(DroneCommand::SetPacketDropRate(0));
    d.handle_packet(fragment_packet(vec![1, 2, 4], 1, 5, 1));
    assert!(r4.try_recv().is_ok(), "the added neighbour receives traffic");
    d.handle_command(DroneCommand::RemoveSender(3));
    assert_eq!(d.get_packet_send().len(), 1);
    d.handle_packet(fragment_packet(vec![4, 2, 3], 1, 5, 2));
    assert!(r3.try_recv().is_err(), "a removed neighbour receives nothing");
}

#[test]
fn new_clamps_the_drop_rate() {
    let (s3, _r3) = unbounded();
    let (d, _events) = drone_with(2, vec![(3, s3)], 7000);
    assert_eq!(d.get_pdr(), 100);
}

#[test]
fn graceful_crash_sequence() {
    let (s1, r1) = unbounded();
    let (mut d, events) = drone_with(4, vec![(1, s1)], 0);
    assert!(d.step(DroneInput::Command(DroneCommand::Crash)));
    // a fragment is refused with ErrorInRouting naming this drone
    let frag = fragment_packet(vec![1, 4, 6], 1, 2, 3);
    assert!(d.packet_ok(&frag));
    assert!(d.step(DroneInput::Packet(frag)));
    let out = r1.try_recv().expect("the crash nack goes back to 1");
    let (idx, nt) = nack_fields(&out);
    assert_eq!(idx, 3);
    assert_eq!(nt, NackType::ErrorInRouting(4));
    assert_eq!(out.routing_header.hops, vec![4, 1]);
    assert_eq!(out.routing_header.hop_index, 1);
    // a flood request is silently discarded
    assert!(d.step(DroneInput::Packet(flood_packet(9, 9, vec![(9, NodeType::Client)]))));
    assert!(r1.try_recv().is_err());
    // an ack still travels normally
    let ack = ack_packet(vec![6, 4, 1], 1, 2, 0);
    assert!(d.packet_ok(&ack));
    assert!(d.step(DroneInput::Packet(ack)));
    let out = r1.try_recv().expect("teardown traffic is still served");
    assert!(matches!(out.pack_type, PacketType::Ack(_)));
    // the loop ends only once both channels are seen disconnected
    assert!(d.step(DroneInput::PacketChannelClosed));
    assert!(!d.step(DroneInput::CommandChannelClosed));
    let mut sent_events = 0;
    while events.try_recv().is_ok() {
        sent_events += 1;
    }
    assert_eq!(sent_events, 2);
}

#[test]
fn crashing_mode_ignores_all_commands_but_remove_sender() {
    let (s1, _r1) = unbounded();
    let (s9, _r9) = unbounded();
    let (mut d, _events) = drone_with(4, vec![(1, s1)], 25);
    assert!(d.step(DroneInput::Command(DroneCommand::Crash)));
    assert!(d.step(DroneInput::Command(DroneCommand::SetPacketDropRate(90))));
    assert_eq!(d.get_pdr(), 25, "a crashing drone ignores drop-rate changes");
    assert!(d.step(DroneInput::Command(DroneCommand::AddSender(9, s9))));
    assert_eq!(d.get_packet_send().len(), 1, "a crashing drone registers nobody");
    assert!(d.step(DroneInput::Command(DroneCommand::RemoveSender(1))));
    assert_eq!(d.get_packet_send().len(), 0, "RemoveSender still works while crashing");
}

#[test]
fn running_mode_ignores_channel_errors() {
    let (s1, _r1) = unbounded();
    let (mut d, _events) = drone_with(4, vec![(1, s1)], 0);
    assert!(d.step(DroneInput::CommandChannelClosed));
    assert!(d.step(DroneInput::PacketChannelClosed));
    assert!(d.step(DroneInput::Command(DroneCommand::Crash)));
    assert!(d.step(DroneInput::PacketChannelClosed));
    assert!(
        !d.step(DroneInput::CommandChannelClosed),
        "disconnections count only once the drone is crashing"
    );
}

#[test]
fn dead_neighbour_is_evicted_and_fragment_answered() {
    let (s1, r1) = unbounded();
    let (s3, r3) = unbounded();
    drop(r3);  // neighbour 3 is gone: sends to it fail
    let (mut d, events) = drone_with(2, vec![(1, s1), (3, s3)], 0);
    d.handle_packet(fragment_packet(vec![1, 2, 3], 1, 5, 8));
    assert_eq!(d.get_packet_send().len(), 1, "the dead neighbour is evicted");
    let out = r1.try_recv().expect("an ErrorInRouting nack goes back to 1");
    let (idx, nt) = nack_fields(&out);
    assert_eq!(idx, 8);
    assert_eq!(nt, NackType::ErrorInRouting(3));
    assert!(matches!(events.try_recv().unwrap(), DroneEvent::PacketSent(_)));
    assert!(events.try_recv().is_err());
}
