use crossbeam_channel::unbounded;
use skylink::checks::decide_drop;
use skylink::checks::final_destination_check;
use skylink::checks::id_hop_match_check;
use skylink::checks::is_next_hop_check;
use skylink::checks::pdr_check;
use skylink::drone::SkyLinkDrone;
use skylink::error::create_error;
use skylink::error::crashing_create_error;
use skylink::error::position_of;
use skylink::packet::Ack;
use skylink::packet::Fragment;
use skylink::packet::NackType;
use skylink::packet::Packet;
use skylink::packet::PacketType;
use skylink::packet::SourceRoutingHeader;

fn fragment_packet(hops: Vec<u8>, hop_index: usize, session: u64, idx: u64) -> Packet {
    Packet {
        pack_type: PacketType::MsgFragment(Fragment { fragment_index: idx }),
        routing_header: SourceRoutingHeader { hop_index, hops },
        session_id: session,
    }
}

fn drone(id: u8, nbrs: Vec<u8>, pdr: u32) -> SkyLinkDrone {
    let (cs, _cr) = unbounded();
    let mut table = Vec::new();
    for n in nbrs {
        let (s, _r) = unbounded();
        table.push((n, s));
    }
    // the receivers are dropped: these tests never deliver anything
    SkyLinkDrone::new(id, cs, table, pdr)
}

#[test]
fn nack_hops_are_the_reversed_prefix() {
    let p = fragment_packet(vec![1, 5, 3], 1, 9, 7);
    let nack = create_error(5, p, NackType::UnexpectedRecipient(2));
    assert_eq!(nack.routing_header.hops, vec![5, 1]);
    assert_eq!(nack.routing_header.hop_index, 0);
    assert_eq!(nack.session_id, 9);
    match nack.pack_type {
        PacketType::Nack(n) => {
            assert_eq!(n.fragment_index, 7);
            assert_eq!(n.nack_type, NackType::UnexpectedRecipient(2));
        },
        other => panic!("expected a Nack, got {:?}", other),
    }
}

#[test]
fn nack_prefix_stops_at_first_occurrence() {
    let p = fragment_packet(vec![4, 6, 4, 2], 0, 1, 0);
    let nack = create_error(4, p, NackType::Dropped);
    assert_eq!(nack.routing_header.hops, vec![4]);
}

#[test]
fn crashing_nack_names_the_crashing_node() {
    let p = fragment_packet(vec![1, 2, 3], 1, 5, 11);
    let nack = crashing_create_error(2, p);
    assert_eq!(nack.routing_header.hops, vec![2, 1]);
    match nack.pack_type {
        PacketType::Nack(n) => {
            assert_eq!(n.fragment_index, 11);
            assert_eq!(n.nack_type, NackType::ErrorInRouting(2));
        },
        other => panic!("expected a Nack, got {:?}", other),
    }
}

#[test]
fn non_fragments_get_fragment_index_zero() {
    let p = Packet {
        pack_type: PacketType::Ack(Ack { fragment_index: 40 }),
        routing_header: SourceRoutingHeader { hop_index: 1, hops: vec![1, 2, 3] },
        session_id: 5,
    };
    let nack = create_error(2, p, NackType::DestinationIsDrone);
    match nack.pack_type {
        PacketType::Nack(n) => assert_eq!(n.fragment_index, 0),
        other => panic!("expected a Nack, got {:?}", other),
    }
}

#[test]
fn position_of_finds_the_first_occurrence() {
    assert_eq!(position_of(&vec![3, 1, 4, 1], 1), Some(1));
    assert_eq!(position_of(&vec![3, 1, 4, 1], 9), None);
}

#[test]
fn id_hop_match_accepts_the_right_drone() {
    let d = drone(2, vec![3], 0);
    assert!(id_hop_match_check(&d, fragment_packet(vec![1, 2, 3], 1, 0, 0)).is_ok());
    let e = id_hop_match_check(&d, fragment_packet(vec![1, 5, 3], 1, 0, 0)).unwrap_err();
    match e.pack_type {
        PacketType::Nack(n) => assert_eq!(n.nack_type, NackType::UnexpectedRecipient(2)),
        other => panic!("expected a Nack, got {:?}", other),
    }
}

#[test]
fn final_destination_rejects_routes_ending_here() {
    let d = drone(2, vec![3], 0);
    assert!(final_destination_check(&d, fragment_packet(vec![1, 2, 3], 1, 0, 0)).is_ok());
    let e = final_destination_check(&d, fragment_packet(vec![1, 3, 2], 2, 0, 0)).unwrap_err();
    match e.pack_type {
        PacketType::Nack(n) => assert_eq!(n.nack_type, NackType::DestinationIsDrone),
        other => panic!("expected a Nack, got {:?}", other),
    }
}

#[test]
fn pdr_zero_passes_and_pdr_hundred_drops() {
    let lenient = drone(2, vec![3], 0);
    assert!(pdr_check(&lenient, fragment_packet(vec![1, 2, 3], 1, 0, 0)).is_ok());
    let strict = drone(2, vec![3], 100);
    let e = pdr_check(&strict, fragment_packet(vec![1, 2, 3], 1, 0, 5)).unwrap_err();
    match e.pack_type {
        PacketType::Nack(n) => {
            assert_eq!(n.nack_type, NackType::Dropped);
            assert_eq!(n.fragment_index, 5);
        },
        other => panic!("expected a Nack, got {:?}", other),
    }
    assert_eq!(e.routing_header.hops, vec![2, 1]);
}

#[test]
fn next_hop_must_be_a_neighbour() {
    let d = drone(2, vec![3], 0);
    assert!(is_next_hop_check(&d, fragment_packet(vec![1, 2, 3], 2, 0, 0)).is_ok());
    let e = is_next_hop_check(&d, fragment_packet(vec![1, 2, 9], 2, 0, 0)).unwrap_err();
    match e.pack_type {
        PacketType::Nack(n) => assert_eq!(n.nack_type, NackType::ErrorInRouting(9)),
        other => panic!("expected a Nack, got {:?}", other),
    }
}

#[test]
fn flood_response_route_reverses_the_trace() {
    let fr = skylink::packet::FloodRequest {
        flood_id: 42,
        initiator_id: 1,
        path_trace: vec![
            (1, skylink::packet::NodeType::Client),
            (2, skylink::packet::NodeType::Drone),
            (5, skylink::packet::NodeType::Drone),
        ],
    };
    let resp = SkyLinkDrone::build_flood_response(&fr);
    assert_eq!(resp.routing_header.hops, vec![5, 2, 1]);
    assert_eq!(resp.routing_header.hop_index, 0);
    assert_eq!(resp.session_id, 42);
    match resp.pack_type {
        PacketType::FloodResponse(g) => {
            assert_eq!(g.flood_id, 42);
            assert_eq!(g.path_trace, fr.path_trace);
        },
        other => panic!("expected a FloodResponse, got {:?}", other),
    }
}

#[test]
fn drop_decision_follows_the_draw_exactly() {
    let d = drone(2, vec![3], 40);
    // a draw below the rate drops, one at or above it does not
    let e = decide_drop(&d, 39, fragment_packet(vec![1, 2, 3], 1, 0, 7)).unwrap_err();
    match e.pack_type {
        PacketType::Nack(n) => {
            assert_eq!(n.nack_type, NackType::Dropped);
            assert_eq!(n.fragment_index, 7);
        },
        other => panic!("expected a Nack, got {:?}", other),
    }
    assert!(decide_drop(&d, 40, fragment_packet(vec![1, 2, 3], 1, 0, 7)).is_ok());
    assert!(decide_drop(&d, 99, fragment_packet(vec![1, 2, 3], 1, 0, 7)).is_ok());
    assert!(decide_drop(&d, 0, fragment_packet(vec![1, 2, 3], 1, 0, 7)).is_err());
}

#[test]
fn drop_decision_never_touches_other_classes() {
    let d = drone(2, vec![3], 100);
    let p = Packet {
        pack_type: PacketType::Ack(Ack { fragment_index: 1 }),
        routing_header: SourceRoutingHeader { hop_index: 1, hops: vec![1, 2, 3] },
        session_id: 0,
    };
    assert!(decide_drop(&d, 0, p).is_ok());
}
