//! The validators applied in order to every routable (non-flood) packet.
//! Each either passes the packet through or yields an already-addressed
//! error packet: a synthesised Nack for fragments, the surfaced packet
//! itself for every other class.

use vstd::prelude::*;

use crate::drone::SkyLinkDrone;
use crate::error::{create_error, is_nack_for};
use crate::packet::{dest_of, is_flood_request, is_fragment, packet_eq, NackType, Packet, PacketType};

verus! {

/// Relies on fastrand::u32 over the range [0, 100): the draw is uniform in
/// that range, so in particular always below 100.
#[verifier::external_body]
fn pdr_roll() -> (r: u32)
    ensures
        r < 100,
{
    fastrand::u32(0..100)
}

/// Passes when this drone is the intended current hop. Otherwise a fragment
/// becomes an `UnexpectedRecipient` Nack as seen from the intended hop; any
/// other packet is surfaced unchanged for the controller shortcut.
pub fn id_hop_match_check(drone: &SkyLinkDrone, packet: Packet) -> (r: Result<(), Packet>)
    requires
        !is_flood_request(packet),
        packet.routing_header.hop_index < packet.routing_header.hops@.len(),
    ensures
        ({
            let hs = packet.routing_header.hops@;
            let hi = packet.routing_header.hop_index as int;
            match r {
                Ok(()) => hs[hi] == drone.id(),
                Err(e) => {
                    &&& hs[hi] != drone.id()
                    &&& if is_fragment(packet) {
                        is_nack_for(e, packet, hs[hi], NackType::UnexpectedRecipient(drone.id()))
                    } else {
                        packet_eq(e, packet)
                    }
                },
            }
        }),
{
    let here = packet.routing_header.hops[packet.routing_header.hop_index];
    if here == drone.get_id() {
        Ok(())
    } else {
        match &packet.pack_type {
            PacketType::MsgFragment(_) => {
                proof {
                    assert(packet.routing_header.hops@.contains(here));
                }
                Err(create_error(here, packet, NackType::UnexpectedRecipient(drone.get_id())))
            },
            _ => Err(packet),
        }
    }
}

/// Passes when the route goes on past this drone. A route that ends here is
/// an error: drones are relays, never endpoints; a fragment becomes a
/// `DestinationIsDrone` Nack.
pub fn final_destination_check(drone: &SkyLinkDrone, packet: Packet) -> (r: Result<(), Packet>)
    requires
        !is_flood_request(packet),
        packet.routing_header.hops@.len() > 0,
    ensures
        match r {
            Ok(()) => dest_of(packet.routing_header) != drone.id(),
            Err(e) => {
                &&& dest_of(packet.routing_header) == drone.id()
                &&& if is_fragment(packet) {
                    is_nack_for(e, packet, drone.id(), NackType::DestinationIsDrone)
                } else {
                    packet_eq(e, packet)
                }
            },
        },
{
    let last = packet.routing_header.hops[packet.routing_header.hops.len() - 1];
    if last != drone.get_id() {
        Ok(())
    } else {
        match &packet.pack_type {
            PacketType::MsgFragment(_) => {
                proof {
                    assert(packet.routing_header.hops@.contains(drone.id()));
                }
                Err(create_error(drone.get_id(), packet, NackType::DestinationIsDrone))
            },
            _ => Err(packet),
        }
    }
}

/// The drop decision on an explicit draw: a fragment is discarded exactly
/// when the draw falls below the drop rate, becoming a `Dropped` Nack; any
/// other packet class passes whatever the draw was.
pub fn decide_drop(drone: &SkyLinkDrone, roll: u32, packet: Packet) -> (r: Result<(), Packet>)
    requires
        is_fragment(packet) ==> packet.routing_header.hops@.contains(drone.id()),
    ensures
        r is Err <==> (is_fragment(packet) && roll < drone.pdr()),
        match r {
            Ok(()) => true,
            Err(e) => is_nack_for(e, packet, drone.id(), NackType::Dropped),
        },
{
    match &packet.pack_type {
        PacketType::MsgFragment(_) => {
            if roll < drone.get_pdr() {
                Err(create_error(drone.get_id(), packet, NackType::Dropped))
            } else {
                Ok(())
            }
        },
        _ => Ok(()),
    }
}

/// The stochastic drop: a fragment is discarded when a uniform draw from
/// [0, 100) falls below the drop rate. A rate of zero never drops; a rate
/// of one hundred drops every fragment; in between the decision is
/// `decide_drop`'s, on whatever the draw was. Any other packet class always
/// passes.
pub fn pdr_check(drone: &SkyLinkDrone, packet: Packet) -> (r: Result<(), Packet>)
    requires
        is_fragment(packet) ==> packet.routing_header.hops@.contains(drone.id()),
    ensures
        match r {
            Ok(()) => true,
            Err(e) => {
                &&& is_fragment(packet)
                &&& drone.pdr() > 0
                &&& is_nack_for(e, packet, drone.id(), NackType::Dropped)
            },
        },
        drone.pdr() == 0 ==> r is Ok,
        is_fragment(packet) && drone.pdr() >= 100 ==> r is Err,
{
    let roll = pdr_roll();
    decide_drop(drone, roll, packet)
}

/// Passes when the hop after this drone is a registered neighbour. An
/// unknown next hop turns a fragment into an `ErrorInRouting` Nack naming
/// the missing node.
pub fn is_next_hop_check(drone: &SkyLinkDrone, packet: Packet) -> (r: Result<(), Packet>)
    requires
        !is_flood_request(packet),
        packet.routing_header.hop_index < packet.routing_header.hops@.len(),
        is_fragment(packet) ==> packet.routing_header.hops@.contains(drone.id()),
    ensures
        ({
            let hs = packet.routing_header.hops@;
            let hi = packet.routing_header.hop_index as int;
            match r {
                Ok(()) => drone.has_nbr(hs[hi]),
                Err(e) => {
                    &&& !drone.has_nbr(hs[hi])
                    &&& if is_fragment(packet) {
                        is_nack_for(e, packet, drone.id(), NackType::ErrorInRouting(hs[hi]))
                    } else {
                        packet_eq(e, packet)
                    }
                },
            }
        }),
{
    let next_hop = packet.routing_header.hops[packet.routing_header.hop_index];
    if drone.knows_neighbour(next_hop) {
        Ok(())
    } else {
        match &packet.pack_type {
            PacketType::MsgFragment(_) => {
                Err(create_error(drone.get_id(), packet, NackType::ErrorInRouting(next_hop)))
            },
            _ => Err(packet),
        }
    }
}

} // verus!
