//! Messages exchanged with the simulation controller, and the inputs one
//! turn of the drone's event loop can observe.

use vstd::prelude::*;

use crate::packet::{packet_eq, NodeId, Packet};

verus! {

/// A notification from the drone to the simulation controller.
#[derive(Debug, PartialEq, Eq)]
pub enum DroneEvent {
    /// A packet left the drone toward a neighbour.
    PacketSent(Packet),
    /// A fragment originated by this node was discarded by the drop check.
    PacketDropped(Packet),
    /// A packet the drone could not route itself, handed to the controller.
    ControllerShortcut(Packet),
}

/// An instruction from the simulation controller to the drone.
pub enum DroneCommand {
    /// Register (or replace) the outbound channel toward a neighbour.
    AddSender(NodeId, crossbeam_channel::Sender<Packet>),
    /// Drop the outbound channel toward a neighbour, releasing it.
    RemoveSender(NodeId),
    /// Set the packet drop rate, in hundredths; clamped to [0, 100].
    /// Whoever produces the command converts a real rate in [0, 1] by
    /// scaling it by one hundred and truncating (as the runner's
    /// constructor does for the initial rate); the drone itself only
    /// clamps.
    SetPacketDropRate(u32),
    /// Enter crashing mode. Irreversible.
    Crash,
}

/// What one turn of the biased select observed: a command, a packet, or a
/// channel seen disconnected.
pub enum DroneInput {
    Command(DroneCommand),
    CommandChannelClosed,
    Packet(Packet),
    PacketChannelClosed,
}

/// Structural equality of controller events, stated over packet views.
pub open spec fn ev_like(a: DroneEvent, b: DroneEvent) -> bool {
    match (a, b) {
        (DroneEvent::PacketSent(p), DroneEvent::PacketSent(q)) => packet_eq(p, q),
        (DroneEvent::PacketDropped(p), DroneEvent::PacketDropped(q)) => packet_eq(p, q),
        (DroneEvent::ControllerShortcut(p), DroneEvent::ControllerShortcut(q)) => packet_eq(p, q),
        _ => false,
    }
}

/// `post` is `pre` with one more event, structurally equal to `e`.
pub open spec fn events_pushed_like(post: Seq<DroneEvent>, pre: Seq<DroneEvent>, e: DroneEvent) -> bool {
    &&& post.len() == pre.len() + 1
    &&& pre.is_prefix_of(post)
    &&& ev_like(post.last(), e)
}

/// `post` is `pre` with one more delivery: a packet structurally equal to
/// `q`, handed to neighbour `to`.
pub open spec fn sent_pushed_like(
    post: Seq<(NodeId, Packet)>,
    pre: Seq<(NodeId, Packet)>,
    to: NodeId,
    q: Packet,
) -> bool {
    &&& post.len() == pre.len() + 1
    &&& pre.is_prefix_of(post)
    &&& post.last().0 == to
    &&& packet_eq(post.last().1, q)
}

} // verus!
