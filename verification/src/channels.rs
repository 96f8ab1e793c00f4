//! The crossbeam channel endpoints the drone holds, behind trusted items.
//! Whether a send succeeds depends on the far end of the channel, so the
//! wrappers promise nothing of the outcome.

use vstd::prelude::*;

use crate::controller::DroneEvent;
use crate::packet::Packet;

verus! {

#[verifier::external_type_specification]
#[verifier::external_body]
#[verifier::reject_recursive_types(T)]
pub struct ExSender<T>(crossbeam_channel::Sender<T>);

/// Relies on crossbeam_channel::Sender::try_send: the message is delivered
/// into the channel and the call returns Ok, or it fails without ever
/// blocking, when every receiver is gone or a bounded channel is full. A
/// packet a channel will not take right now counts as undeliverable. Which
/// of the two happens depends on the far end, so nothing is promised of the
/// result.
#[verifier::external_body]
pub(crate) fn send_packet(s: &crossbeam_channel::Sender<Packet>, p: Packet) -> (ok: bool) {
    s.try_send(p).is_ok()
}

/// Relies on crossbeam_channel::Sender::send, on the channel toward the
/// simulation controller. That channel is assumed always available; losing
/// it is a fatal fault of the environment and stops the drone, so this
/// wrapper does not return an outcome.
#[verifier::external_body]
pub(crate) fn send_event(s: &crossbeam_channel::Sender<DroneEvent>, e: DroneEvent) {
    s.send(e).unwrap();
}

} // verus!
