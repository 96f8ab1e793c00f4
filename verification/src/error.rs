//! The nack factory: builds a reverse-routed error packet for a failure,
//! as seen from a given starting node.

use vstd::prelude::*;

use crate::packet::{fragment_index_of, Nack, NackType, NodeId, Packet, PacketType, SourceRoutingHeader};

verus! {

/// The index of the first occurrence of `x` in `s`. Meaningful only when
/// `s` contains `x`.
pub open spec fn first_index(s: Seq<NodeId>, x: NodeId) -> int
    decreases s.len(),
{
    if s.len() == 0 {
        0
    } else if s[0] == x {
        0
    } else {
        1 + first_index(s.drop_first(), x)
    }
}

pub proof fn lemma_first_index(s: Seq<NodeId>, x: NodeId)
    requires
        s.contains(x),
    ensures
        0 <= first_index(s, x) < s.len(),
        s[first_index(s, x)] == x,
        forall|j: int| 0 <= j < first_index(s, x) ==> s[j] != x,
    decreases s.len(),
{
    if s[0] == x {
    } else {
        let t = s.drop_first();
        assert(t.contains(x)) by {
            let i = choose|i: int| 0 <= i < s.len() && s[i] == x;
            assert(t[i - 1] == x);
        }
        lemma_first_index(t, x);
        let f = first_index(t, x);
        assert(forall|j: int| 1 <= j < 1 + f ==> s[j] == t[j - 1]);
    }
}

/// A position with no earlier occurrence is the first index.
pub proof fn lemma_first_index_unique(s: Seq<NodeId>, x: NodeId, i: int)
    requires
        0 <= i < s.len(),
        s[i] == x,
        forall|j: int| 0 <= j < i ==> s[j] != x,
    ensures
        s.contains(x),
        first_index(s, x) == i,
    decreases s.len(),
{
    assert(s.contains(x));
    if i == 0 {
    } else {
        let t = s.drop_first();
        assert(t[i - 1] == x);
        assert(forall|j: int| 0 <= j < i - 1 ==> t[j] == s[j + 1] && s[j + 1] != x);
        lemma_first_index_unique(t, x, i - 1);
    }
}

/// The route a synthesised Nack travels: the prefix of the original hops up
/// to and including the starting node, reversed.
pub open spec fn nack_hops(hops: Seq<NodeId>, start: NodeId) -> Seq<NodeId> {
    hops.take(first_index(hops, start) + 1).reverse()
}

/// `e` is the Nack the factory builds from `orig` for starting node `start`
/// and reason `nt`, currently at position `idx` of its reversed route.
pub open spec fn is_nack_for_at(e: Packet, orig: Packet, start: NodeId, nt: NackType, idx: int) -> bool {
    &&& e.pack_type == PacketType::Nack(
        Nack { fragment_index: fragment_index_of(orig), nack_type: nt },
    )
    &&& e.routing_header.hop_index == idx
    &&& e.routing_header.hops@ == nack_hops(orig.routing_header.hops@, start)
    &&& e.session_id == orig.session_id
}

/// `e` is the Nack the factory builds from `orig`, still at the start of
/// its route.
pub open spec fn is_nack_for(e: Packet, orig: Packet, start: NodeId, nt: NackType) -> bool {
    is_nack_for_at(e, orig, start, nt, 0)
}

/// The first index of `x` in a hop list, or `None` when it does not occur.
pub fn position_of(hops: &Vec<NodeId>, x: NodeId) -> (r: Option<usize>)
    ensures
        match r {
            Some(i) => hops@.contains(x) && i == first_index(hops@, x),
            None => !hops@.contains(x),
        },
{
    let mut i: usize = 0;
    while i < hops.len()
        invariant
            i <= hops@.len(),
            forall|j: int| 0 <= j < i ==> hops@[j] != x,
        decreases hops@.len() - i,
    {
        if hops[i] == x {
            proof {
                lemma_first_index_unique(hops@, x, i as int);
            }
            return Some(i);
        }
        i += 1;
    }
    None
}

/// Builds the Nack packet: reason and fragment index as given, the route the
/// reversed prefix of the original hops up to `starting_id`, session kept.
fn create_packet(starting_id: NodeId, fragment_index: u64, nack_type: NackType, packet: Packet) -> (r: Packet)
    requires
        packet.routing_header.hops@.contains(starting_id),
    ensures
        r.pack_type == PacketType::Nack(Nack { fragment_index, nack_type }),
        r.routing_header.hop_index == 0,
        r.routing_header.hops@ == nack_hops(packet.routing_header.hops@, starting_id),
        r.session_id == packet.session_id,
{
    let ghost hs = packet.routing_header.hops@;
    proof {
        lemma_first_index(hs, starting_id);
    }
    let pos = match position_of(&packet.routing_header.hops, starting_id) {
        Some(p) => p,
        None => unreached(),
    };
    let mut hops: Vec<NodeId> = Vec::new();
    let mut i: usize = 0;
    while i <= pos
        invariant
            pos < packet.routing_header.hops@.len(),
            packet.routing_header.hops@ == hs,
            i <= pos + 1,
            hops@.len() == i,
            forall|j: int| 0 <= j < i ==> hops@[j] == hs[pos - j],
        decreases pos + 1 - i,
    {
        hops.push(packet.routing_header.hops[pos - i]);
        i += 1;
    }
    proof {
        assert(hops@ =~= nack_hops(hs, starting_id));
    }
    Packet {
        pack_type: PacketType::Nack(Nack { fragment_index, nack_type }),
        routing_header: SourceRoutingHeader { hop_index: 0, hops },
        session_id: packet.session_id,
    }
}

/// Builds the Nack for `packet` with the given reason. The fragment index is
/// the fragment's own where `packet` is a fragment, and zero otherwise.
pub fn create_error(starting_id: NodeId, packet: Packet, nack_type: NackType) -> (r: Packet)
    requires
        packet.routing_header.hops@.contains(starting_id),
    ensures
        is_nack_for(r, packet, starting_id, nack_type),
{
    let fragment_index: u64 = match &packet.pack_type {
        PacketType::MsgFragment(f) => f.fragment_index,
        _ => 0,
    };
    create_packet(starting_id, fragment_index, nack_type, packet)
}

/// The Nack a crashing drone answers a fragment with: `ErrorInRouting` named
/// after the crashing node itself.
pub fn crashing_create_error(starting_id: NodeId, packet: Packet) -> (r: Packet)
    requires
        packet.routing_header.hops@.contains(starting_id),
    ensures
        is_nack_for(r, packet, starting_id, NackType::ErrorInRouting(starting_id)),
{
    let fragment_index: u64 = match &packet.pack_type {
        PacketType::MsgFragment(f) => f.fragment_index,
        _ => 0,
    };
    create_packet(starting_id, fragment_index, NackType::ErrorInRouting(starting_id), packet)
}

/// Law: a Nack's hops are the prefix of the original hops up to and
/// including the starting node, reversed; applying the synthesis again to
/// the Nack's own route, from the original sender, yields that prefix back.
pub proof fn lemma_nack_hops_round_trip(hops: Seq<NodeId>, start: NodeId)
    requires
        hops.contains(start),
        forall|j: int| 1 <= j <= first_index(hops, start) ==> #[trigger] hops[j] != hops[0],
    ensures
        nack_hops(nack_hops(hops, start), hops[0]) == hops.take(first_index(hops, start) + 1),
{
    let p = first_index(hops, start);
    lemma_first_index(hops, start);
    let pref = hops.take(p + 1);
    let rev = pref.reverse();
    assert(forall|j: int| 0 <= j <= p ==> rev[j] == hops[p - j]);
    lemma_first_index_unique(rev, hops[0], p);
    assert(rev.take(p + 1) =~= rev);
    assert(rev.reverse() =~= pref);
}

} // verus!
