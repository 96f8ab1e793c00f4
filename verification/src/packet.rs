//! The data model of the swarm protocol: packets, routing headers, flood
//! messages and negative acknowledgements.

use vstd::prelude::*;

verus! {

/// Identifier of a node in the swarm. Unique within a topology.
pub type NodeId = u8;

/// The role a node plays in the network, as recorded in flood path traces.
#[derive(Clone, Copy, PartialEq, Eq, Debug)]
pub enum NodeType {
    Client,
    Drone,
    Server,
}

/// The reason a negative acknowledgement was synthesised.
#[derive(Clone, Copy, PartialEq, Eq, Debug)]
pub enum NackType {
    /// The next hop is not a neighbour of the reporting drone (or a send to
    /// it failed); carries the offending node.
    ErrorInRouting(NodeId),
    /// The route named a drone as its final destination.
    DestinationIsDrone,
    /// The fragment was discarded by the packet-drop-rate check.
    Dropped,
    /// The packet reached a node that was not the intended hop; carries the
    /// actual receiver.
    UnexpectedRecipient(NodeId),
}

/// One piece of a fragmented user message. Only the index matters to a
/// drone: it is echoed in any Nack synthesised for the fragment.
#[derive(Clone, Copy, PartialEq, Eq, Debug)]
pub struct Fragment {
    pub fragment_index: u64,
}

/// Positive acknowledgement for a fragment; relayed, never synthesised here.
#[derive(Clone, Copy, PartialEq, Eq, Debug)]
pub struct Ack {
    pub fragment_index: u64,
}

/// Negative acknowledgement for a fragment.
#[derive(Clone, Copy, PartialEq, Eq, Debug)]
pub struct Nack {
    pub fragment_index: u64,
    pub nack_type: NackType,
}

/// A network-discovery wave. Its path is the `path_trace`, not the routing
/// header, which a flood request ignores entirely.
#[derive(PartialEq, Eq, Debug)]
pub struct FloodRequest {
    pub flood_id: u64,
    pub initiator_id: NodeId,
    pub path_trace: Vec<(NodeId, NodeType)>,
}

/// The answer to a flood request, carrying the final path trace back.
#[derive(PartialEq, Eq, Debug)]
pub struct FloodResponse {
    pub flood_id: u64,
    pub path_trace: Vec<(NodeId, NodeType)>,
}

/// The variants a packet can carry.
#[derive(PartialEq, Eq, Debug)]
pub enum PacketType {
    MsgFragment(Fragment),
    Ack(Ack),
    Nack(Nack),
    FloodRequest(FloodRequest),
    FloodResponse(FloodResponse),
}

/// A source route. `hops[hop_index]` is the node meant to hold the packet
/// at this moment; the sender fixed the whole hop list.
#[derive(PartialEq, Eq, Debug)]
pub struct SourceRoutingHeader {
    pub hop_index: usize,
    pub hops: Vec<NodeId>,
}

/// A unit of traffic carried through the channels.
#[derive(PartialEq, Eq, Debug)]
pub struct Packet {
    pub pack_type: PacketType,
    pub routing_header: SourceRoutingHeader,
    pub session_id: u64,
}

/// Structural equality of packet payloads, stated over views so that it is
/// meaningful for the `Vec`-carrying variants.
pub open spec fn pt_eq(a: PacketType, b: PacketType) -> bool {
    match (a, b) {
        (PacketType::MsgFragment(x), PacketType::MsgFragment(y)) => x == y,
        (PacketType::Ack(x), PacketType::Ack(y)) => x == y,
        (PacketType::Nack(x), PacketType::Nack(y)) => x == y,
        (PacketType::FloodRequest(x), PacketType::FloodRequest(y)) => {
            &&& x.flood_id == y.flood_id
            &&& x.initiator_id == y.initiator_id
            &&& x.path_trace@ == y.path_trace@
        },
        (PacketType::FloodResponse(x), PacketType::FloodResponse(y)) => {
            &&& x.flood_id == y.flood_id
            &&& x.path_trace@ == y.path_trace@
        },
        _ => false,
    }
}

/// Structural equality of whole packets.
pub open spec fn packet_eq(a: Packet, b: Packet) -> bool {
    &&& pt_eq(a.pack_type, b.pack_type)
    &&& a.routing_header.hop_index == b.routing_header.hop_index
    &&& a.routing_header.hops@ == b.routing_header.hops@
    &&& a.session_id == b.session_id
}

/// Structurally equal packets agree on everything a contract reads.
pub proof fn lemma_packet_eq_props(a: Packet, b: Packet)
    requires
        packet_eq(a, b),
    ensures
        is_fragment(a) == is_fragment(b),
        is_flood_request(a) == is_flood_request(b),
        fragment_index_of(a) == fragment_index_of(b),
        flood_key_of(a) == flood_key_of(b),
        a.session_id == b.session_id,
        a.routing_header.hops@ == b.routing_header.hops@,
        a.routing_header.hop_index == b.routing_header.hop_index,
{
}

pub open spec fn is_fragment(p: Packet) -> bool {
    p.pack_type matches PacketType::MsgFragment(_)
}

pub open spec fn is_flood_request(p: Packet) -> bool {
    p.pack_type matches PacketType::FloodRequest(_)
}

/// The fragment index echoed in a Nack: the fragment's own index, or zero
/// for any other packet class.
pub open spec fn fragment_index_of(p: Packet) -> u64 {
    match p.pack_type {
        PacketType::MsgFragment(f) => f.fragment_index,
        _ => 0,
    }
}

/// The wave a flood request belongs to.
pub open spec fn flood_key_of(p: Packet) -> Option<(u64, NodeId)> {
    match p.pack_type {
        PacketType::FloodRequest(f) => Some((f.flood_id, f.initiator_id)),
        _ => None,
    }
}

/// The node ids recorded along a path trace, in traversal order.
pub open spec fn trace_ids(t: Seq<(NodeId, NodeType)>) -> Seq<NodeId> {
    t.map_values(|p: (NodeId, NodeType)| p.0)
}

/// The route of a flood response: the trace's node ids walked backwards,
/// with the initiator appended when the trace does not begin with it (a
/// client whose node kind kept it from inserting itself).
pub open spec fn flood_resp_hops(t: Seq<(NodeId, NodeType)>, initiator: NodeId) -> Seq<NodeId> {
    let ids = trace_ids(t).reverse();
    if t.len() > 0 && t[0].0 != initiator {
        ids.push(initiator)
    } else {
        ids
    }
}

/// The final destination of a source route: its last hop.
pub open spec fn dest_of(h: SourceRoutingHeader) -> NodeId {
    h.hops@.last()
}

/// The hop index after the conditional advance: one further when the route
/// goes on, unchanged when the current node is its last entry.
pub open spec fn adv_index(h: SourceRoutingHeader) -> usize {
    if h.hop_index + 1 < h.hops@.len() {
        (h.hop_index + 1) as usize
    } else {
        h.hop_index
    }
}

/// `p` with its hop index conditionally advanced.
pub open spec fn advanced(p: Packet) -> Packet {
    Packet {
        pack_type: p.pack_type,
        routing_header: SourceRoutingHeader {
            hop_index: adv_index(p.routing_header),
            hops: p.routing_header.hops,
        },
        session_id: p.session_id,
    }
}

/// `p` with its hop index unconditionally one further, as a Nack is stamped
/// when it is handed to the neighbour it reports to.
pub open spec fn bumped(p: Packet) -> Packet {
    Packet {
        pack_type: p.pack_type,
        routing_header: SourceRoutingHeader {
            hop_index: (p.routing_header.hop_index + 1) as usize,
            hops: p.routing_header.hops,
        },
        session_id: p.session_id,
    }
}

/// Copies a hop list element by element.
pub fn clone_hops(v: &Vec<NodeId>) -> (r: Vec<NodeId>)
    ensures
        r@ == v@,
{
    let mut r: Vec<NodeId> = Vec::new();
    let mut i: usize = 0;
    while i < v.len()
        invariant
            i <= v.len(),
            r@ == v@.take(i as int),
        decreases v.len() - i,
    {
        r.push(v[i]);
        proof {
            assert(r@ =~= v@.take(i + 1 as int));
        }
        i = i + 1;
    }
    proof {
        assert(r@ =~= v@);
    }
    r
}

/// Copies a path trace element by element.
pub fn clone_trace(v: &Vec<(NodeId, NodeType)>) -> (r: Vec<(NodeId, NodeType)>)
    ensures
        r@ == v@,
{
    let mut r: Vec<(NodeId, NodeType)> = Vec::new();
    let mut i: usize = 0;
    while i < v.len()
        invariant
            i <= v.len(),
            r@ == v@.take(i as int),
        decreases v.len() - i,
    {
        r.push(v[i]);
        proof {
            assert(r@ =~= v@.take(i + 1 as int));
        }
        i = i + 1;
    }
    proof {
        assert(r@ =~= v@);
    }
    r
}

impl Clone for SourceRoutingHeader {
    /// A copy that keeps the index and the hop list.
    fn clone(&self) -> (r: Self)
        ensures
            r.hop_index == self.hop_index,
            r.hops@ == self.hops@,
    {
        SourceRoutingHeader { hop_index: self.hop_index, hops: clone_hops(&self.hops) }
    }
}

impl Clone for FloodRequest {
    /// A copy that keeps every field.
    fn clone(&self) -> (r: Self)
        ensures
            r.flood_id == self.flood_id,
            r.initiator_id == self.initiator_id,
            r.path_trace@ == self.path_trace@,
    {
        FloodRequest {
            flood_id: self.flood_id,
            initiator_id: self.initiator_id,
            path_trace: clone_trace(&self.path_trace),
        }
    }
}

impl Clone for FloodResponse {
    /// A copy that keeps every field.
    fn clone(&self) -> (r: Self)
        ensures
            r.flood_id == self.flood_id,
            r.path_trace@ == self.path_trace@,
    {
        FloodResponse { flood_id: self.flood_id, path_trace: clone_trace(&self.path_trace) }
    }
}

impl Clone for PacketType {
    /// A structurally equal copy.
    fn clone(&self) -> (r: Self)
        ensures
            pt_eq(r, *self),
    {
        match self {
            PacketType::MsgFragment(f) => PacketType::MsgFragment(*f),
            PacketType::Ack(a) => PacketType::Ack(*a),
            PacketType::Nack(n) => PacketType::Nack(*n),
            PacketType::FloodRequest(f) => PacketType::FloodRequest(f.clone()),
            PacketType::FloodResponse(f) => PacketType::FloodResponse(f.clone()),
        }
    }
}

impl Clone for Packet {
    /// A structurally equal copy.
    fn clone(&self) -> (r: Self)
        ensures
            packet_eq(r, *self),
    {
        Packet {
            pack_type: self.pack_type.clone(),
            routing_header: self.routing_header.clone(),
            session_id: self.session_id,
        }
    }
}

} // verus!
