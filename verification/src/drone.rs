//! The drone itself: its state, its well-formedness invariant, and the
//! handlers of the dual-mode (running / crashing) event loop.
//!
//! Three ghost logs record what the drone hands to the outside: `tried`,
//! every delivery attempt made on a neighbour's channel; `sent`, the
//! attempts the channels accepted; and `events`, the notifications given to
//! the simulation controller. Every contract of the handlers is stated over
//! these logs and the drone's visible state.

use vstd::prelude::*;

use crate::channels::send_event;
use crate::channels::send_packet;
use crate::checks::{final_destination_check, id_hop_match_check, is_next_hop_check, pdr_check};
use crate::controller::{ev_like, events_pushed_like, sent_pushed_like, DroneCommand, DroneEvent, DroneInput};
use crate::error::{create_error, crashing_create_error, first_index, is_nack_for, is_nack_for_at, lemma_first_index, nack_hops, position_of};
use crate::packet::{adv_index, advanced, bumped, clone_hops, flood_key_of, flood_resp_hops, is_flood_request, is_fragment, lemma_packet_eq_props, packet_eq, trace_ids, FloodRequest, NackType, NodeId, NodeType, Packet, PacketType, SourceRoutingHeader};
use crate::packet::FloodResponse;
use crate::packet::clone_trace;

verus! {

/// One node of the swarm: relays source-routed traffic between neighbours
/// under the supervision of the simulation controller.
pub struct SkyLinkDrone {
    id: NodeId,
    controller_send: crossbeam_channel::Sender<DroneEvent>,
    packet_send: Vec<(NodeId, crossbeam_channel::Sender<Packet>)>,
    pdr: u32,
    flood_ids: Vec<(u64, NodeId)>,
    crashing: bool,
    cmd_closed: bool,
    pkt_closed: bool,
    events: Ghost<Seq<DroneEvent>>,
    sent: Ghost<Seq<(NodeId, Packet)>>,
    tried: Ghost<Seq<(NodeId, Packet)>>,
}

impl SkyLinkDrone {
    /// This drone's node id.
    pub closed spec fn id(self) -> NodeId {
        self.id
    }

    /// The packet drop rate, in hundredths.
    pub closed spec fn pdr(self) -> u32 {
        self.pdr
    }

    /// Whether the `Crash` command has been received.
    pub closed spec fn crashing(self) -> bool {
        self.crashing
    }

    /// Whether the command channel has been observed disconnected while
    /// crashing.
    pub closed spec fn cmd_closed(self) -> bool {
        self.cmd_closed
    }

    /// Whether the packet channel has been observed disconnected while
    /// crashing.
    pub closed spec fn pkt_closed(self) -> bool {
        self.pkt_closed
    }

    /// The ids of the current neighbours, in table order.
    pub closed spec fn nbr_ids(self) -> Seq<NodeId> {
        self.packet_send@.map_values(|e: (NodeId, crossbeam_channel::Sender<Packet>)| e.0)
    }

    /// Whether `n` is a current neighbour.
    pub open spec fn has_nbr(self, n: NodeId) -> bool {
        self.nbr_ids().contains(n)
    }

    /// The flood waves already forwarded or answered, in order of first
    /// sight.
    pub closed spec fn seen(self) -> Seq<(u64, NodeId)> {
        self.flood_ids@
    }

    /// The log of notifications handed to the controller.
    pub closed spec fn events(self) -> Seq<DroneEvent> {
        self.events@
    }

    /// The log of packets delivered to neighbours, each with its recipient.
    pub closed spec fn sent(self) -> Seq<(NodeId, Packet)> {
        self.sent@
    }

    /// The log of delivery attempts: every packet the drone handed to a
    /// neighbour's channel, whether or not the channel accepted it. `sent`
    /// holds the attempts that were accepted.
    pub closed spec fn tried(self) -> Seq<(NodeId, Packet)> {
        self.tried@
    }

    /// A delivery is well addressed: any routed packet handed to a
    /// neighbour carries that neighbour at its current hop index. Flood
    /// requests travel by their path trace and are exempt.
    pub open spec fn wf_delivery(e: (NodeId, Packet)) -> bool {
        !is_flood_request(e.1) ==> {
            &&& e.1.routing_header.hop_index < e.1.routing_header.hops@.len()
            &&& e.1.routing_header.hops@[e.1.routing_header.hop_index as int] == e.0
        }
    }

    /// The neighbour table is sound: ids are distinct and never the drone's
    /// own.
    pub open spec fn nbrs_wf(self) -> bool {
        &&& forall|i: int, j: int|
            0 <= i < j < self.nbr_ids().len() ==> self.nbr_ids()[i] != self.nbr_ids()[j]
        &&& forall|i: int| 0 <= i < self.nbr_ids().len() ==> self.nbr_ids()[i] != self.id()
    }

    /// Each flood wave is recorded at most once.
    pub open spec fn seen_wf(self) -> bool {
        forall|i: int, j: int| 0 <= i < j < self.seen().len() ==> self.seen()[i] != self.seen()[j]
    }

    /// Every delivery so far was well addressed, and every flood wave ever
    /// forwarded is recorded in `seen`.
    pub open spec fn sent_wf(self) -> bool {
        &&& forall|k: int| 0 <= k < self.sent().len() ==> Self::wf_delivery(#[trigger] self.sent()[k])
        &&& forall|k: int|
            0 <= k < self.sent().len() ==> match flood_key_of((#[trigger] self.sent()[k]).1) {
                Some(key) => self.seen().contains(key),
                None => true,
            }
    }

    /// Well-formedness of the whole drone.
    pub open spec fn inv(self) -> bool {
        &&& self.nbrs_wf()
        &&& self.seen_wf()
        &&& self.sent_wf()
        &&& self.pdr() <= 100
        &&& (self.cmd_closed() ==> self.crashing())
        &&& (self.pkt_closed() ==> self.crashing())
    }

    /// Neighbour soundness carries over to any state with the same table
    /// and id.
    proof fn lemma_nbrs_wf_transfer(pre: Self, post: Self)
        requires
            pre.nbrs_wf(),
            post.nbr_ids() == pre.nbr_ids(),
            post.id() == pre.id(),
        ensures
            post.nbrs_wf(),
    {
        assert forall|i: int, j: int|
            0 <= i < j < post.nbr_ids().len() implies post.nbr_ids()[i] != post.nbr_ids()[j] by {
            assert(pre.nbr_ids()[i] == post.nbr_ids()[i]);
            assert(pre.nbr_ids()[j] == post.nbr_ids()[j]);
        }
        assert forall|i: int| 0 <= i < post.nbr_ids().len() implies post.nbr_ids()[i] != post.id() by {
            assert(pre.nbr_ids()[i] == post.nbr_ids()[i]);
        }
    }

    /// Wave uniqueness carries over to any state with the same record.
    proof fn lemma_seen_wf_transfer(pre: Self, post: Self)
        requires
            pre.seen_wf(),
            post.seen() == pre.seen(),
        ensures
            post.seen_wf(),
    {
        assert forall|i: int, j: int|
            0 <= i < j < post.seen().len() implies post.seen()[i] != post.seen()[j] by {
            assert(pre.seen()[i] == post.seen()[i]);
            assert(pre.seen()[j] == post.seen()[j]);
        }
    }

    /// Delivery soundness carries over when the log is unchanged and no
    /// recorded wave is forgotten.
    proof fn lemma_sent_wf_transfer(pre: Self, post: Self)
        requires
            pre.sent_wf(),
            post.sent() == pre.sent(),
            forall|key: (u64, NodeId)|
                pre.seen().contains(key) ==> #[trigger] post.seen().contains(key),
        ensures
            post.sent_wf(),
    {
        assert forall|k: int|
            0 <= k < post.sent().len() implies Self::wf_delivery(#[trigger] post.sent()[k]) by {
            assert(post.sent()[k] == pre.sent()[k]);
        }
        assert forall|k: int|
            0 <= k < post.sent().len() implies match flood_key_of((#[trigger] post.sent()[k]).1) {
            Some(key) => post.seen().contains(key),
            None => true,
        } by {
            assert(post.sent()[k] == pre.sent()[k]);
            match flood_key_of(pre.sent()[k].1) {
                Some(key) => {
                    assert(pre.seen().contains(key));
                },
                None => {},
            }
        }
    }

    /// Everything of the invariant carries over between states that agree
    /// on the visible components.
    proof fn lemma_inv_transfer(pre: Self, post: Self)
        requires
            pre.inv(),
            post.id() == pre.id(),
            post.pdr() == pre.pdr(),
            post.crashing() == pre.crashing(),
            post.cmd_closed() == pre.cmd_closed(),
            post.pkt_closed() == pre.pkt_closed(),
            post.nbr_ids() == pre.nbr_ids(),
            post.seen() == pre.seen(),
            post.sent() == pre.sent(),
        ensures
            post.inv(),
    {
        Self::lemma_nbrs_wf_transfer(pre, post);
        Self::lemma_seen_wf_transfer(pre, post);
        Self::lemma_sent_wf_transfer(pre, post);
    }

    /// The configuration fields a packet handler never touches.
    pub open spec fn same_config(pre: Self, post: Self) -> bool {
        &&& post.id() == pre.id()
        &&& post.pdr() == pre.pdr()
        &&& post.crashing() == pre.crashing()
        &&& post.cmd_closed() == pre.cmd_closed()
        &&& post.pkt_closed() == pre.pkt_closed()
    }

    /// No neighbour appears that was not already there.
    pub open spec fn nbrs_subset(pre: Self, post: Self) -> bool {
        forall|n: NodeId| #[trigger] post.has_nbr(n) ==> pre.has_nbr(n)
    }

    /// The neighbour table lost exactly `n` (a no-op when it was absent).
    pub open spec fn nbr_removed(pre: Self, post: Self, n: NodeId) -> bool {
        post.nbr_ids() == pre.nbr_ids().remove_value(n)
    }

    /// The neighbour table gained `n` (or kept it, with a fresh channel).
    pub open spec fn nbr_added(pre: Self, post: Self, n: NodeId) -> bool {
        post.nbr_ids() == if pre.has_nbr(n) {
            pre.nbr_ids()
        } else {
            pre.nbr_ids().push(n)
        }
    }

    /// What losing a neighbour means for membership: `n` is gone (neighbour
    /// ids are unique), everyone else stays.
    pub proof fn lemma_nbr_removed(pre: Self, post: Self, n: NodeId)
        requires
            pre.nbrs_wf(),
            post.id() == pre.id(),
            Self::nbr_removed(pre, post, n),
        ensures
            post.nbrs_wf(),
            !post.has_nbr(n),
            forall|m: NodeId| m != n ==> ((#[trigger] post.has_nbr(m)) <==> pre.has_nbr(m)),
            Self::nbrs_subset(pre, post),
            post.nbr_ids().len() == if pre.has_nbr(n) {
                pre.nbr_ids().len() - 1
            } else {
                pre.nbr_ids().len() as int
            },
    {
        let s = pre.nbr_ids();
        s.index_of_first_ensures(n);
        match s.index_of_first(n) {
            Some(i) => {
                assert(s.contains(n));
                assert forall|k: int|
                    0 <= k < post.nbr_ids().len() implies post.nbr_ids()[k] == (if k < i {
                    s[k]
                } else {
                    s[k + 1]
                }) by {}
                assert forall|k1: int, k2: int|
                    0 <= k1 < k2 < post.nbr_ids().len() implies post.nbr_ids()[k1]
                    != post.nbr_ids()[k2] by {
                    let a = if k1 < i {
                        k1
                    } else {
                        k1 + 1
                    };
                    let b = if k2 < i {
                        k2
                    } else {
                        k2 + 1
                    };
                    assert(s[a] != s[b]);
                }
                assert forall|k: int|
                    0 <= k < post.nbr_ids().len() implies post.nbr_ids()[k] != post.id() by {
                    let a = if k < i {
                        k
                    } else {
                        k + 1
                    };
                    assert(s[a] != pre.id());
                }
                assert forall|k: int|
                    0 <= k < post.nbr_ids().len() implies post.nbr_ids()[k] != n by {
                    let a = if k < i {
                        k
                    } else {
                        k + 1
                    };
                    if a < i {
                        assert(s[a] != s[i]);
                    } else if a > i {
                        assert(s[i] != s[a]);
                    }
                }
                assert forall|m: NodeId| #[trigger] post.has_nbr(m) implies pre.has_nbr(m) by {
                    let k = choose|k: int|
                        0 <= k < post.nbr_ids().len() && post.nbr_ids()[k] == m;
                    if k < i {
                        assert(s[k] == m);
                    } else {
                        assert(s[k + 1] == m);
                    }
                }
                assert forall|m: NodeId| m != n && pre.has_nbr(m) implies post.has_nbr(m) by {
                    let k = choose|k: int| 0 <= k < s.len() && s[k] == m;
                    if k < i {
                        assert(post.nbr_ids()[k] == m);
                    } else {
                        assert(k != i);
                        assert(post.nbr_ids()[k - 1] == m);
                    }
                }
            },
            None => {
                assert(post.nbr_ids() == s);
                if pre.has_nbr(n) {
                    let k = choose|k: int| 0 <= k < s.len() && s[k] == n;
                    assert(false);
                }
                assert forall|k1: int, k2: int|
                    0 <= k1 < k2 < post.nbr_ids().len() implies post.nbr_ids()[k1]
                    != post.nbr_ids()[k2] by {
                    assert(s[k1] != s[k2]);
                }
                assert forall|k: int|
                    0 <= k < post.nbr_ids().len() implies post.nbr_ids()[k] != post.id() by {
                    assert(s[k] != pre.id());
                }
                assert forall|k: int|
                    0 <= k < post.nbr_ids().len() implies post.nbr_ids()[k] != n by {
                    assert(s[k] != n);
                }
            },
        }
    }

    /// What gaining a neighbour means for membership: `n` is there, everyone
    /// else is untouched.
    pub proof fn lemma_nbr_added(pre: Self, post: Self, n: NodeId)
        requires
            pre.nbrs_wf(),
            post.id() == pre.id(),
            n != pre.id(),
            Self::nbr_added(pre, post, n),
        ensures
            post.nbrs_wf(),
            post.has_nbr(n),
            forall|m: NodeId| #[trigger] post.has_nbr(m) <==> (pre.has_nbr(m) || m == n),
            post.nbr_ids().len() == if pre.has_nbr(n) {
                pre.nbr_ids().len() as int
            } else {
                pre.nbr_ids().len() + 1int
            },
    {
        let s = pre.nbr_ids();
        if pre.has_nbr(n) {
            assert forall|m: NodeId| #[trigger] post.has_nbr(m) <==> (pre.has_nbr(m) || m == n) by {
                assert(post.nbr_ids() == s);
            }
            Self::lemma_nbrs_wf_transfer(pre, post);
        } else {
            assert(post.nbr_ids()[s.len() as int] == n);
            assert(post.has_nbr(n));
            assert forall|k: int| 0 <= k < s.len() implies s[k] != n by {
                if s[k] == n {
                    assert(pre.has_nbr(n));
                }
            }
            assert forall|m: NodeId| #[trigger] post.has_nbr(m) implies (pre.has_nbr(m) || m == n) by {
                let k = choose|k: int|
                    0 <= k < post.nbr_ids().len() && post.nbr_ids()[k] == m;
                if k < s.len() {
                    assert(s[k] == m);
                }
            }
            assert forall|m: NodeId| pre.has_nbr(m) implies post.has_nbr(m) by {
                let k = choose|k: int| 0 <= k < s.len() && s[k] == m;
                assert(post.nbr_ids()[k] == m);
            }
            assert forall|k1: int, k2: int|
                0 <= k1 < k2 < post.nbr_ids().len() implies post.nbr_ids()[k1]
                != post.nbr_ids()[k2] by {
                if k2 < s.len() {
                    assert(s[k1] != s[k2]);
                } else {
                    assert(post.nbr_ids()[k2] == n);
                    assert(post.nbr_ids()[k1] == s[k1]);
                }
            }
            assert forall|k: int|
                0 <= k < post.nbr_ids().len() implies post.nbr_ids()[k] != post.id() by {
                if k < s.len() {
                    assert(s[k] != pre.id());
                }
            }
        }
    }

    /// Nothing at all changed.
    pub open spec fn unchanged(pre: Self, post: Self) -> bool {
        &&& Self::same_config(pre, post)
        &&& post.nbr_ids() == pre.nbr_ids()
        &&& post.seen() == pre.seen()
        &&& post.events() == pre.events()
        &&& post.sent() == pre.sent()
        &&& post.tried() == pre.tried()
    }

    /// A fresh drone: given id, neighbours and drop rate (clamped to 100),
    /// not crashing, no wave seen, nothing sent yet.
    pub fn new(
        id: NodeId,
        controller_send: crossbeam_channel::Sender<DroneEvent>,
        packet_send: Vec<(NodeId, crossbeam_channel::Sender<Packet>)>,
        pdr: u32,
    ) -> (r: Self)
        requires
            forall|i: int, j: int|
                0 <= i < j < packet_send@.len() ==> (#[trigger] packet_send@[i]).0 != (
                #[trigger] packet_send@[j]).0,
            forall|i: int| 0 <= i < packet_send@.len() ==> (#[trigger] packet_send@[i]).0 != id,
        ensures
            r.inv(),
            r.id() == id,
            r.pdr() == if pdr > 100 {
                100u32
            } else {
                pdr
            },
            !r.crashing(),
            !r.cmd_closed(),
            !r.pkt_closed(),
            r.nbr_ids().len() == packet_send@.len(),
            forall|i: int| 0 <= i < packet_send@.len() ==> r.nbr_ids()[i] == (
            #[trigger] packet_send@[i]).0,
            r.seen() == Seq::<(u64, NodeId)>::empty(),
            r.events() == Seq::<DroneEvent>::empty(),
            r.sent() == Seq::<(NodeId, Packet)>::empty(),
            r.tried() == Seq::<(NodeId, Packet)>::empty(),
    {
        let clamped: u32 = if pdr > 100 {
            100
        } else {
            pdr
        };
        SkyLinkDrone {
            id,
            controller_send,
            packet_send,
            pdr: clamped,
            flood_ids: Vec::new(),
            crashing: false,
            cmd_closed: false,
            pkt_closed: false,
            events: Ghost(Seq::empty()),
            sent: Ghost(Seq::empty()),
            tried: Ghost(Seq::empty()),
        }
    }

    pub fn get_id(&self) -> (r: NodeId)
        ensures
            r == self.id(),
    {
        self.id
    }

    pub fn get_pdr(&self) -> (r: u32)
        ensures
            r == self.pdr(),
    {
        self.pdr
    }

    pub fn get_packet_send(&self) -> (r: &Vec<(NodeId, crossbeam_channel::Sender<Packet>)>)
        ensures
            r@.len() == self.nbr_ids().len(),
            forall|i: int| 0 <= i < r@.len() ==> (#[trigger] r@[i]).0 == self.nbr_ids()[i],
    {
        &self.packet_send
    }

    /// Whether `n` is currently a neighbour.
    pub fn knows_neighbour(&self, n: NodeId) -> (r: bool)
        ensures
            r == self.has_nbr(n),
    {
        let mut i: usize = 0;
        while i < self.packet_send.len()
            invariant
                i <= self.nbr_ids().len(),
                forall|j: int| 0 <= j < i ==> self.nbr_ids()[j] != n,
            decreases self.nbr_ids().len() - i,
        {
            if self.packet_send[i].0 == n {
                proof {
                    assert(self.nbr_ids()[i as int] == n);
                }
                return true;
            }
            i += 1;
        }
        false
    }

    /// The table index of neighbour `n`, when present: the first (and,
    /// by the invariant, only) occurrence.
    fn nbr_index(&self, n: NodeId) -> (r: Option<usize>)
        ensures
            match r {
                Some(i) => {
                    &&& i < self.nbr_ids().len()
                    &&& self.nbr_ids()[i as int] == n
                    &&& forall|j: int| 0 <= j < i ==> self.nbr_ids()[j] != n
                },
                None => !self.has_nbr(n),
            },
    {
        let mut i: usize = 0;
        while i < self.packet_send.len()
            invariant
                i <= self.nbr_ids().len(),
                forall|j: int| 0 <= j < i ==> self.nbr_ids()[j] != n,
            decreases self.nbr_ids().len() - i,
        {
            if self.packet_send[i].0 == n {
                proof {
                    assert(self.nbr_ids()[i as int] == n);
                }
                return Some(i);
            }
            i += 1;
        }
        None
    }

    /// Drops neighbour `n` from the table, releasing its channel; a no-op
    /// when it is absent.
    fn remove_nbr(&mut self, n: NodeId)
        requires
            old(self).inv(),
        ensures
            final(self).inv(),
            Self::same_config(*old(self), *final(self)),
            final(self).seen() == old(self).seen(),
            final(self).events() == old(self).events(),
            final(self).sent() == old(self).sent(),
            final(self).tried() == old(self).tried(),
            Self::nbr_removed(*old(self), *final(self), n),
    {
        let ghost s = old(self).nbr_ids();
        let idx = self.nbr_index(n);
        match idx {
            Some(i) => {
                let ghost pre = self.packet_send@;
                self.packet_send.remove(i);
                proof {
                    s.index_of_first_ensures(n);
                    match s.index_of_first(n) {
                        Some(j) => {
                            assert(j == i as int);
                        },
                        None => {
                            assert(s[i as int] == n);
                            assert(false);
                        },
                    }
                    assert(self.packet_send@ == pre.remove(i as int));
                    assert forall|k: int|
                        0 <= k < self.nbr_ids().len() implies self.nbr_ids()[k] == s.remove(
                        i as int,
                    )[k] by {
                        assert(self.packet_send@[k] == pre.remove(i as int)[k]);
                    }
                    assert(self.nbr_ids() =~= s.remove(i as int));
                    Self::lemma_nbr_removed(*old(self), *self, n);
                    Self::lemma_seen_wf_transfer(*old(self), *self);
                    Self::lemma_sent_wf_transfer(*old(self), *self);
                }
            },
            None => {
                proof {
                    s.index_of_first_ensures(n);
                    match s.index_of_first(n) {
                        Some(j) => {
                            assert(s.contains(n));
                            assert(false);
                        },
                        None => {},
                    }
                }
            },
        }
    }

    /// Registers neighbour `n`, replacing any previous channel toward it.
    fn add_nbr(&mut self, n: NodeId, s: crossbeam_channel::Sender<Packet>)
        requires
            old(self).inv(),
            n != old(self).id(),
        ensures
            final(self).inv(),
            Self::same_config(*old(self), *final(self)),
            final(self).seen() == old(self).seen(),
            final(self).events() == old(self).events(),
            final(self).sent() == old(self).sent(),
            final(self).tried() == old(self).tried(),
            Self::nbr_added(*old(self), *final(self), n),
    {
        let idx = self.nbr_index(n);
        match idx {
            Some(i) => {
                let ghost pre = self.packet_send@;
                self.packet_send.set(i, (n, s));
                proof {
                    assert(old(self).nbr_ids()[i as int] == n);
                    assert(old(self).has_nbr(n));
                    assert forall|k: int|
                        0 <= k < self.nbr_ids().len() implies self.nbr_ids()[k]
                        == old(self).nbr_ids()[k] by {
                        assert(self.packet_send@ == pre.update(i as int, (n, s)));
                    }
                    assert(self.nbr_ids() =~= old(self).nbr_ids());
                    Self::lemma_nbr_added(*old(self), *self, n);
                    Self::lemma_seen_wf_transfer(*old(self), *self);
                    Self::lemma_sent_wf_transfer(*old(self), *self);
                }
            },
            None => {
                let ghost pre = self.packet_send@;
                self.packet_send.push((n, s));
                proof {
                    assert(self.nbr_ids() =~= old(self).nbr_ids().push(n));
                    Self::lemma_nbr_added(*old(self), *self, n);
                    Self::lemma_seen_wf_transfer(*old(self), *self);
                    Self::lemma_sent_wf_transfer(*old(self), *self);
                }
            },
        }
    }


    /// Whether the wave `(flood_id, initiator)` has been met before.
    fn seen_contains(&self, flood_id: u64, initiator: NodeId) -> (r: bool)
        ensures
            r == self.seen().contains((flood_id, initiator)),
    {
        let mut i: usize = 0;
        while i < self.flood_ids.len()
            invariant
                i <= self.seen().len(),
                forall|j: int| 0 <= j < i ==> self.seen()[j] != (flood_id, initiator),
            decreases self.seen().len() - i,
        {
            let e = self.flood_ids[i];
            if e.0 == flood_id && e.1 == initiator {
                proof {
                    assert(self.seen()[i as int] == (flood_id, initiator));
                }
                return true;
            }
            i += 1;
        }
        false
    }

    /// Records the wave; reports whether it was new.
    fn insert_flood(&mut self, flood_id: u64, initiator: NodeId) -> (fresh: bool)
        requires
            old(self).inv(),
        ensures
            final(self).inv(),
            Self::same_config(*old(self), *final(self)),
            final(self).nbr_ids() == old(self).nbr_ids(),
            final(self).events() == old(self).events(),
            final(self).sent() == old(self).sent(),
            final(self).tried() == old(self).tried(),
            fresh == !old(self).seen().contains((flood_id, initiator)),
            final(self).seen() == if fresh {
                old(self).seen().push((flood_id, initiator))
            } else {
                old(self).seen()
            },
    {
        if self.seen_contains(flood_id, initiator) {
            false
        } else {
            self.flood_ids.push((flood_id, initiator));
            proof {
                assert forall|j: int|
                    0 <= j < old(self).seen().len() implies old(self).seen()[j] != (
                flood_id,
                initiator,
                ) by {
                    if old(self).seen()[j] == (flood_id, initiator) {
                        assert(old(self).seen().contains((flood_id, initiator)));
                    }
                }
                assert forall|i2: int, j2: int|
                    0 <= i2 < j2 < self.seen().len() implies self.seen()[i2] != self.seen()[j2] by {
                    if j2 < old(self).seen().len() {
                        assert(old(self).seen()[i2] != old(self).seen()[j2]);
                    } else {
                        assert(self.seen()[j2] == (flood_id, initiator));
                        assert(self.seen()[i2] == old(self).seen()[i2]);
                    }
                }
                Self::lemma_nbrs_wf_transfer(*old(self), *self);
                assert forall|key: (u64, NodeId)|
                    old(self).seen().contains(key) implies #[trigger] self.seen().contains(key) by {
                    let j = choose|j: int|
                        0 <= j < old(self).seen().len() && old(self).seen()[j] == key;
                    assert(self.seen()[j] == key);
                }
                Self::lemma_sent_wf_transfer(*old(self), *self);
            }
            true
        }
    }

    /// Hands a notification to the controller and records it.
    fn emit(&mut self, e: DroneEvent)
        ensures
            final(self).events() == old(self).events().push(e),
            Self::same_config(*old(self), *final(self)),
            final(self).nbr_ids() == old(self).nbr_ids(),
            final(self).seen() == old(self).seen(),
            final(self).sent() == old(self).sent(),
            final(self).tried() == old(self).tried(),
    {
        let ghost ge = e;
        send_event(&self.controller_send, e);
        proof {
            self.events@ = self.events@.push(ge);
        }
    }

    /// Tries to deliver `p` to the neighbour at table index `i`, recording
    /// the delivery when the channel accepts it.
    fn send_to(&mut self, i: usize, p: Packet) -> (ok: bool)
        requires
            old(self).inv(),
            i < old(self).nbr_ids().len(),
            Self::wf_delivery((old(self).nbr_ids()[i as int], p)),
            match flood_key_of(p) {
                Some(key) => old(self).seen().contains(key),
                None => true,
            },
        ensures
            final(self).inv(),
            Self::same_config(*old(self), *final(self)),
            final(self).nbr_ids() == old(self).nbr_ids(),
            final(self).seen() == old(self).seen(),
            final(self).events() == old(self).events(),
            final(self).tried() == old(self).tried().push((old(self).nbr_ids()[i as int], p)),
            ok ==> final(self).sent() == old(self).sent().push(
                (old(self).nbr_ids()[i as int], p),
            ),
            !ok ==> final(self).sent() == old(self).sent(),
    {
        let target = self.packet_send[i].0;
        let ghost gp = p;
        proof {
            assert(target == self.nbr_ids()[i as int]);
            self.tried@ = self.tried@.push((target, gp));
        }
        let ok = send_packet(&self.packet_send[i].1, p);
        if ok {
            proof {
                assert(target == self.nbr_ids()[i as int]);
                self.sent@ = self.sent@.push((target, gp));
                Self::lemma_nbrs_wf_transfer(*old(self), *self);
                Self::lemma_seen_wf_transfer(*old(self), *self);
                assert forall|k: int|
                    0 <= k < self.sent().len() implies Self::wf_delivery(
                    #[trigger] self.sent()[k],
                ) by {
                    if k < old(self).sent().len() {
                        assert(self.sent()[k] == old(self).sent()[k]);
                    } else {
                        assert(self.sent()[k] == (target, gp));
                    }
                }
                assert forall|k: int|
                    0 <= k < self.sent().len() implies match flood_key_of(
                    (#[trigger] self.sent()[k]).1,
                ) {
                    Some(key) => self.seen().contains(key),
                    None => true,
                } by {
                    if k < old(self).sent().len() {
                        assert(self.sent()[k] == old(self).sent()[k]);
                    } else {
                        assert(self.sent()[k] == (target, gp));
                    }
                }
            }
        } else {
            proof {
                Self::lemma_nbrs_wf_transfer(*old(self), *self);
                Self::lemma_seen_wf_transfer(*old(self), *self);
                Self::lemma_sent_wf_transfer(*old(self), *self);
            }
        }
        ok
    }

    /// What a command does to the drone, in running mode.
    pub open spec fn command_post(pre: Self, post: Self, c: DroneCommand) -> bool {
        &&& post.id() == pre.id()
        &&& post.cmd_closed() == pre.cmd_closed()
        &&& post.pkt_closed() == pre.pkt_closed()
        &&& post.seen() == pre.seen()
        &&& post.events() == pre.events()
        &&& post.sent() == pre.sent()
        &&& post.tried() == pre.tried()
        &&& match c {
            DroneCommand::AddSender(n, _) => {
                &&& post.pdr() == pre.pdr()
                &&& post.crashing() == pre.crashing()
                &&& if n == pre.id() {
                    post.nbr_ids() == pre.nbr_ids()
                } else {
                    Self::nbr_added(pre, post, n)
                }
            },
            DroneCommand::RemoveSender(n) => {
                &&& post.pdr() == pre.pdr()
                &&& post.crashing() == pre.crashing()
                &&& Self::nbr_removed(pre, post, n)
            },
            DroneCommand::SetPacketDropRate(p) => {
                &&& post.crashing() == pre.crashing()
                &&& post.nbr_ids() == pre.nbr_ids()
                &&& post.pdr() == if p > 100 {
                    100u32
                } else {
                    p
                }
            },
            DroneCommand::Crash => {
                &&& post.pdr() == pre.pdr()
                &&& post.nbr_ids() == pre.nbr_ids()
                &&& post.crashing()
            },
        }
    }

    /// Applies a controller command: register or drop a neighbour, set the
    /// drop rate (clamped), or enter crashing mode.
    pub fn handle_command(&mut self, command: DroneCommand)
        requires
            old(self).inv(),
        ensures
            final(self).inv(),
            Self::command_post(*old(self), *final(self), command),
    {
        match command {
            DroneCommand::AddSender(node_id, sender) => {
                if node_id != self.id {
                    self.add_nbr(node_id, sender);
                }
            },
            DroneCommand::SetPacketDropRate(p) => {
                self.pdr = if p > 100 {
                    100
                } else {
                    p
                };
                proof {
                    Self::lemma_nbrs_wf_transfer(*old(self), *self);
                    Self::lemma_seen_wf_transfer(*old(self), *self);
                    Self::lemma_sent_wf_transfer(*old(self), *self);
                }
            },
            DroneCommand::Crash => {
                self.crashing = true;
                proof {
                    Self::lemma_nbrs_wf_transfer(*old(self), *self);
                    Self::lemma_seen_wf_transfer(*old(self), *self);
                    Self::lemma_sent_wf_transfer(*old(self), *self);
                }
            },
            DroneCommand::RemoveSender(node_id) => {
                self.remove_nbr(node_id);
            },
        }
    }

    /// Runs the four validators in order on `packet`, advancing the hop
    /// index between the identity and the destination checks. Success hands
    /// back the advanced packet; failure hands back the error packet the
    /// failing check produced.
    fn apply_checks(&self, packet: Packet) -> (r: Result<Packet, Packet>)
        requires
            self.inv(),
            !is_flood_request(packet),
            packet.routing_header.hop_index < packet.routing_header.hops@.len(),
        ensures
            ({
                let hs = packet.routing_header.hops@;
                let hi = packet.routing_header.hop_index as int;
                let ai = adv_index(packet.routing_header) as int;
                match r {
                    Ok(p) => {
                        &&& p == advanced(packet)
                        &&& hs[hi] == self.id()
                        &&& hs.last() != self.id()
                        &&& self.has_nbr(hs[ai])
                        &&& (is_fragment(packet) ==> self.pdr() < 100)
                    },
                    Err(e) => {
                        ||| (hs[hi] != self.id() && (if is_fragment(packet) {
                            is_nack_for(e, packet, hs[hi], NackType::UnexpectedRecipient(self.id()))
                        } else {
                            packet_eq(e, packet)
                        }))
                        ||| (hs[hi] == self.id() && hs.last() == self.id() && (if is_fragment(
                            packet,
                        ) {
                            is_nack_for(e, packet, self.id(), NackType::DestinationIsDrone)
                        } else {
                            packet_eq(e, advanced(packet))
                        }))
                        ||| (hs[hi] == self.id() && hs.last() != self.id() && is_fragment(packet)
                            && self.pdr() > 0 && is_nack_for(
                            e,
                            packet,
                            self.id(),
                            NackType::Dropped,
                        ))
                        ||| (hs[hi] == self.id() && hs.last() != self.id() && !self.has_nbr(hs[ai])
                            && (is_fragment(packet) ==> self.pdr() < 100) && (if is_fragment(
                            packet,
                        ) {
                            is_nack_for(e, packet, self.id(), NackType::ErrorInRouting(hs[ai]))
                        } else {
                            packet_eq(e, advanced(packet))
                        }))
                    },
                }
            }),
            ({
                let hs = packet.routing_header.hops@;
                let hi = packet.routing_header.hop_index as int;
                let ai = adv_index(packet.routing_header) as int;
                (hs[hi] == self.id() && hs.last() != self.id() && self.has_nbr(hs[ai]) && (
                !is_fragment(packet) || self.pdr() == 0)) ==> r is Ok
            }),
    {
        let ghost orig = packet;
        let c1 = packet.clone();
        proof {
            lemma_packet_eq_props(c1, orig);
        }
        match id_hop_match_check(self, c1) {
            Err(e) => {
                return Err(e);
            },
            Ok(()) => {},
        }
        let mut packet = packet;
        let route_len = packet.routing_header.hops.len();
        if packet.routing_header.hop_index + 1 < route_len {
            packet.routing_header.hop_index = packet.routing_header.hop_index + 1;
        }
        proof {
            assert(packet == advanced(orig));
            assert(packet.routing_header.hops@.contains(self.id())) by {
                assert(packet.routing_header.hops@[orig.routing_header.hop_index as int]
                    == self.id());
            }
        }
        let c2 = packet.clone();
        proof {
            lemma_packet_eq_props(c2, packet);
        }
        match final_destination_check(self, c2) {
            Err(e) => {
                return Err(e);
            },
            Ok(()) => {},
        }
        let c3 = packet.clone();
        proof {
            lemma_packet_eq_props(c3, packet);
        }
        match pdr_check(self, c3) {
            Err(e) => {
                return Err(e);
            },
            Ok(()) => {},
        }
        let c4 = packet.clone();
        proof {
            lemma_packet_eq_props(c4, packet);
        }
        match is_next_hop_check(self, c4) {
            Err(e) => {
                return Err(e);
            },
            Ok(()) => {},
        }
        Ok(packet)
    }

    /// Forwards a synthesised Nack. When the target is a neighbour the Nack
    /// is stamped one hop further and delivered (with a controller shortcut
    /// as the fallback if the channel fails); otherwise it goes to the
    /// controller shortcut unchanged.
    fn send_nack(&mut self, destination: NodeId, err: Packet)
        requires
            old(self).inv(),
            !is_flood_request(err),
            err.routing_header.hop_index + 1 < err.routing_header.hops@.len(),
            err.routing_header.hops@[err.routing_header.hop_index + 1] == destination,
        ensures
            final(self).inv(),
            Self::same_config(*old(self), *final(self)),
            final(self).nbr_ids() == old(self).nbr_ids(),
            final(self).seen() == old(self).seen(),
            old(self).sent().is_prefix_of(final(self).sent()),
            if old(self).has_nbr(destination) {
                sent_pushed_like(final(self).tried(), old(self).tried(), destination, bumped(err))
            } else {
                final(self).tried() == old(self).tried()
            },
            if old(self).has_nbr(destination) {
                ||| (sent_pushed_like(final(self).sent(), old(self).sent(), destination, bumped(err))
                    && events_pushed_like(
                    final(self).events(),
                    old(self).events(),
                    DroneEvent::PacketSent(bumped(err)),
                ))
                ||| (final(self).sent() == old(self).sent() && events_pushed_like(
                    final(self).events(),
                    old(self).events(),
                    DroneEvent::ControllerShortcut(bumped(err)),
                ))
            } else {
                &&& final(self).sent() == old(self).sent()
                &&& events_pushed_like(
                    final(self).events(),
                    old(self).events(),
                    DroneEvent::ControllerShortcut(err),
                )
            },
    {
        let idx = self.nbr_index(destination);
        match idx {
            Some(i) => {
                let mut err = err;
                let route_len = err.routing_header.hops.len();
                proof {
                    assert(err.routing_header.hop_index + 1 < route_len);
                }
                err.routing_header.hop_index = err.routing_header.hop_index + 1;
                let copy = err.clone();
                proof {
                    lemma_packet_eq_props(copy, err);
                }
                if self.send_to(i, copy) {
                    let ghost mid = *self;
                    self.emit(DroneEvent::PacketSent(err));
                    proof {
                        Self::lemma_inv_transfer(mid, *self);
                        assert(old(self).sent().is_prefix_of(self.sent())) by {
                            assert(self.sent().subrange(0, old(self).sent().len() as int) =~= old(
                                self,
                            ).sent());
                        }
                    }
                } else {
                    let ghost mid = *self;
                    self.emit(DroneEvent::ControllerShortcut(err));
                    proof {
                        Self::lemma_inv_transfer(mid, *self);
                    }
                }
            },
            None => {
                let ghost mid = *self;
                self.emit(DroneEvent::ControllerShortcut(err));
                proof {
                    Self::lemma_inv_transfer(mid, *self);
                }
            },
        }
    }

    /// What one pass of the pipeline does to an already-built, self-routed
    /// packet `q` (a Nack fed back, or a flood response): it is forwarded to
    /// its next hop when everything checks out, and handed to the controller
    /// shortcut otherwise; a dead channel also evicts the neighbour.
    pub open spec fn routed_post(pre: Self, post: Self, q: Packet) -> bool {
        let hs = q.routing_header.hops@;
        let hi = q.routing_header.hop_index as int;
        let ai = adv_index(q.routing_header) as int;
        let q1 = advanced(q);
        &&& (hs[hi] != pre.id() ==> {
            &&& post.nbr_ids() == pre.nbr_ids()
            &&& post.sent() == pre.sent()
            &&& post.tried() == pre.tried()
            &&& events_pushed_like(post.events(), pre.events(), DroneEvent::ControllerShortcut(q))
        })
        &&& (hs[hi] == pre.id() && hs.last() == pre.id() ==> {
            &&& post.nbr_ids() == pre.nbr_ids()
            &&& post.sent() == pre.sent()
            &&& post.tried() == pre.tried()
            &&& events_pushed_like(post.events(), pre.events(), DroneEvent::ControllerShortcut(q1))
        })
        &&& (hs[hi] == pre.id() && hs.last() != pre.id() && !pre.has_nbr(hs[ai]) ==> {
            &&& post.nbr_ids() == pre.nbr_ids()
            &&& post.sent() == pre.sent()
            &&& post.tried() == pre.tried()
            &&& events_pushed_like(post.events(), pre.events(), DroneEvent::ControllerShortcut(q1))
        })
        &&& (hs[hi] == pre.id() && hs.last() != pre.id() && pre.has_nbr(hs[ai]) ==> {
            &&& sent_pushed_like(post.tried(), pre.tried(), hs[ai], q1)
            &&& {
                ||| (post.nbr_ids() == pre.nbr_ids() && sent_pushed_like(
                    post.sent(),
                    pre.sent(),
                    hs[ai],
                    q1,
                ) && events_pushed_like(post.events(), pre.events(), DroneEvent::PacketSent(q1)))
                ||| (Self::nbr_removed(pre, post, hs[ai]) && post.sent() == pre.sent()
                    && events_pushed_like(
                    post.events(),
                    pre.events(),
                    DroneEvent::ControllerShortcut(q1),
                ))
            }
        })
    }

    /// One pass of the pipeline for a packet that is not a fragment and not
    /// a flood request: Nacks fed back for their first forwarding hop, and
    /// flood responses. No Nack is ever synthesised from such a packet; what
    /// cannot be routed goes to the controller shortcut.
    fn route_packet(&mut self, packet: Packet)
        requires
            old(self).inv(),
            !is_flood_request(packet),
            !is_fragment(packet),
            packet.routing_header.hop_index < packet.routing_header.hops@.len(),
        ensures
            final(self).inv(),
            Self::same_config(*old(self), *final(self)),
            final(self).seen() == old(self).seen(),
            old(self).sent().is_prefix_of(final(self).sent()),
            old(self).tried().is_prefix_of(final(self).tried()),
            Self::routed_post(*old(self), *final(self), packet),
    {
        let ghost orig = packet;
        match self.apply_checks(packet) {
            Ok(p) => {
                let nh = p.routing_header.hops[p.routing_header.hop_index];
                let idx = self.nbr_index(nh);
                match idx {
                    Some(i) => {
                        let copy = p.clone();
                        proof {
                            lemma_packet_eq_props(copy, p);
                        }
                        if self.send_to(i, copy) {
                            let ghost mid = *self;
                            self.emit(DroneEvent::PacketSent(p));
                            proof {
                                Self::lemma_inv_transfer(mid, *self);
                                assert(self.sent().subrange(0, old(self).sent().len() as int)
                                    =~= old(self).sent());
                            }
                        } else {
                            let ghost mid0 = *self;
                            self.remove_nbr(nh);
                            let ghost mid = *self;
                            self.emit(DroneEvent::ControllerShortcut(p));
                            proof {
                                Self::lemma_inv_transfer(mid, *self);
                            }
                        }
                    },
                    None => {
                        proof {
                            assert(false);
                        }
                    },
                }
            },
            Err(e) => {
                let ghost mid = *self;
                self.emit(DroneEvent::ControllerShortcut(e));
                proof {
                    Self::lemma_inv_transfer(mid, *self);
                }
            },
        }
    }

    /// A controller event is the delivery of a Nack with the given shape.
    pub open spec fn ev_is_sent_nack(e: DroneEvent, orig: Packet, start: NodeId, nt: NackType, idx: int) -> bool {
        match e {
            DroneEvent::PacketSent(q) => is_nack_for_at(q, orig, start, nt, idx),
            _ => false,
        }
    }

    /// A controller event is the shortcut of a Nack with the given shape.
    pub open spec fn ev_is_shortcut_nack(e: DroneEvent, orig: Packet, start: NodeId, nt: NackType, idx: int) -> bool {
        match e {
            DroneEvent::ControllerShortcut(q) => is_nack_for_at(q, orig, start, nt, idx),
            _ => false,
        }
    }

    /// How dispatching a freshly built Nack extends the two logs. The Nack
    /// is built from `orig` for `start` and `nt`; its forwarding target is
    /// the second entry of its reversed route. `avail` says whether that
    /// target counts as a neighbour at dispatch time. When it does, the Nack
    /// goes out stamped one hop further (or to the shortcut when the channel
    /// fails); when it does not, the shortcut gets it unstamped.
    pub open spec fn nack_sent_logs(
        pre_sent: Seq<(NodeId, Packet)>,
        pre_ev: Seq<DroneEvent>,
        pre_tried: Seq<(NodeId, Packet)>,
        post_sent: Seq<(NodeId, Packet)>,
        post_ev: Seq<DroneEvent>,
        post_tried: Seq<(NodeId, Packet)>,
        orig: Packet,
        start: NodeId,
        nt: NackType,
        avail: bool,
    ) -> bool {
        let nhops = nack_hops(orig.routing_header.hops@, start);
        let target = nhops[1];
        if avail {
            &&& post_tried.len() == pre_tried.len() + 1
            &&& pre_tried.is_prefix_of(post_tried)
            &&& post_tried.last().0 == target
            &&& is_nack_for_at(post_tried.last().1, orig, start, nt, 1)
            &&& {
                ||| {
                    &&& post_sent.len() == pre_sent.len() + 1
                    &&& pre_sent.is_prefix_of(post_sent)
                    &&& post_sent.last().0 == target
                    &&& is_nack_for_at(post_sent.last().1, orig, start, nt, 1)
                    &&& post_ev.len() == pre_ev.len() + 1
                    &&& pre_ev.is_prefix_of(post_ev)
                    &&& Self::ev_is_sent_nack(post_ev.last(), orig, start, nt, 1)
                }
                ||| {
                    &&& post_sent == pre_sent
                    &&& post_ev.len() == pre_ev.len() + 1
                    &&& pre_ev.is_prefix_of(post_ev)
                    &&& Self::ev_is_shortcut_nack(post_ev.last(), orig, start, nt, 1)
                }
            }
        } else {
            &&& post_sent == pre_sent
            &&& post_tried == pre_tried
            &&& post_ev.len() == pre_ev.len() + 1
            &&& pre_ev.is_prefix_of(post_ev)
            &&& Self::ev_is_shortcut_nack(post_ev.last(), orig, start, nt, 0)
        }
    }

    /// `q` is the flood response for wave `fid` with the given final trace,
    /// routed backwards along it, currently at `idx`.
    pub open spec fn resp_matches(q: Packet, fid: u64, init: NodeId, trace: Seq<(NodeId, NodeType)>, idx: int) -> bool {
        &&& match q.pack_type {
            PacketType::FloodResponse(g) => g.flood_id == fid && g.path_trace@ == trace,
            _ => false,
        }
        &&& q.routing_header.hop_index == idx
        &&& q.routing_header.hops@ == flood_resp_hops(trace, init)
        &&& q.session_id == fid
    }

    pub open spec fn ev_is_sent_resp(e: DroneEvent, fid: u64, init: NodeId, trace: Seq<(NodeId, NodeType)>, idx: int) -> bool {
        match e {
            DroneEvent::PacketSent(q) => Self::resp_matches(q, fid, init, trace, idx),
            _ => false,
        }
    }

    pub open spec fn ev_is_shortcut_resp(e: DroneEvent, fid: u64, init: NodeId, trace: Seq<(NodeId, NodeType)>, idx: int) -> bool {
        match e {
            DroneEvent::ControllerShortcut(q) => Self::resp_matches(q, fid, init, trace, idx),
            _ => false,
        }
    }

    /// What synthesising and routing a flood response does: it walks the
    /// normal pipeline, so it is delivered one hop back along the reversed
    /// trace when that hop is a live neighbour, and handed to the controller
    /// shortcut otherwise.
    pub open spec fn flood_response_post(pre: Self, post: Self, fid: u64, init: NodeId, trace: Seq<(NodeId, NodeType)>) -> bool {
        let hs = flood_resp_hops(trace, init);
        let ai: int = if hs.len() > 1 {
            1int
        } else {
            0int
        };
        let fwd_ok = hs.len() > 0 && hs[0] == pre.id() && hs.last() != pre.id() && pre.has_nbr(
            hs[ai],
        );
        &&& (fwd_ok ==> {
            &&& post.tried().len() == pre.tried().len() + 1
            &&& pre.tried().is_prefix_of(post.tried())
            &&& post.tried().last().0 == hs[ai]
            &&& Self::resp_matches(post.tried().last().1, fid, init, trace, ai)
            &&& {
                ||| {
                    &&& post.nbr_ids() == pre.nbr_ids()
                    &&& post.sent().len() == pre.sent().len() + 1
                    &&& pre.sent().is_prefix_of(post.sent())
                    &&& post.sent().last().0 == hs[ai]
                    &&& Self::resp_matches(post.sent().last().1, fid, init, trace, ai)
                    &&& post.events().len() == pre.events().len() + 1
                    &&& pre.events().is_prefix_of(post.events())
                    &&& Self::ev_is_sent_resp(post.events().last(), fid, init, trace, ai)
                }
                ||| {
                    &&& Self::nbr_removed(pre, post, hs[ai])
                    &&& post.sent() == pre.sent()
                    &&& post.events().len() == pre.events().len() + 1
                    &&& pre.events().is_prefix_of(post.events())
                    &&& Self::ev_is_shortcut_resp(post.events().last(), fid, init, trace, ai)
                }
            }
        })
        &&& (!fwd_ok ==> {
            &&& post.nbr_ids() == pre.nbr_ids()
            &&& post.sent() == pre.sent()
            &&& post.tried() == pre.tried()
            &&& post.events().len() == pre.events().len() + 1
            &&& pre.events().is_prefix_of(post.events())
            &&& Self::ev_is_shortcut_resp(
                post.events().last(),
                fid,
                init,
                trace,
                if hs.len() > 0 && hs[0] == pre.id() {
                    ai
                } else {
                    0int
                },
            )
        })
    }

    /// `q` is the flood request of wave `fid`, extended with this drone's
    /// trace entry, under the untouched routing header and session.
    pub open spec fn flood_fwd_matches(q: Packet, fid: u64, init: NodeId, ext: Seq<(NodeId, NodeType)>, hdr: SourceRoutingHeader, sid: u64) -> bool {
        &&& match q.pack_type {
            PacketType::FloodRequest(g) => g.flood_id == fid && g.initiator_id == init
                && g.path_trace@ == ext,
            _ => false,
        }
        &&& q.routing_header.hop_index == hdr.hop_index
        &&& q.routing_header.hops@ == hdr.hops@
        &&& q.session_id == sid
    }

    pub open spec fn ev_is_sent_fwd(e: DroneEvent, fid: u64, init: NodeId, ext: Seq<(NodeId, NodeType)>, hdr: SourceRoutingHeader, sid: u64) -> bool {
        match e {
            DroneEvent::PacketSent(q) => Self::flood_fwd_matches(q, fid, init, ext, hdr, sid),
            _ => false,
        }
    }

    /// The rebroadcast targets of a wave: the neighbour ids in table order,
    /// the predecessor left out.
    pub open spec fn bcast_targets(ids: Seq<NodeId>, prev: NodeId) -> Seq<NodeId>
        decreases ids.len(),
    {
        if ids.len() == 0 {
            Seq::empty()
        } else {
            let rest = Self::bcast_targets(ids.drop_last(), prev);
            if ids.last() == prev {
                rest
            } else {
                rest.push(ids.last())
            }
        }
    }

    /// What the best-effort rebroadcast of a fresh wave does: exactly one
    /// delivery attempt per neighbour other than the predecessor, in table
    /// order, each carrying the extended trace; the deliveries are the
    /// attempts the channels accepted, each mirrored by one `PacketSent`.
    pub open spec fn flood_bcast_post(pre: Self, post: Self, fid: u64, init: NodeId, ext: Seq<(NodeId, NodeType)>, hdr: SourceRoutingHeader, sid: u64) -> bool {
        let prev = if ext.len() > 1 {
            ext[ext.len() - 2].0
        } else {
            init
        };
        &&& post.nbr_ids() == pre.nbr_ids()
        &&& pre.sent().is_prefix_of(post.sent())
        &&& pre.events().is_prefix_of(post.events())
        &&& pre.tried().is_prefix_of(post.tried())
        &&& post.events().len() - pre.events().len() == post.sent().len() - pre.sent().len()
        &&& post.sent().len() - pre.sent().len() <= post.tried().len() - pre.tried().len()
        &&& post.tried().skip(pre.tried().len() as int).map_values(
            |e: (NodeId, Packet)| e.0,
        ) == Self::bcast_targets(pre.nbr_ids(), prev)
        &&& forall|k: int|
            pre.tried().len() <= k < post.tried().len() ==> Self::flood_fwd_matches(
                (#[trigger] post.tried()[k]).1,
                fid,
                init,
                ext,
                hdr,
                sid,
            )
        &&& forall|k: int|
            pre.sent().len() <= k < post.sent().len() ==> {
                &&& (#[trigger] post.sent()[k]).0 != prev
                &&& pre.has_nbr(post.sent()[k].0)
                &&& Self::flood_fwd_matches(post.sent()[k].1, fid, init, ext, hdr, sid)
            }
        &&& forall|k: int|
            pre.events().len() <= k < post.events().len() ==> Self::ev_is_sent_fwd(
                #[trigger] post.events()[k],
                fid,
                init,
                ext,
                hdr,
                sid,
            )
    }

    /// The whole flood engine: the drone first writes itself into the
    /// trace; a wave seen before is answered with a response; a fresh wave
    /// is recorded and then either answered (when this is a leaf with one
    /// neighbour) or rebroadcast to everyone but the predecessor.
    pub open spec fn flood_post(pre: Self, post: Self, fid: u64, init: NodeId, trace: Seq<(NodeId, NodeType)>, hdr: SourceRoutingHeader, sid: u64) -> bool {
        let key = (fid, init);
        let ext = trace.push((pre.id(), NodeType::Drone));
        &&& (pre.seen().contains(key) ==> {
            &&& post.seen() == pre.seen()
            &&& Self::flood_response_post(pre, post, fid, init, ext)
        })
        &&& (!pre.seen().contains(key) ==> {
            &&& post.seen() == pre.seen().push(key)
            &&& (pre.nbr_ids().len() == 1 ==> Self::flood_response_post(pre, post, fid, init, ext))
            &&& (pre.nbr_ids().len() != 1 ==> Self::flood_bcast_post(pre, post, fid, init, ext, hdr, sid))
        })
    }

    /// What feeding a freshly built Nack (from `orig`, starting at this
    /// drone) back through the pipeline does.
    pub open spec fn nack_reentry_post(pre: Self, post: Self, orig: Packet, nt: NackType) -> bool {
        let nhops = nack_hops(orig.routing_header.hops@, pre.id());
        let ai: int = if nhops.len() > 1 {
            1int
        } else {
            0int
        };
        let target = nhops[ai];
        &&& (nhops[0] == pre.id() && nhops.last() == pre.id() ==> {
            &&& post.nbr_ids() == pre.nbr_ids()
            &&& post.sent() == pre.sent()
            &&& post.tried() == pre.tried()
            &&& post.events().len() == pre.events().len() + 1
            &&& pre.events().is_prefix_of(post.events())
            &&& Self::ev_is_shortcut_nack(post.events().last(), orig, pre.id(), nt, ai)
        })
        &&& (nhops[0] == pre.id() && nhops.last() != pre.id() && !pre.has_nbr(target) ==> {
            &&& post.nbr_ids() == pre.nbr_ids()
            &&& post.sent() == pre.sent()
            &&& post.tried() == pre.tried()
            &&& post.events().len() == pre.events().len() + 1
            &&& pre.events().is_prefix_of(post.events())
            &&& Self::ev_is_shortcut_nack(post.events().last(), orig, pre.id(), nt, ai)
        })
        &&& (nhops[0] == pre.id() && nhops.last() != pre.id() && pre.has_nbr(target) ==> {
            &&& post.tried().len() == pre.tried().len() + 1
            &&& pre.tried().is_prefix_of(post.tried())
            &&& post.tried().last().0 == target
            &&& is_nack_for_at(post.tried().last().1, orig, pre.id(), nt, ai)
            &&& {
                ||| {
                    &&& post.nbr_ids() == pre.nbr_ids()
                    &&& post.sent().len() == pre.sent().len() + 1
                    &&& pre.sent().is_prefix_of(post.sent())
                    &&& post.sent().last().0 == target
                    &&& is_nack_for_at(post.sent().last().1, orig, pre.id(), nt, ai)
                    &&& post.events().len() == pre.events().len() + 1
                    &&& pre.events().is_prefix_of(post.events())
                    &&& Self::ev_is_sent_nack(post.events().last(), orig, pre.id(), nt, ai)
                }
                ||| {
                    &&& Self::nbr_removed(pre, post, target)
                    &&& post.sent() == pre.sent()
                    &&& post.events().len() == pre.events().len() + 1
                    &&& pre.events().is_prefix_of(post.events())
                    &&& Self::ev_is_shortcut_nack(post.events().last(), orig, pre.id(), nt, ai)
                }
            }
        })
    }

    /// The drop path: when the fragment came from this very node, the
    /// controller learns of the loss and the Nack's route ends here; any
    /// other origin has the Dropped Nack fed back for its first hop.
    pub open spec fn dropped_post(pre: Self, post: Self, p: Packet) -> bool {
        if p.routing_header.hops@[0] == pre.id() {
            &&& post.nbr_ids() == pre.nbr_ids()
            &&& post.sent() == pre.sent()
            &&& post.tried() == pre.tried()
            &&& events_pushed_like(post.events(), pre.events(), DroneEvent::PacketDropped(p))
        } else {
            Self::nack_reentry_post(pre, post, p, NackType::Dropped)
        }
    }

    /// The forward path: the advanced packet is delivered to the next hop;
    /// a dead channel evicts that neighbour and, for a fragment, sends an
    /// `ErrorInRouting` Nack back (any other class goes to the shortcut).
    pub open spec fn forwarded_post(pre: Self, post: Self, p: Packet) -> bool {
        let hs = p.routing_header.hops@;
        let nh = hs[adv_index(p.routing_header) as int];
        let q1 = advanced(p);
        let target = nack_hops(hs, pre.id())[1];
        &&& pre.tried().is_prefix_of(post.tried())
        &&& post.tried().len() > pre.tried().len()
        &&& post.tried()[pre.tried().len() as int].0 == nh
        &&& packet_eq(post.tried()[pre.tried().len() as int].1, q1)
        &&& {
            ||| {
                &&& post.nbr_ids() == pre.nbr_ids()
                &&& post.tried().len() == pre.tried().len() + 1
                &&& sent_pushed_like(post.sent(), pre.sent(), nh, q1)
                &&& events_pushed_like(post.events(), pre.events(), DroneEvent::PacketSent(q1))
            }
            ||| {
                &&& Self::nbr_removed(pre, post, nh)
                &&& (if is_fragment(p) {
                    Self::nack_sent_logs(
                        pre.sent(),
                        pre.events(),
                        post.tried().take(pre.tried().len() + 1int),
                        post.sent(),
                        post.events(),
                        post.tried(),
                        p,
                        pre.id(),
                        NackType::ErrorInRouting(nh),
                        target != nh && pre.has_nbr(target),
                    )
                } else {
                    &&& post.sent() == pre.sent()
                    &&& post.tried().len() == pre.tried().len() + 1
                    &&& events_pushed_like(post.events(), pre.events(), DroneEvent::ControllerShortcut(q1))
                })
            }
        }
    }

    /// The full per-packet contract of the running drone.
    pub open spec fn packet_post(pre: Self, post: Self, p: Packet) -> bool {
        if is_flood_request(p) {
            match p.pack_type {
                PacketType::FloodRequest(f) => Self::flood_post(
                    pre,
                    post,
                    f.flood_id,
                    f.initiator_id,
                    f.path_trace@,
                    p.routing_header,
                    p.session_id,
                ),
                _ => false,
            }
        } else {
            let hs = p.routing_header.hops@;
            let hi = p.routing_header.hop_index as int;
            let nh = hs[adv_index(p.routing_header) as int];
            &&& post.seen() == pre.seen()
            &&& (hs[hi] != pre.id() ==> (if is_fragment(p) {
                &&& post.nbr_ids() == pre.nbr_ids()
                &&& Self::nack_sent_logs(
                    pre.sent(),
                    pre.events(),
                    pre.tried(),
                    post.sent(),
                    post.events(),
                    post.tried(),
                    p,
                    hs[hi],
                    NackType::UnexpectedRecipient(pre.id()),
                    pre.has_nbr(nack_hops(hs, hs[hi])[1]),
                )
            } else {
                &&& post.nbr_ids() == pre.nbr_ids()
                &&& post.sent() == pre.sent()
                &&& post.tried() == pre.tried()
                &&& events_pushed_like(post.events(), pre.events(), DroneEvent::ControllerShortcut(p))
            }))
            &&& (hs[hi] == pre.id() && hs.last() == pre.id() ==> (if is_fragment(p) {
                Self::nack_reentry_post(pre, post, p, NackType::DestinationIsDrone)
            } else {
                &&& post.nbr_ids() == pre.nbr_ids()
                &&& post.sent() == pre.sent()
                &&& post.tried() == pre.tried()
                &&& events_pushed_like(
                    post.events(),
                    pre.events(),
                    DroneEvent::ControllerShortcut(advanced(p)),
                )
            }))
            &&& (hs[hi] == pre.id() && hs.last() != pre.id() ==> {
                ||| (is_fragment(p) && pre.pdr() > 0 && Self::dropped_post(pre, post, p))
                ||| (!pre.has_nbr(nh) && (if is_fragment(p) {
                    Self::nack_reentry_post(pre, post, p, NackType::ErrorInRouting(nh))
                } else {
                    &&& post.nbr_ids() == pre.nbr_ids()
                    &&& post.sent() == pre.sent()
                    &&& post.tried() == pre.tried()
                    &&& events_pushed_like(
                        post.events(),
                        pre.events(),
                        DroneEvent::ControllerShortcut(advanced(p)),
                    )
                }))
                ||| (pre.has_nbr(nh) && Self::forwarded_post(pre, post, p))
            })
            &&& (hs[hi] == pre.id() && hs.last() != pre.id() && is_fragment(p) && pre.pdr() >= 100
                ==> Self::dropped_post(pre, post, p))
            &&& (hs[hi] == pre.id() && hs.last() != pre.id() && pre.has_nbr(nh) && (!is_fragment(p)
                || pre.pdr() == 0) ==> Self::forwarded_post(pre, post, p))
        }
    }

    /// Builds the response to a flood: the same flood id, a copy of the
    /// (already extended) trace, the route walking the trace backwards with
    /// the initiator appended when the trace does not begin with it, and
    /// the flood id as session.
    pub fn build_flood_response(flood: &FloodRequest) -> (r: Packet)
        requires
            flood.path_trace@.len() > 0,
        ensures
            Self::resp_matches(r, flood.flood_id, flood.initiator_id, flood.path_trace@, 0),
    {
        let n = flood.path_trace.len();
        let mut hops: Vec<NodeId> = Vec::new();
        let mut i: usize = 0;
        while i < n
            invariant
                n == flood.path_trace@.len(),
                i <= n,
                hops@.len() == i,
                forall|j: int| 0 <= j < i ==> hops@[j] == flood.path_trace@[n - 1 - j].0,
            decreases n - i,
        {
            hops.push(flood.path_trace[n - 1 - i].0);
            i += 1;
        }
        proof {
            assert(hops@ =~= trace_ids(flood.path_trace@).reverse());
        }
        if flood.path_trace[0].0 != flood.initiator_id {
            hops.push(flood.initiator_id);
        }
        proof {
            assert(hops@ =~= flood_resp_hops(flood.path_trace@, flood.initiator_id));
        }
        Packet {
            pack_type: PacketType::FloodResponse(
                FloodResponse {
                    flood_id: flood.flood_id,
                    path_trace: clone_trace(&flood.path_trace),
                },
            ),
            routing_header: SourceRoutingHeader { hop_index: 0, hops },
            session_id: flood.flood_id,
        }
    }

    /// Synthesises the flood response and hands it to the normal pipeline,
    /// so it travels one hop back toward the initiator.
    fn send_flood_response(&mut self, flood: FloodRequest)
        requires
            old(self).inv(),
            flood.path_trace@.len() > 0,
        ensures
            final(self).inv(),
            Self::same_config(*old(self), *final(self)),
            final(self).seen() == old(self).seen(),
            old(self).sent().is_prefix_of(final(self).sent()),
            old(self).events().is_prefix_of(final(self).events()),
            Self::flood_response_post(
                *old(self),
                *final(self),
                flood.flood_id,
                flood.initiator_id,
                flood.path_trace@,
            ),
            forall|k: int|
                old(self).sent().len() <= k < final(self).sent().len() ==> !is_flood_request(
                    (#[trigger] final(self).sent()[k]).1,
                ),
    {
        let ghost fid = flood.flood_id;
        let ghost init = flood.initiator_id;
        let ghost trace = flood.path_trace@;
        let resp = Self::build_flood_response(&flood);
        let ghost gresp = resp;
        self.route_packet(resp);
        proof {
            let hs = flood_resp_hops(trace, init);
            let ai: int = if hs.len() > 1 {
                1int
            } else {
                0int
            };
            assert(gresp.routing_header.hops@ == hs);
            assert(adv_index(gresp.routing_header) as int == ai);
            assert(Self::routed_post(*old(self), *self, gresp));
            let q1 = advanced(gresp);
            assert(Self::resp_matches(q1, fid, init, trace, ai));
            if hs[0] == old(self).id() && hs.last() != old(self).id() && old(self).has_nbr(
                hs[ai],
            ) {
                assert(Self::flood_response_post(*old(self), *self, fid, init, trace));
            } else {
                assert(Self::flood_response_post(*old(self), *self, fid, init, trace));
            }
            assert forall|k: int|
                old(self).sent().len() <= k < self.sent().len() implies !is_flood_request(
                (#[trigger] self.sent()[k]).1,
            ) by {
                assert(k == self.sent().len() - 1);
                lemma_packet_eq_props(self.sent()[k].1, q1);
            }
        }
    }

    /// The flood engine: writes this drone into the trace, records the
    /// wave, and rebroadcasts a fresh wave to every neighbour but the
    /// predecessor (answering instead when this is a leaf), or answers a
    /// wave met before.
    #[verifier::rlimit(30)]
    fn handle_flood(&mut self, flood: FloodRequest, header: SourceRoutingHeader, session_id: u64)
        requires
            old(self).inv(),
        ensures
            final(self).inv(),
            Self::same_config(*old(self), *final(self)),
            old(self).seen().is_prefix_of(final(self).seen()),
            old(self).sent().is_prefix_of(final(self).sent()),
            old(self).events().is_prefix_of(final(self).events()),
            old(self).tried().is_prefix_of(final(self).tried()),
            Self::flood_post(
                *old(self),
                *final(self),
                flood.flood_id,
                flood.initiator_id,
                flood.path_trace@,
                header,
                session_id,
            ),
            forall|k: int|
                old(self).sent().len() <= k < final(self).sent().len() ==> match flood_key_of(
                    (#[trigger] final(self).sent()[k]).1,
                ) {
                    Some(key) => key == (flood.flood_id, flood.initiator_id) && !old(
                        self,
                    ).seen().contains(key),
                    None => true,
                },
    {
        let ghost fid = flood.flood_id;
        let ghost init = flood.initiator_id;
        let ghost trace0 = flood.path_trace@;
        let mut flood = flood;
        flood.path_trace.push((self.get_id(), NodeType::Drone));
        let ghost ext = flood.path_trace@;
        let fresh = self.insert_flood(flood.flood_id, flood.initiator_id);
        let ghost base = *self;
        if fresh {
            if self.packet_send.len() == 1 {
                self.send_flood_response(flood);
                proof {
                    assert(Self::flood_response_post(base, *self, fid, init, ext));
                    assert(Self::flood_response_post(*old(self), *self, fid, init, ext));
                    assert(self.seen() =~= old(self).seen().push((fid, init)));
                    assert(old(self).seen().is_prefix_of(self.seen())) by {
                        assert(self.seen().subrange(0, old(self).seen().len() as int) =~= old(
                            self,
                        ).seen());
                    }
                }
            } else {
                let prev: NodeId = if flood.path_trace.len() > 1 {
                    flood.path_trace[flood.path_trace.len() - 2].0
                } else {
                    flood.initiator_id
                };
                let ghost gprev = prev;
                proof {
                    assert(base.seen()[base.seen().len() - 1] == (fid, init));
                    assert(base.seen().contains((fid, init)));
                }
                let n = self.packet_send.len();
                let mut i: usize = 0;
                while i < n
                    invariant
                        self.inv(),
                        Self::same_config(base, *self),
                        self.nbr_ids() == base.nbr_ids(),
                        self.seen() == base.seen(),
                        base.sent().is_prefix_of(self.sent()),
                        base.events().is_prefix_of(self.events()),
                        base.tried().is_prefix_of(self.tried()),
                        self.events().len() - base.events().len() == self.sent().len()
                            - base.sent().len(),
                        self.sent().len() - base.sent().len() <= self.tried().len()
                            - base.tried().len(),
                        self.tried().skip(base.tried().len() as int).map_values(
                            |e: (NodeId, Packet)| e.0,
                        ) == Self::bcast_targets(base.nbr_ids().take(i as int), gprev),
                        forall|k: int|
                            base.tried().len() <= k < self.tried().len()
                                ==> Self::flood_fwd_matches(
                                (#[trigger] self.tried()[k]).1,
                                fid,
                                init,
                                ext,
                                header,
                                session_id,
                            ),
                        n == self.nbr_ids().len(),
                        i <= n,
                        flood.flood_id == fid,
                        flood.initiator_id == init,
                        flood.path_trace@ == ext,
                        gprev == prev,
                        base.seen().contains((fid, init)),
                        forall|k: int|
                            base.sent().len() <= k < self.sent().len() ==> {
                                &&& (#[trigger] self.sent()[k]).0 != gprev
                                &&& base.has_nbr(self.sent()[k].0)
                                &&& Self::flood_fwd_matches(
                                    self.sent()[k].1,
                                    fid,
                                    init,
                                    ext,
                                    header,
                                    session_id,
                                )
                            },
                        forall|k: int|
                            base.events().len() <= k < self.events().len()
                                ==> Self::ev_is_sent_fwd(
                                #[trigger] self.events()[k],
                                fid,
                                init,
                                ext,
                                header,
                                session_id,
                            ),
                    decreases n - i,
                {
                    let ghost it0 = *self;
                    let key = self.packet_send[i].0;
                    proof {
                        assert(key == self.nbr_ids()[i as int]);
                    }
                    if key != prev {
                        let pkt = Packet {
                            pack_type: PacketType::FloodRequest(flood.clone()),
                            routing_header: SourceRoutingHeader {
                                hop_index: header.hop_index,
                                hops: clone_hops(&header.hops),
                            },
                            session_id,
                        };
                        let ghost gmid = *self;
                        if self.send_to(i, pkt) {
                            let pkt2 = Packet {
                                pack_type: PacketType::FloodRequest(flood.clone()),
                                routing_header: SourceRoutingHeader {
                                    hop_index: header.hop_index,
                                    hops: clone_hops(&header.hops),
                                },
                                session_id,
                            };
                            let ghost gmid2 = *self;
                            self.emit(DroneEvent::PacketSent(pkt2));
                            proof {
                                Self::lemma_inv_transfer(gmid2, *self);
                                assert(base.sent().is_prefix_of(self.sent())) by {
                                    assert(self.sent().subrange(0, base.sent().len() as int)
                                        =~= base.sent());
                                }
                                assert(base.events().is_prefix_of(self.events())) by {
                                    assert(self.events().subrange(0, base.events().len() as int)
                                        =~= base.events());
                                }
                            }
                        }
                    }
                    proof {
                        assert(base.nbr_ids().take(i + 1int).drop_last() =~= base.nbr_ids().take(
                            i as int,
                        ));
                        assert(base.nbr_ids().take(i + 1int).last() == key);
                        if key == gprev {
                            assert(Self::bcast_targets(base.nbr_ids().take(i + 1int), gprev)
                                == Self::bcast_targets(base.nbr_ids().take(i as int), gprev));
                            assert(self.tried() == it0.tried());
                        } else {
                            assert(Self::bcast_targets(base.nbr_ids().take(i + 1int), gprev)
                                == Self::bcast_targets(
                                base.nbr_ids().take(i as int),
                                gprev,
                            ).push(key));
                            assert(self.tried().len() == it0.tried().len() + 1);
                            assert(self.tried().last().0 == key);
                            assert(it0.tried().is_prefix_of(self.tried())) by {
                                assert(self.tried().subrange(0, it0.tried().len() as int) =~= it0
                                    .tried());
                            }
                            assert(self.tried().skip(base.tried().len() as int).map_values(
                                |e: (NodeId, Packet)| e.0,
                            ) =~= it0.tried().skip(base.tried().len() as int).map_values(
                                |e: (NodeId, Packet)| e.0,
                            ).push(key));
                        }
                        assert(base.tried().is_prefix_of(self.tried())) by {
                            assert(self.tried().subrange(0, base.tried().len() as int) =~= base
                                .tried());
                        }
                    }
                    i += 1;
                }
                proof {
                    assert(base.nbr_ids().take(n as int) =~= base.nbr_ids());
                    assert(Self::flood_bcast_post(base, *self, fid, init, ext, header, session_id));
                    assert(Self::flood_bcast_post(
                        *old(self),
                        *self,
                        fid,
                        init,
                        ext,
                        header,
                        session_id,
                    ));
                    assert(old(self).seen().is_prefix_of(self.seen())) by {
                        assert(self.seen().subrange(0, old(self).seen().len() as int) =~= old(
                            self,
                        ).seen());
                    }
                }
            }
        } else {
            self.send_flood_response(flood);
            proof {
                assert(Self::flood_response_post(*old(self), *self, fid, init, ext));
            }
        }
    }

    /// What the running drone accepts from the network without panicking: a
    /// legal hop index, and for fragments a route in which the relevant
    /// reversal point is not the very first hop (a neighbour that forwarded
    /// the fragment must come before it).
    pub open spec fn routable(self, p: Packet) -> bool {
        if is_flood_request(p) {
            true
        } else {
            let hs = p.routing_header.hops@;
            let hi = p.routing_header.hop_index as int;
            &&& hi < hs.len()
            &&& (is_fragment(p) ==> (if hs[hi] == self.id() {
                first_index(hs, self.id()) >= 1 || self.pdr() >= 100 || hs.last() == self.id()
            } else {
                first_index(hs, hs[hi]) >= 1
            }))
        }
    }

    /// What the crashing drone accepts: fragments whose route passes
    /// through this drone after at least one hop, floods, and any other
    /// packet with a legal hop index.
    pub open spec fn crash_accepts(self, p: Packet) -> bool {
        match p.pack_type {
            PacketType::MsgFragment(_) => p.routing_header.hops@.contains(self.id())
                && first_index(p.routing_header.hops@, self.id()) >= 1,
            PacketType::FloodRequest(_) => true,
            _ => p.routing_header.hop_index < p.routing_header.hops@.len(),
        }
    }

    /// Whether the drone, in its current mode, accepts this packet. The
    /// event loop must test this before handing a packet in; the
    /// protocol treats a packet that fails it as malformed.
    pub fn packet_ok(&self, p: &Packet) -> (r: bool)
        ensures
            r == if self.crashing() {
                self.crash_accepts(*p)
            } else {
                self.routable(*p)
            },
    {
        match &p.pack_type {
            PacketType::FloodRequest(_) => true,
            PacketType::MsgFragment(_) => {
                if self.crashing {
                    match position_of(&p.routing_header.hops, self.id) {
                        Some(i) => i >= 1,
                        None => false,
                    }
                } else {
                    let hi = p.routing_header.hop_index;
                    if hi >= p.routing_header.hops.len() {
                        false
                    } else if p.routing_header.hops[hi] == self.id {
                        if self.pdr >= 100 || p.routing_header.hops[p.routing_header.hops.len()
                            - 1] == self.id {
                            true
                        } else {
                            match position_of(&p.routing_header.hops, self.id) {
                                Some(i) => i >= 1,
                                None => {
                                    proof {
                                        assert(p.routing_header.hops@.contains(self.id())) by {
                                            assert(p.routing_header.hops@[hi as int] == self.id());
                                        }
                                    }
                                    false
                                },
                            }
                        }
                    } else {
                        let target = p.routing_header.hops[hi];
                        match position_of(&p.routing_header.hops, target) {
                            Some(i) => i >= 1,
                            None => {
                                proof {
                                    assert(p.routing_header.hops@.contains(target)) by {
                                        assert(p.routing_header.hops@[hi as int] == target);
                                    }
                                }
                                false
                            },
                        }
                    }
                }
            },
            _ => p.routing_header.hop_index < p.routing_header.hops.len(),
        }
    }

    /// Handles one inbound packet in running mode: floods go to the flood
    /// engine; everything else walks the check pipeline and is forwarded,
    /// answered with a Nack (fragments only), or handed to the controller.
    #[verifier::rlimit(60)]
    pub fn handle_packet(&mut self, packet: Packet)
        requires
            old(self).inv(),
            old(self).routable(packet),
        ensures
            final(self).inv(),
            Self::same_config(*old(self), *final(self)),
            old(self).seen().is_prefix_of(final(self).seen()),
            old(self).sent().is_prefix_of(final(self).sent()),
            old(self).events().is_prefix_of(final(self).events()),
            old(self).tried().is_prefix_of(final(self).tried()),
            Self::packet_post(*old(self), *final(self), packet),
            forall|k: int|
                old(self).sent().len() <= k < final(self).sent().len() ==> match flood_key_of(
                    (#[trigger] final(self).sent()[k]).1,
                ) {
                    Some(key) => !old(self).seen().contains(key),
                    None => true,
                },
    {
        let ghost gpre = *old(self);
        let ghost gpkt = packet;
        let is_fl = matches!(packet.pack_type, PacketType::FloodRequest(_));
        if is_fl {
            let Packet { pack_type, routing_header, session_id } = packet;
            match pack_type {
                PacketType::FloodRequest(fr) => {
                    self.handle_flood(fr, routing_header, session_id);
                    proof {
                        assert(Self::packet_post(gpre, *self, gpkt));
                    }
                },
                _ => {
                    proof {
                        assert(false);
                    }
                },
            }
        } else {
            let ghost pre = *old(self);
            let ghost hs = packet.routing_header.hops@;
            let ghost hi = packet.routing_header.hop_index as int;
            let is_frag = matches!(packet.pack_type, PacketType::MsgFragment(_));
            let c = packet.clone();
            proof {
                lemma_packet_eq_props(c, packet);
            }
            match self.apply_checks(c) {
                Ok(p) => {
                    proof {
                        assert(p == advanced(c));
                        assert(p.routing_header.hops@ == hs);
                        assert(p.routing_header.hop_index == adv_index(packet.routing_header));
                    }
                    let nh = p.routing_header.hops[p.routing_header.hop_index];
                    let idx = self.nbr_index(nh);
                    match idx {
                        Some(i) => {
                            let copy = p.clone();
                            proof {
                                lemma_packet_eq_props(copy, p);
                                assert(packet_eq(copy, advanced(packet)));
                            }
                            if self.send_to(i, copy) {
                                let ghost mid = *self;
                                self.emit(DroneEvent::PacketSent(p));
                                proof {
                                    Self::lemma_inv_transfer(mid, *self);
                                    assert(ev_like(
                                        self.events().last(),
                                        DroneEvent::PacketSent(advanced(packet)),
                                    ));
                                    assert(self.sent().subrange(0, pre.sent().len() as int)
                                        =~= pre.sent());
                                    assert(Self::forwarded_post(pre, *self, packet));
                                    assert(Self::packet_post(gpre, *self, gpkt));
                                }
                            } else {
                                let ghost mid0 = *self;
                                self.remove_nbr(nh);
                                let ghost mid = *self;
                                if is_frag {
                                    proof {
                                        assert(hs[hi] == pre.id());
                                        assert(hs.contains(pre.id())) by {
                                            assert(hs[hi] == pre.id());
                                        }
                                        lemma_first_index(hs, pre.id());
                                        assert(pre.pdr() < 100);
                                        assert(hs.last() != pre.id());
                                        assert(first_index(hs, pre.id()) >= 1);
                                    }
                                    let err = create_error(
                                        self.get_id(),
                                        p,
                                        NackType::ErrorInRouting(nh),
                                    );
                                    proof {
                                        assert(is_nack_for(err, p, pre.id(), NackType::ErrorInRouting(nh)));
                                        assert(err.routing_header.hops@ == nack_hops(hs, pre.id()));
                                        assert(err.routing_header.hops@.len() == first_index(
                                            hs,
                                            pre.id(),
                                        ) + 1);
                                    }
                                    let target = err.routing_header.hops[1];
                                    self.send_nack(target, err);
                                    proof {
                                        assert(Self::nack_sent_logs(
                                            mid.sent(),
                                            mid.events(),
                                            mid.tried(),
                                            self.sent(),
                                            self.events(),
                                            self.tried(),
                                            p,
                                            pre.id(),
                                            NackType::ErrorInRouting(nh),
                                            mid.has_nbr(target),
                                        ));
                                        assert(mid.tried() =~= self.tried().take(
                                            pre.tried().len() + 1int,
                                        ));
                                        Self::lemma_nbr_removed(mid0, mid, nh);
                                        assert(self.tried().subrange(
                                            0,
                                            pre.tried().len() as int,
                                        ) =~= pre.tried());
                                        assert(mid.tried()[pre.tried().len() as int].0 == nh);
                                        assert(self.tried()[pre.tried().len() as int]
                                            == mid.tried()[pre.tried().len() as int]);
                                        assert(Self::forwarded_post(pre, *self, packet));
                                        assert(Self::packet_post(gpre, *self, gpkt));
                                    }
                                } else {
                                    self.emit(DroneEvent::ControllerShortcut(p));
                                    proof {
                                        Self::lemma_inv_transfer(mid, *self);
                                        assert(Self::forwarded_post(pre, *self, packet));
                                        assert(Self::packet_post(gpre, *self, gpkt));
                                    }
                                }
                            }
                        },
                        None => {
                            proof {
                                assert(false);
                            }
                        },
                    }
                },
                Err(e) => {
                    if is_frag {
                        let nt_opt: Option<NackType> = match &e.pack_type {
                            PacketType::Nack(n) => Some(n.nack_type),
                            _ => None,
                        };
                        proof {
                            assert(hs.contains(hs[hi])) by {
                                assert(hs[hi] == hs[hi]);
                            }
                            lemma_first_index(hs, hs[hi]);
                        }
                        match nt_opt {
                            Some(NackType::UnexpectedRecipient(_)) => {
                                proof {
                                    assert(is_nack_for(
                                        e,
                                        packet,
                                        hs[hi],
                                        NackType::UnexpectedRecipient(pre.id()),
                                    ));
                                    assert(e.routing_header.hops@.len() == first_index(hs, hs[hi])
                                        + 1);
                                }
                                let target = e.routing_header.hops[1];
                                self.send_nack(target, e);
                                proof {
                                    assert(Self::nack_sent_logs(
                                        pre.sent(),
                                        pre.events(),
                                        pre.tried(),
                                        self.sent(),
                                        self.events(),
                                        self.tried(),
                                        packet,
                                        hs[hi],
                                        NackType::UnexpectedRecipient(pre.id()),
                                        pre.has_nbr(nack_hops(hs, hs[hi])[1]),
                                    ));
                                    assert(Self::packet_post(gpre, *self, gpkt));
                                }
                            },
                            Some(NackType::Dropped) => {
                                proof {
                                    assert(is_nack_for(e, packet, pre.id(), NackType::Dropped));
                                    assert(hs.contains(pre.id())) by {
                                        assert(hs[hi] == pre.id());
                                    }
                                    lemma_first_index(hs, pre.id());
                                    assert(e.routing_header.hops@.len() == first_index(
                                        hs,
                                        pre.id(),
                                    ) + 1);
                                    assert(e.routing_header.hops@.last() == hs[0]);
                                }
                                if packet.routing_header.hops[0] == self.get_id() {
                                    let ghost mid = *self;
                                    self.emit(DroneEvent::PacketDropped(packet));
                                    proof {
                                        Self::lemma_inv_transfer(mid, *self);
                                        assert(Self::dropped_post(pre, *self, packet));
                                        assert(Self::packet_post(gpre, *self, gpkt));
                                    }
                                } else {
                                    self.route_packet(e);
                                    proof {
                                        assert(Self::nack_reentry_post(
                                            pre,
                                            *self,
                                            packet,
                                            NackType::Dropped,
                                        ));
                                        assert(Self::dropped_post(pre, *self, packet));
                                        assert(Self::packet_post(gpre, *self, gpkt));
                                    }
                                }
                            },
                            Some(NackType::DestinationIsDrone) => {
                                proof {
                                    assert(is_nack_for(
                                        e,
                                        packet,
                                        pre.id(),
                                        NackType::DestinationIsDrone,
                                    ));
                                    assert(hs.contains(pre.id())) by {
                                        assert(hs[hi] == pre.id());
                                    }
                                    lemma_first_index(hs, pre.id());
                                }
                                self.route_packet(e);
                                proof {
                                    assert(Self::nack_reentry_post(
                                        pre,
                                        *self,
                                        packet,
                                        NackType::DestinationIsDrone,
                                    ));
                                    assert(Self::packet_post(gpre, *self, gpkt));
                                }
                            },
                            Some(NackType::ErrorInRouting(bad)) => {
                                proof {
                                    assert(is_nack_for(
                                        e,
                                        packet,
                                        pre.id(),
                                        NackType::ErrorInRouting(bad),
                                    ));
                                    assert(hs.contains(pre.id())) by {
                                        assert(hs[hi] == pre.id());
                                    }
                                    lemma_first_index(hs, pre.id());
                                }
                                self.route_packet(e);
                                proof {
                                    assert(Self::nack_reentry_post(
                                        pre,
                                        *self,
                                        packet,
                                        NackType::ErrorInRouting(bad),
                                    ));
                                    assert(Self::packet_post(gpre, *self, gpkt));
                                }
                            },
                            None => {
                                proof {
                                    assert(false);
                                }
                            },
                        }
                    } else {
                        let ghost mid = *self;
                        self.emit(DroneEvent::ControllerShortcut(e));
                        proof {
                            Self::lemma_inv_transfer(mid, *self);
                            assert(Self::packet_post(gpre, *self, gpkt));
                        }
                    }
                },
            }
        }
    }

    /// The per-packet contract of the crashing drone: fragments are refused
    /// with an `ErrorInRouting` naming this node, floods are discarded, and
    /// everything else is routed normally so that neighbours can finish
    /// their own teardown.
    pub open spec fn crashing_packet_post(pre: Self, post: Self, p: Packet) -> bool {
        match p.pack_type {
            PacketType::MsgFragment(_) => {
                &&& post.seen() == pre.seen()
                &&& post.nbr_ids() == pre.nbr_ids()
                &&& Self::nack_sent_logs(
                    pre.sent(),
                    pre.events(),
                    pre.tried(),
                    post.sent(),
                    post.events(),
                    post.tried(),
                    p,
                    pre.id(),
                    NackType::ErrorInRouting(pre.id()),
                    pre.has_nbr(nack_hops(p.routing_header.hops@, pre.id())[1]),
                )
            },
            PacketType::FloodRequest(_) => Self::unchanged(pre, post),
            _ => Self::packet_post(pre, post, p),
        }
    }

    /// Handles one inbound packet in crashing mode.
    #[verifier::rlimit(30)]
    pub fn crashing_handle_packet(&mut self, packet: Packet)
        requires
            old(self).inv(),
            old(self).crash_accepts(packet),
        ensures
            final(self).inv(),
            Self::same_config(*old(self), *final(self)),
            old(self).seen().is_prefix_of(final(self).seen()),
            old(self).sent().is_prefix_of(final(self).sent()),
            old(self).events().is_prefix_of(final(self).events()),
            old(self).tried().is_prefix_of(final(self).tried()),
            Self::crashing_packet_post(*old(self), *final(self), packet),
            forall|k: int|
                old(self).sent().len() <= k < final(self).sent().len() ==> match flood_key_of(
                    (#[trigger] final(self).sent()[k]).1,
                ) {
                    Some(key) => !old(self).seen().contains(key),
                    None => true,
                },
    {
        let ghost gpre = *old(self);
        let ghost gpkt = packet;
        let kind: u8 = match &packet.pack_type {
            PacketType::MsgFragment(_) => 0,
            PacketType::FloodRequest(_) => 1,
            _ => 2,
        };
        if kind == 0 {
            proof {
                lemma_first_index(packet.routing_header.hops@, gpre.id());
            }
            let err = crashing_create_error(self.get_id(), packet);
            proof {
                assert(err.routing_header.hops@.len() == first_index(
                    gpkt.routing_header.hops@,
                    gpre.id(),
                ) + 1);
            }
            let target = err.routing_header.hops[1];
            self.send_nack(target, err);
            proof {
                assert(Self::crashing_packet_post(gpre, *self, gpkt));
            }
        } else if kind == 1 {
            // a flood must not propagate through a node about to vanish
        } else {
            self.handle_packet(packet);
        }
    }

    /// What one turn of the event loop does, by mode and input.
    pub open spec fn step_post(pre: Self, post: Self, input: DroneInput) -> bool {
        if !pre.crashing() {
            &&& post.cmd_closed() == pre.cmd_closed()
            &&& post.pkt_closed() == pre.pkt_closed()
            &&& match input {
                DroneInput::Command(c) => Self::command_post(pre, post, c),
                DroneInput::Packet(p) => Self::same_config(pre, post) && Self::packet_post(
                    pre,
                    post,
                    p,
                ),
                _ => Self::unchanged(pre, post),
            }
        } else {
            match input {
                DroneInput::Command(c) => match c {
                    DroneCommand::RemoveSender(n) => {
                        &&& Self::same_config(pre, post)
                        &&& post.seen() == pre.seen()
                        &&& post.events() == pre.events()
                        &&& post.sent() == pre.sent()
                        &&& post.tried() == pre.tried()
                        &&& Self::nbr_removed(pre, post, n)
                    },
                    _ => Self::unchanged(pre, post),
                },
                DroneInput::CommandChannelClosed => {
                    &&& post.id() == pre.id()
                    &&& post.pdr() == pre.pdr()
                    &&& post.crashing() == pre.crashing()
                    &&& post.cmd_closed()
                    &&& post.pkt_closed() == pre.pkt_closed()
                    &&& post.nbr_ids() == pre.nbr_ids()
                    &&& post.seen() == pre.seen()
                    &&& post.events() == pre.events()
                    &&& post.sent() == pre.sent()
                    &&& post.tried() == pre.tried()
                },
                DroneInput::Packet(p) => Self::same_config(pre, post)
                    && Self::crashing_packet_post(pre, post, p),
                DroneInput::PacketChannelClosed => {
                    &&& post.id() == pre.id()
                    &&& post.pdr() == pre.pdr()
                    &&& post.crashing() == pre.crashing()
                    &&& post.cmd_closed() == pre.cmd_closed()
                    &&& post.pkt_closed()
                    &&& post.nbr_ids() == pre.nbr_ids()
                    &&& post.seen() == pre.seen()
                    &&& post.events() == pre.events()
                    &&& post.sent() == pre.sent()
                    &&& post.tried() == pre.tried()
                },
            }
        }
    }

    /// Whether the drone accepts this loop input in its current mode. The
    /// loop must test packets with `packet_ok` first; the protocol treats a
    /// packet that fails it as malformed and gives up on it.
    pub open spec fn step_ok(self, input: DroneInput) -> bool {
        match input {
            DroneInput::Packet(p) => if self.crashing() {
                self.crash_accepts(p)
            } else {
                self.routable(p)
            },
            _ => true,
        }
    }

    /// One turn of the dual-mode event loop, fed by a biased select over
    /// the command and packet channels. In running mode commands and
    /// packets are handled in full; in crashing mode only `RemoveSender`
    /// commands are honoured, packets go to the crashing handler, and
    /// observed disconnections are recorded. The result says whether the
    /// loop goes on: it stops only when, while crashing, both channels have
    /// been seen disconnected.
    pub fn step(&mut self, input: DroneInput) -> (running: bool)
        requires
            old(self).inv(),
            old(self).step_ok(input),
        ensures
            final(self).inv(),
            running == !(final(self).crashing() && final(self).cmd_closed()
                && final(self).pkt_closed()),
            old(self).seen().is_prefix_of(final(self).seen()),
            old(self).sent().is_prefix_of(final(self).sent()),
            old(self).events().is_prefix_of(final(self).events()),
            old(self).tried().is_prefix_of(final(self).tried()),
            Self::step_post(*old(self), *final(self), input),
    {
        if !self.crashing {
            match input {
                DroneInput::Command(command) => {
                    self.handle_command(command);
                    proof {
                        assert(self.seen().subrange(0, old(self).seen().len() as int) =~= old(
                            self,
                        ).seen());
                        assert(self.sent().subrange(0, old(self).sent().len() as int) =~= old(
                            self,
                        ).sent());
                        assert(self.events().subrange(0, old(self).events().len() as int) =~= old(
                            self,
                        ).events());
                    }
                },
                DroneInput::Packet(packet) => {
                    self.handle_packet(packet);
                },
                _ => {
                    proof {
                        assert(self.seen().subrange(0, old(self).seen().len() as int) =~= old(
                            self,
                        ).seen());
                        assert(self.sent().subrange(0, old(self).sent().len() as int) =~= old(
                            self,
                        ).sent());
                        assert(self.events().subrange(0, old(self).events().len() as int) =~= old(
                            self,
                        ).events());
                    }
                },
            }
        } else {
            match input {
                DroneInput::Command(command) => {
                    match command {
                        DroneCommand::RemoveSender(node_id) => {
                            self.remove_nbr(node_id);
                        },
                        _ => {},
                    }
                    proof {
                        assert(self.seen().subrange(0, old(self).seen().len() as int) =~= old(
                            self,
                        ).seen());
                        assert(self.sent().subrange(0, old(self).sent().len() as int) =~= old(
                            self,
                        ).sent());
                        assert(self.events().subrange(0, old(self).events().len() as int) =~= old(
                            self,
                        ).events());
                    }
                },
                DroneInput::CommandChannelClosed => {
                    self.cmd_closed = true;
                    proof {
                        Self::lemma_nbrs_wf_transfer(*old(self), *self);
                        Self::lemma_seen_wf_transfer(*old(self), *self);
                        Self::lemma_sent_wf_transfer(*old(self), *self);
                        assert(self.seen().subrange(0, old(self).seen().len() as int) =~= old(
                            self,
                        ).seen());
                        assert(self.sent().subrange(0, old(self).sent().len() as int) =~= old(
                            self,
                        ).sent());
                        assert(self.events().subrange(0, old(self).events().len() as int) =~= old(
                            self,
                        ).events());
                    }
                },
                DroneInput::Packet(packet) => {
                    self.crashing_handle_packet(packet);
                },
                DroneInput::PacketChannelClosed => {
                    self.pkt_closed = true;
                    proof {
                        Self::lemma_nbrs_wf_transfer(*old(self), *self);
                        Self::lemma_seen_wf_transfer(*old(self), *self);
                        Self::lemma_sent_wf_transfer(*old(self), *self);
                        assert(self.seen().subrange(0, old(self).seen().len() as int) =~= old(
                            self,
                        ).seen());
                        assert(self.sent().subrange(0, old(self).sent().len() as int) =~= old(
                            self,
                        ).sent());
                        assert(self.events().subrange(0, old(self).events().len() as int) =~= old(
                            self,
                        ).events());
                    }
                },
            }
        }
        !(self.crashing && self.cmd_closed && self.pkt_closed)
    }

    /// Law: every packet this drone has ever delivered to a neighbour
    /// carries that neighbour at its current hop index (flood requests
    /// aside: they travel by their path trace, not the routing header).
    pub proof fn lemma_delivery_addressing(d: Self)
        requires
            d.inv(),
        ensures
            forall|k: int| 0 <= k < d.sent().len() ==> Self::wf_delivery(#[trigger] d.sent()[k]),
    {
    }

    /// Law: a flood wave is forwarded at most once in a drone's lifetime.
    /// Every wave a turn forwards was unseen when the turn began, and every
    /// wave ever forwarded is recorded in `seen`; so no turn can forward a
    /// wave that an earlier turn already forwarded.
    pub proof fn lemma_flood_forward_once(b: Self, c: Self)
        requires
            b.inv(),
            b.sent().is_prefix_of(c.sent()),
            forall|k: int|
                b.sent().len() <= k < c.sent().len() ==> match flood_key_of(
                    (#[trigger] c.sent()[k]).1,
                ) {
                    Some(key) => !b.seen().contains(key),
                    None => true,
                },
        ensures
            forall|i: int, k: int|
                0 <= i < b.sent().len() && b.sent().len() <= k < c.sent().len() ==> match (
                flood_key_of((#[trigger] b.sent()[i]).1),
                flood_key_of((#[trigger] c.sent()[k]).1),
            ) {
                    (Some(key_old), Some(key_new)) => key_old != key_new,
                    _ => true,
                },
    {
        assert forall|i: int, k: int|
            0 <= i < b.sent().len() && b.sent().len() <= k < c.sent().len() implies match (
            flood_key_of((#[trigger] b.sent()[i]).1),
            flood_key_of((#[trigger] c.sent()[k]).1),
        ) {
            (Some(key_old), Some(key_new)) => key_old != key_new,
            _ => true,
        } by {
            match (flood_key_of(b.sent()[i].1), flood_key_of(c.sent()[k].1)) {
                (Some(key_old), Some(key_new)) => {
                    assert(b.seen().contains(key_old));
                    assert(!b.seen().contains(key_new));
                },
                _ => {},
            }
        }
    }

    /// Law: the record of seen flood waves is monotone: it never shrinks,
    /// and no wave is ever forgotten.
    pub proof fn lemma_seen_monotone(pre: Seq<(u64, NodeId)>, post: Seq<(u64, NodeId)>)
        requires
            pre.is_prefix_of(post),
        ensures
            pre.len() <= post.len(),
            forall|key: (u64, NodeId)| pre.contains(key) ==> #[trigger] post.contains(key),
    {
        assert forall|key: (u64, NodeId)| pre.contains(key) implies #[trigger] post.contains(
            key,
        ) by {
            let j = choose|j: int| 0 <= j < pre.len() && pre[j] == key;
            assert(post[j] == key);
        }
    }
}

} // verus!
