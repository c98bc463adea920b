//! The flow graph: owns the node collection, maintains the duplicated
//! connection index, computes an execution order and drives the two-phase
//! demand-propagation / value-computation protocol.

use vstd::prelude::*;

use crate::node::Node;
use crate::order::{insert_unique_sorted, is_walk, kahn, on_cycle, pred_edge, pred_edge_of, sorted_strict};
use crate::port::{Port, PortIndex};
use crate::SealedTag;

use core::marker::PhantomData;

verus! {

broadcast use crate::port::lemma_port_index_nonnegative;

/// Private access token of `Flow` to access sealed methods in `Node`.
///
/// This is a workaround for restricting the visibility of methods in
/// traits to the crate that defines the trait.
#[derive(Debug)]
pub struct AccessToken {
    tag: SealedTag,
}

impl AccessToken {
    fn new() -> Self {
        Self { tag: SealedTag }
    }
}

/// Node identifier in a flow graph
///
/// Identifiers are assigned sequentially on insertion, are stable for the
/// node's lifetime and are never reused (nodes cannot be removed).
#[derive(Debug, Clone, Copy, Eq, PartialEq, Ord, PartialOrd, Structural)]
pub struct NodeId(usize);

impl View for NodeId {
    type V = int;

    closed spec fn view(&self) -> int {
        self.0 as int
    }
}

/// A node identifier is never negative: it is backed by a machine
/// word. Callers outside this module need this to instantiate the
/// `0 <= i < node_count` guards of the flow's contracts, since the view
/// itself is closed.
pub broadcast proof fn lemma_node_id_nonnegative(node_id: NodeId)
    ensures
        0 <= #[trigger] node_id@ < usize::MAX + 1,
{
}

impl NodeId {
    fn new(index: usize) -> (node_id: Self)
        ensures
            node_id@ == index,
    {
        Self(index)
    }
}

impl From<NodeId> for usize {
    fn from(from: NodeId) -> (index: usize)
        ensures
            index == from@,
    {
        from.0
    }
}

impl vstd::std_specs::convert::FromSpecImpl<NodeId> for usize {
    open spec fn obeys_from_spec() -> bool {
        true
    }

    open spec fn from_spec(from: NodeId) -> usize {
        from@ as usize
    }
}

/// Address of an input or output port at a node
///
/// The type of port (input or output) is unspecified and implicitly
/// follows from the context.
#[derive(Debug, Clone, Copy, Eq, PartialEq, Structural)]
pub struct Socket {
    /// The node identifier
    pub node_id: NodeId,

    /// The port index
    pub port_index: PortIndex,
}

impl Socket {
    /// True when this socket addresses port `port` of node `node`.
    pub open spec fn addresses(self, node: int, port: int) -> bool {
        self.node_id@ == node && self.port_index@ == port
    }
}

/// Some element of `order` identifies node `v`.
pub open spec fn contains_node(order: Seq<NodeId>, v: int) -> bool {
    exists|j: int| 0 <= j < order.len() && (#[trigger] order[j])@ == v
}

/// One half of the duplicated connection index: a mapping from port
/// indexes of one node to the socket at the opposite end of the
/// connection, stored as an association list with pairwise distinct keys.
#[derive(Debug)]
struct PortMap {
    entries: Vec<(PortIndex, Socket)>,
}

impl PortMap {
    /// The stored entries, in insertion order.
    spec fn entries_seq(self) -> Seq<(PortIndex, Socket)> {
        self.entries@
    }

    /// Keys are pairwise distinct.
    spec fn wf(self) -> bool {
        forall|i: int, j: int|
            0 <= i < j < self.entries@.len() ==> (#[trigger] self.entries@[i]).0@ != (
            #[trigger] self.entries@[j]).0@
    }

    /// There is an entry for key `k`.
    spec fn has_key(self, k: int) -> bool {
        exists|i: int| 0 <= i < self.entries@.len() && (#[trigger] self.entries@[i]).0@ == k
    }

    /// The position of the entry for key `k`.
    spec fn key_index(self, k: int) -> int {
        choose|i: int| 0 <= i < self.entries@.len() && (#[trigger] self.entries@[i]).0@ == k
    }

    /// The mathematical map held by this association list.
    spec fn as_map(self) -> Map<int, Socket> {
        Map::new(|k: int| self.has_key(k), |k: int| self.entries@[self.key_index(k)].1)
    }

    proof fn lemma_entry_in_map(self, i: int)
        requires
            self.wf(),
            0 <= i < self.entries_seq().len(),
        ensures
            self.as_map().contains_key(self.entries_seq()[i].0@),
            self.as_map()[self.entries_seq()[i].0@] == self.entries_seq()[i].1,
    {
        let k = self.entries_seq()[i].0@;
        assert(self.has_key(k));
        let j = self.key_index(k);
        assert(0 <= j < self.entries@.len() && self.entries@[j].0@ == k);
        assert(j == i);
    }

    fn new() -> (port_map: Self)
        ensures
            port_map.wf(),
            port_map.as_map() == Map::<int, Socket>::empty(),
            port_map.entries_seq().len() == 0,
    {
        let port_map = Self { entries: Vec::new() };
        proof {
            assert(port_map.as_map() =~= Map::<int, Socket>::empty());
        }
        port_map
    }

    fn len(&self) -> (n: usize)
        ensures
            n == self.entries_seq().len(),
    {
        self.entries.len()
    }

    fn entry_at(&self, i: usize) -> (entry: (PortIndex, Socket))
        requires
            i < self.entries_seq().len(),
        ensures
            entry == self.entries_seq()[i as int],
    {
        self.entries[i]
    }

    /// Find the position of the entry for `key`, if one exists.
    fn find(&self, key: PortIndex) -> (position: Option<usize>)
        requires
            self.wf(),
        ensures
            match position {
                Some(i) => {
                    &&& i < self.entries_seq().len()
                    &&& self.entries_seq()[i as int].0@ == key@
                    &&& self.as_map().contains_key(key@)
                }
                None => !self.as_map().contains_key(key@),
            },
    {
        let n = self.entries.len();
        let mut i: usize = 0;
        while i < n
            invariant
                self.wf(),
                n == self.entries_seq().len(),
                i <= n,
                forall|j: int| 0 <= j < i ==> (#[trigger] self.entries_seq()[j]).0@ != key@,
            decreases n - i,
        {
            if self.entries[i].0.get() == key.get() {
                proof {
                    self.lemma_entry_in_map(i as int);
                }
                return Some(i);
            }
            i += 1;
        }
        proof {
            assert(!self.has_key(key@));
        }
        None
    }

    /// Bind `key` to `value`, replacing any previous binding.
    fn insert(&mut self, key: PortIndex, value: Socket)
        requires
            old(self).wf(),
        ensures
            final(self).wf(),
            final(self).as_map() == old(self).as_map().insert(key@, value),
    {
        let ghost prior = *self;
        match self.find(key) {
            Some(i) => {
                let ghost ix: int = i as int;
                self.entries.set(i, (key, value));
                proof {
                    assert forall|k: int| self.has_key(k) <==> prior.has_key(k) by {
                        if prior.has_key(k) {
                            let j = prior.key_index(k);
                            assert(self.entries@[j].0@ == k);
                        }
                        if self.has_key(k) {
                            let j = self.key_index(k);
                            assert(prior.entries@[j].0@ == k);
                        }
                    }
                    assert forall|k: int| #[trigger]
                        self.as_map().contains_key(k) implies self.as_map()[k] == prior.as_map()
                        .insert(key@, value)[k] by {
                        let j = self.key_index(k);
                        assert(0 <= j < self.entries@.len() && self.entries@[j].0@ == k);
                        if k == key@ {
                            assert(prior.entries@[ix].0@ == k);
                            assert(j == ix);
                        } else {
                            assert(j != ix);
                            assert(self.entries@[j] == prior.entries@[j]);
                            prior.lemma_entry_in_map(j);
                        }
                    }
                    assert(self.as_map() =~= prior.as_map().insert(key@, value));
                }
            }
            None => {
                self.entries.push((key, value));
                proof {
                    let m = prior.entries@.len() as int;
                    assert forall|k: int| self.has_key(k) <==> (prior.has_key(k) || k == key@) by {
                        if prior.has_key(k) {
                            let j = prior.key_index(k);
                            assert(self.entries@[j].0@ == k);
                        }
                        if self.has_key(k) {
                            let j = self.key_index(k);
                            if j < m {
                                assert(prior.entries@[j].0@ == k);
                            }
                        }
                        if k == key@ {
                            assert(self.entries@[m].0@ == k);
                        }
                    }
                    assert forall|k: int| #[trigger]
                        self.as_map().contains_key(k) implies self.as_map()[k] == prior.as_map()
                        .insert(key@, value)[k] by {
                        let j = self.key_index(k);
                        assert(0 <= j < self.entries@.len() && self.entries@[j].0@ == k);
                        if k == key@ {
                            assert(j == m);
                        } else {
                            assert(j < m);
                            assert(self.entries@[j] == prior.entries@[j]);
                            prior.lemma_entry_in_map(j);
                        }
                    }
                    assert(self.as_map() =~= prior.as_map().insert(key@, value));
                }
            }
        }
    }

    /// Remove the binding for `key`, returning the bound socket if one
    /// existed.
    fn remove(&mut self, key: PortIndex) -> (socket: Option<Socket>)
        requires
            old(self).wf(),
        ensures
            final(self).wf(),
            final(self).as_map() == old(self).as_map().remove(key@),
            match socket {
                Some(s) => old(self).as_map().contains_key(key@) && old(self).as_map()[key@] == s,
                None => !old(self).as_map().contains_key(key@) && *final(self) == *old(self),
            },
    {
        let ghost prior = *self;
        match self.find(key) {
            Some(i) => {
                let ghost ix: int = i as int;
                let entry = self.entries.swap_remove(i);
                proof {
                    let m = prior.entries@.len() as int;
                    // the new sequence holds exactly the old entries except entry i
                    assert forall|j: int| 0 <= j < self.entries@.len() implies #[trigger] self
                        .entries@[j] == (if j == ix {
                        prior.entries@[m - 1]
                    } else {
                        prior.entries@[j]
                    }) by {}
                    assert forall|k: int| self.has_key(k) <==> (prior.has_key(k) && k != key@) by {
                        if self.has_key(k) {
                            let j = self.key_index(k);
                            if j == ix {
                                assert(prior.entries@[m - 1].0@ == k);
                                assert(ix < m - 1 ==> k != key@);
                                assert(ix == m - 1 ==> j >= self.entries@.len());
                            } else {
                                assert(prior.entries@[j].0@ == k);
                            }
                        }
                        if prior.has_key(k) && k != key@ {
                            let j = prior.key_index(k);
                            assert(prior.entries@[j].0@ == k);
                            assert(j != ix);
                            if j == m - 1 {
                                assert(ix < m - 1);
                                assert(self.entries@[ix].0@ == k);
                            } else {
                                assert(self.entries@[j].0@ == k);
                            }
                        }
                    }
                    assert forall|k: int| #[trigger]
                        self.as_map().contains_key(k) implies self.as_map()[k] == prior.as_map()
                        .remove(key@)[k] by {
                        let j = self.key_index(k);
                        assert(0 <= j < self.entries@.len() && self.entries@[j].0@ == k);
                        prior.lemma_entry_in_map(if j == ix {
                            m - 1
                        } else {
                            j
                        });
                    }
                    assert(self.as_map() =~= prior.as_map().remove(key@));
                    prior.lemma_entry_in_map(ix);
                }
                Some(entry.1)
            }
            None => {
                proof {
                    assert(self.as_map() =~= prior.as_map().remove(key@));
                }
                None
            }
        }
    }
}

/// One node of a flow, together with its two halves of the duplicated
/// connection index.
#[derive(Debug)]
struct FlowNode<N> {
    node: N,
    connected_inputs: PortMap,
    connected_outputs: PortMap,
}

/// Directed acyclic graph (DAG) of computational nodes
#[derive(Debug)]
pub struct Flow<N, S, P> {
    nodes: Vec<FlowNode<N>>,
    phantom1: PhantomData<S>,
    phantom2: PhantomData<P>,
}

impl<N, S, P> Default for Flow<N, S, P> {
    fn default() -> (flow: Self)
        ensures
            flow.node_count() == 0,
            flow.wf(),
    {
        Self { nodes: Vec::new(), phantom1: PhantomData, phantom2: PhantomData }
    }
}

/// Detected cycle
#[derive(Debug, Clone, Copy, Eq, PartialEq, Structural)]
pub struct Cycle {
    node: NodeId,
}

impl View for Cycle {
    type V = int;

    closed spec fn view(&self) -> int {
        self.node@
    }
}

impl Cycle {
    /// A node within the cycle
    pub fn node(self) -> (node_id: NodeId)
        ensures
            node_id@ == self@,
    {
        self.node
    }
}

impl<N, S, P> Flow<N, S, P> {
    /// The number of nodes in the flow.
    pub closed spec fn node_count(self) -> nat {
        self.nodes@.len()
    }

    /// The node with index `i`.
    pub closed spec fn node_at(self, i: int) -> N {
        self.nodes@[i].node
    }

    /// The input half of the connection index of node `i`: for every
    /// connected input port, the output socket of the preceding node.
    pub closed spec fn inputs_of(self, i: int) -> Map<int, Socket> {
        self.nodes@[i].connected_inputs.as_map()
    }

    /// The output half of the connection index of node `i`: for every
    /// connected output port, the input socket of the subsequent node.
    pub closed spec fn outputs_of(self, i: int) -> Map<int, Socket> {
        self.nodes@[i].connected_outputs.as_map()
    }

    /// Some connection leads from an output port of node `a` to an
    /// input port of node `b`.
    pub open spec fn edge(self, a: int, b: int) -> bool {
        0 <= b < self.node_count() && exists|p: int|
            #[trigger] self.inputs_of(b).contains_key(p) && self.inputs_of(b)[p].node_id@ == a
    }

    /// The edge relation of this flow, as a function value.
    pub open spec fn edge_fn(self) -> spec_fn(int, int) -> bool {
        |a: int, b: int| self.edge(a, b)
    }

    /// Node `v` lies on some cycle of the flow's connections.
    pub open spec fn cycle_through(self, v: int) -> bool {
        on_cycle(self.edge_fn(), v)
    }

    /// `other` has the same node count and the same connections as
    /// `self` (the nodes themselves may differ).
    pub open spec fn same_topology(self, other: Self) -> bool {
        &&& other.node_count() == self.node_count()
        &&& forall|i: int|
            0 <= i < self.node_count() ==> #[trigger] other.inputs_of(i) == self.inputs_of(i)
        &&& forall|i: int|
            0 <= i < self.node_count() ==> #[trigger] other.outputs_of(i) == self.outputs_of(i)
    }

    /// The socket connected to input port `p` of node `i`, if any.
    pub open spec fn input_binding(self, i: int, p: int) -> Option<Socket> {
        if self.inputs_of(i).contains_key(p) {
            Some(self.inputs_of(i)[p])
        } else {
            None
        }
    }

    /// The socket connected to output port `p` of node `i`, if any.
    pub open spec fn output_binding(self, i: int, p: int) -> Option<Socket> {
        if self.outputs_of(i).contains_key(p) {
            Some(self.outputs_of(i)[p])
        } else {
            None
        }
    }

    /// `other` holds exactly the same connection records as `self`,
    /// entry for entry, and the same node count; only the nodes
    /// themselves may differ.
    pub closed spec fn connections_unchanged(self, other: Self) -> bool {
        &&& other.nodes@.len() == self.nodes@.len()
        &&& forall|i: int|
            0 <= i < self.nodes@.len() ==> (#[trigger] other.nodes@[i]).connected_inputs == self.nodes@[i].connected_inputs
                && other.nodes@[i].connected_outputs == self.nodes@[i].connected_outputs
    }

    /// The data-model invariant of a flow: every connection is recorded
    /// twice, once in the source node's outgoing map and once in the
    /// destination node's incoming map, the two records point at each
    /// other, and the two endpoints of a connection are always distinct
    /// nodes.
    pub closed spec fn wf(self) -> bool {
        let n = self.node_count() as int;
        &&& forall|i: int|
            0 <= i < n ==> (#[trigger] self.nodes@[i]).connected_inputs.wf()
                && self.nodes@[i].connected_outputs.wf()
        &&& forall|i: int, p: int|
            0 <= i < n && #[trigger] self.inputs_of(i).contains_key(p) ==> {
                let s = self.inputs_of(i)[p];
                &&& 0 <= p
                &&& 0 <= s.node_id@ < n
                &&& s.node_id@ != i
                &&& self.outputs_of(s.node_id@).contains_key(s.port_index@)
                &&& self.outputs_of(s.node_id@)[s.port_index@].addresses(i, p)
            }
        &&& forall|i: int, p: int|
            0 <= i < n && #[trigger] self.outputs_of(i).contains_key(p) ==> {
                let s = self.outputs_of(i)[p];
                &&& 0 <= p
                &&& 0 <= s.node_id@ < n
                &&& s.node_id@ != i
                &&& self.inputs_of(s.node_id@).contains_key(s.port_index@)
                &&& self.inputs_of(s.node_id@)[s.port_index@].addresses(i, p)
            }
    }

    /// Structural well-formedness of every connection record store.
    spec fn stores_wf(self) -> bool {
        forall|i: int|
            0 <= i < self.nodes@.len() ==> (#[trigger] self.nodes@[i]).connected_inputs.wf()
                && self.nodes@[i].connected_outputs.wf()
    }

    /// A flow whose connection maps agree with a well-formed flow,
    /// node for node, is well-formed itself.
    proof fn lemma_wf_same_maps(self, pre: Self)
        requires
            pre.wf(),
            self.stores_wf(),
            self.node_count() == pre.node_count(),
            forall|i: int|
                0 <= i < pre.node_count() ==> #[trigger] self.inputs_of(i) == pre.inputs_of(i),
            forall|i: int|
                0 <= i < pre.node_count() ==> #[trigger] self.outputs_of(i) == pre.outputs_of(i),
        ensures
            self.wf(),
    {
        let n = pre.node_count() as int;
        assert forall|i: int, p: int|
            0 <= i < n && #[trigger] self.inputs_of(i).contains_key(p) implies {
            let s = self.inputs_of(i)[p];
            &&& 0 <= p
            &&& 0 <= s.node_id@ < n
            &&& s.node_id@ != i
            &&& self.outputs_of(s.node_id@).contains_key(s.port_index@)
            &&& self.outputs_of(s.node_id@)[s.port_index@].addresses(i, p)
        } by {
            assert(pre.inputs_of(i).contains_key(p));
            let s = pre.inputs_of(i)[p];
            assert(0 <= s.node_id@ < n);
        }
        assert forall|i: int, p: int|
            0 <= i < n && #[trigger] self.outputs_of(i).contains_key(p) implies {
            let s = self.outputs_of(i)[p];
            &&& 0 <= p
            &&& 0 <= s.node_id@ < n
            &&& s.node_id@ != i
            &&& self.inputs_of(s.node_id@).contains_key(s.port_index@)
            &&& self.inputs_of(s.node_id@)[s.port_index@].addresses(i, p)
        } by {
            assert(pre.outputs_of(i).contains_key(p));
            let s = pre.outputs_of(i)[p];
            assert(0 <= s.node_id@ < n);
        }
        assert(self.wf());
    }

    /// Removing one connection pair (the record at an output port
    /// together with the matching record at the connected input port)
    /// preserves the data-model invariant.
    proof fn lemma_disconnect_pair_wf(self, pre: Self, output: Socket, partner: Socket)
        requires
            pre.wf(),
            output.node_id@ < pre.node_count(),
            pre.outputs_of(output.node_id@).contains_key(output.port_index@),
            partner == pre.outputs_of(output.node_id@)[output.port_index@],
            self.node_count() == pre.node_count(),
            self.stores_wf(),
            self.outputs_of(output.node_id@) == pre.outputs_of(output.node_id@).remove(
                output.port_index@,
            ),
            self.inputs_of(partner.node_id@) == pre.inputs_of(partner.node_id@).remove(
                partner.port_index@,
            ),
            forall|i: int|
                0 <= i < pre.node_count() && i != output.node_id@
                    ==> #[trigger] self.outputs_of(i) == pre.outputs_of(i),
            forall|i: int|
                0 <= i < pre.node_count() && i != partner.node_id@
                    ==> #[trigger] self.inputs_of(i) == pre.inputs_of(i),
        ensures
            self.wf(),
    {
        let n = pre.node_count() as int;
        let o = output.node_id@;
        let op = output.port_index@;
        let b = partner.node_id@;
        let bp = partner.port_index@;
        assert(pre.inputs_of(b).contains_key(bp) && pre.inputs_of(b)[bp].addresses(o, op));
        assert forall|i: int, p: int|
            0 <= i < n && #[trigger] self.inputs_of(i).contains_key(p) implies {
            let s = self.inputs_of(i)[p];
            &&& 0 <= p
            &&& 0 <= s.node_id@ < n
            &&& s.node_id@ != i
            &&& self.outputs_of(s.node_id@).contains_key(s.port_index@)
            &&& self.outputs_of(s.node_id@)[s.port_index@].addresses(i, p)
        } by {
            assert(pre.inputs_of(i).contains_key(p));
            assert(!(i == b && p == bp));
            let s = pre.inputs_of(i)[p];
            assert(0 <= s.node_id@ < n);
            assert(pre.outputs_of(s.node_id@).contains_key(s.port_index@));
            assert(pre.outputs_of(s.node_id@)[s.port_index@].addresses(i, p));
            if s.node_id@ == o && s.port_index@ == op {
                assert(partner.addresses(i, p));
                assert(false);
            }
        }
        assert forall|i: int, p: int|
            0 <= i < n && #[trigger] self.outputs_of(i).contains_key(p) implies {
            let s = self.outputs_of(i)[p];
            &&& 0 <= p
            &&& 0 <= s.node_id@ < n
            &&& s.node_id@ != i
            &&& self.inputs_of(s.node_id@).contains_key(s.port_index@)
            &&& self.inputs_of(s.node_id@)[s.port_index@].addresses(i, p)
        } by {
            assert(pre.outputs_of(i).contains_key(p));
            assert(!(i == o && p == op));
            let s = pre.outputs_of(i)[p];
            assert(0 <= s.node_id@ < n);
            assert(pre.inputs_of(s.node_id@).contains_key(s.port_index@));
            assert(pre.inputs_of(s.node_id@)[s.port_index@].addresses(i, p));
            if s.node_id@ == b && s.port_index@ == bp {
                assert(pre.inputs_of(b)[bp].addresses(i, p));
                assert(i == o && p == op);
                assert(false);
            }
        }
        assert(self.wf());
    }

    /// Mirror image of `lemma_disconnect_pair_wf`, for removal driven
    /// from the input end of a connection.
    proof fn lemma_disconnect_pair_wf_rev(self, pre: Self, input: Socket, partner: Socket)
        requires
            pre.wf(),
            input.node_id@ < pre.node_count(),
            pre.inputs_of(input.node_id@).contains_key(input.port_index@),
            partner == pre.inputs_of(input.node_id@)[input.port_index@],
            self.node_count() == pre.node_count(),
            self.stores_wf(),
            self.inputs_of(input.node_id@) == pre.inputs_of(input.node_id@).remove(
                input.port_index@,
            ),
            self.outputs_of(partner.node_id@) == pre.outputs_of(partner.node_id@).remove(
                partner.port_index@,
            ),
            forall|i: int|
                0 <= i < pre.node_count() && i != input.node_id@
                    ==> #[trigger] self.inputs_of(i) == pre.inputs_of(i),
            forall|i: int|
                0 <= i < pre.node_count() && i != partner.node_id@
                    ==> #[trigger] self.outputs_of(i) == pre.outputs_of(i),
        ensures
            self.wf(),
    {
        let n = pre.node_count() as int;
        let b = input.node_id@;
        let bp = input.port_index@;
        let o = partner.node_id@;
        let op = partner.port_index@;
        assert(pre.outputs_of(o).contains_key(op) && pre.outputs_of(o)[op].addresses(b, bp));
        assert forall|i: int, p: int|
            0 <= i < n && #[trigger] self.inputs_of(i).contains_key(p) implies {
            let s = self.inputs_of(i)[p];
            &&& 0 <= p
            &&& 0 <= s.node_id@ < n
            &&& s.node_id@ != i
            &&& self.outputs_of(s.node_id@).contains_key(s.port_index@)
            &&& self.outputs_of(s.node_id@)[s.port_index@].addresses(i, p)
        } by {
            assert(pre.inputs_of(i).contains_key(p));
            assert(!(i == b && p == bp));
            let s = pre.inputs_of(i)[p];
            assert(0 <= s.node_id@ < n);
            assert(pre.outputs_of(s.node_id@).contains_key(s.port_index@));
            assert(pre.outputs_of(s.node_id@)[s.port_index@].addresses(i, p));
            if s.node_id@ == o && s.port_index@ == op {
                assert(pre.outputs_of(o)[op].addresses(i, p));
                assert(i == b && p == bp);
                assert(false);
            }
        }
        assert forall|i: int, p: int|
            0 <= i < n && #[trigger] self.outputs_of(i).contains_key(p) implies {
            let s = self.outputs_of(i)[p];
            &&& 0 <= p
            &&& 0 <= s.node_id@ < n
            &&& s.node_id@ != i
            &&& self.inputs_of(s.node_id@).contains_key(s.port_index@)
            &&& self.inputs_of(s.node_id@)[s.port_index@].addresses(i, p)
        } by {
            assert(pre.outputs_of(i).contains_key(p));
            assert(!(i == o && p == op));
            let s = pre.outputs_of(i)[p];
            assert(0 <= s.node_id@ < n);
            assert(pre.inputs_of(s.node_id@).contains_key(s.port_index@));
            assert(pre.inputs_of(s.node_id@)[s.port_index@].addresses(i, p));
            if s.node_id@ == b && s.port_index@ == bp {
                assert(partner.addresses(i, p));
                assert(false);
            }
        }
        assert(self.wf());
    }

    /// Replacing nodes while keeping every connection record intact
    /// preserves the data-model invariant.
    pub proof fn lemma_wf_connections_unchanged(self, other: Self)
        requires
            self.wf(),
            self.connections_unchanged(other),
        ensures
            other.wf(),
    {
        let n = self.node_count() as int;
        assert forall|i: int| 0 <= i < n implies #[trigger] other.inputs_of(i) == self.inputs_of(i)
            && other.outputs_of(i) == self.outputs_of(i) by {
            assert(other.nodes@[i].connected_inputs == self.nodes@[i].connected_inputs);
        }
        assert forall|i: int, p: int|
            0 <= i < n && #[trigger] other.inputs_of(i).contains_key(p) implies {
            let s = other.inputs_of(i)[p];
            &&& 0 <= p
            &&& 0 <= s.node_id@ < n
            &&& s.node_id@ != i
            &&& other.outputs_of(s.node_id@).contains_key(s.port_index@)
            &&& other.outputs_of(s.node_id@)[s.port_index@].addresses(i, p)
        } by {
            assert(self.inputs_of(i).contains_key(p));
            let s = self.inputs_of(i)[p];
            assert(0 <= s.node_id@ < n);
        }
        assert forall|i: int, p: int|
            0 <= i < n && #[trigger] other.outputs_of(i).contains_key(p) implies {
            let s = other.outputs_of(i)[p];
            &&& 0 <= p
            &&& 0 <= s.node_id@ < n
            &&& s.node_id@ != i
            &&& other.inputs_of(s.node_id@).contains_key(s.port_index@)
            &&& other.inputs_of(s.node_id@)[s.port_index@].addresses(i, p)
        } by {
            assert(self.outputs_of(i).contains_key(p));
            let s = self.outputs_of(i)[p];
            assert(0 <= s.node_id@ < n);
        }
    }
}

impl<N, S, P> Flow<N, S, P> where N: Node<S, P> {
    pub fn new() -> (flow: Self)
        ensures
            flow.node_count() == 0,
            flow.wf(),
    {
        Self { nodes: Vec::new(), phantom1: PhantomData, phantom2: PhantomData }
    }

    pub fn with_capacity(capacity: usize) -> (flow: Self)
        ensures
            flow.node_count() == 0,
            flow.wf(),
    {
        Self { nodes: Vec::with_capacity(capacity), phantom1: PhantomData, phantom2: PhantomData }
    }

    /// Append a node; the returned identifier is stable for the node's
    /// lifetime. The new node starts out fully disconnected.
    pub fn add_node(&mut self, node: N) -> (node_id: NodeId)
        requires
            old(self).wf(),
        ensures
            final(self).wf(),
            node_id@ == old(self).node_count(),
            final(self).node_count() == old(self).node_count() + 1,
            forall|i: int|
                0 <= i < old(self).node_count() ==> #[trigger] final(self).node_at(i) == old(self).node_at(i),
            forall|i: int|
                0 <= i < old(self).node_count() ==> #[trigger] final(self).inputs_of(i) == old(self).inputs_of(i),
            forall|i: int|
                0 <= i < old(self).node_count() ==> #[trigger] final(self).outputs_of(i) == old(self).outputs_of(i),
            final(self).node_at(node_id@) == node,
            final(self).inputs_of(node_id@) == Map::<int, Socket>::empty(),
            final(self).outputs_of(node_id@) == Map::<int, Socket>::empty(),
    {
        let new_node = FlowNode {
            node,
            connected_inputs: PortMap::new(),
            connected_outputs: PortMap::new(),
        };
        self.nodes.push(new_node);
        proof {
            let pre = *old(self);
            let n = pre.node_count() as int;
            assert forall|i: int, p: int|
                0 <= i < n + 1 && #[trigger] self.inputs_of(i).contains_key(p) implies {
                let s = self.inputs_of(i)[p];
                &&& 0 <= p
                &&& 0 <= s.node_id@ < n + 1
                &&& s.node_id@ != i
                &&& self.outputs_of(s.node_id@).contains_key(s.port_index@)
                &&& self.outputs_of(s.node_id@)[s.port_index@].addresses(i, p)
            } by {
                assert(i < n);
                assert(pre.inputs_of(i).contains_key(p));
                let s = pre.inputs_of(i)[p];
                assert(0 <= s.node_id@ < n);
                assert(self.outputs_of(s.node_id@) == pre.outputs_of(s.node_id@));
            }
            assert forall|i: int, p: int|
                0 <= i < n + 1 && #[trigger] self.outputs_of(i).contains_key(p) implies {
                let s = self.outputs_of(i)[p];
                &&& 0 <= p
                &&& 0 <= s.node_id@ < n + 1
                &&& s.node_id@ != i
                &&& self.inputs_of(s.node_id@).contains_key(s.port_index@)
                &&& self.inputs_of(s.node_id@)[s.port_index@].addresses(i, p)
            } by {
                assert(i < n);
                assert(pre.outputs_of(i).contains_key(p));
                let s = pre.outputs_of(i)[p];
                assert(0 <= s.node_id@ < n);
                assert(self.inputs_of(s.node_id@) == pre.inputs_of(s.node_id@));
            }
            assert(self.wf());
        }
        NodeId::new(self.nodes.len() - 1)
    }

    /// Read access to the node addressed by `node_id`.
    pub fn node(&self, node_id: NodeId) -> (node: &N)
        requires
            node_id@ < self.node_count(),
        ensures
            *node == self.node_at(node_id@),
    {
        &self.nodes[node_id.0].node
    }

    /// Exclusive access to the node addressed by `node_id`, e.g. to
    /// inject a source value or update a live parameter between ticks.
    /// Connections and all other nodes are left untouched.
    pub fn node_mut(&mut self, node_id: NodeId) -> (node: &mut N)
        requires
            node_id@ < old(self).node_count(),
        ensures
            *node == old(self).node_at(node_id@),
            final(self).node_count() == old(self).node_count(),
            final(self).node_at(node_id@) == *final(node),
            forall|i: int|
                0 <= i < old(self).node_count() && i != node_id@
                    ==> #[trigger] final(self).node_at(i) == old(self).node_at(i),
            old(self).same_topology(*final(self)),
            old(self).connections_unchanged(*final(self)),
    {
        &mut self.nodes[node_id.0].node
    }

    /// Remove a connection from an output socket
    ///
    /// Returns the input socket of the subsequent node at the opposite
    /// end of the connection, or nothing if the port was unconnected.
    ///
    /// State or values of disconnected ports on both ends of a removed
    /// connection are not modified.
    pub fn disconnect_output(&mut self, output: Socket) -> (input: Option<Socket>)
        requires
            old(self).wf(),
            output.node_id@ < old(self).node_count(),
        ensures
            final(self).wf(),
            final(self).node_count() == old(self).node_count(),
            forall|i: int|
                0 <= i < old(self).node_count() ==> #[trigger] final(self).node_at(i) == old(self).node_at(i),
            input == old(self).output_binding(output.node_id@, output.port_index@),
            match input {
                Some(s) => {
                    &&& final(self).outputs_of(output.node_id@) == old(self).outputs_of(
                        output.node_id@,
                    ).remove(output.port_index@)
                    &&& final(self).inputs_of(s.node_id@) == old(self).inputs_of(
                        s.node_id@,
                    ).remove(s.port_index@)
                    &&& forall|i: int|
                        0 <= i < old(self).node_count() && i != output.node_id@
                            ==> #[trigger] final(self).outputs_of(i) == old(self).outputs_of(i)
                    &&& forall|i: int|
                        0 <= i < old(self).node_count() && i != s.node_id@
                            ==> #[trigger] final(self).inputs_of(i) == old(self).inputs_of(i)
                }
                None => {
                    &&& forall|i: int|
                        0 <= i < old(self).node_count()
                            ==> #[trigger] final(self).outputs_of(i) == old(self).outputs_of(i)
                    &&& forall|i: int|
                        0 <= i < old(self).node_count()
                            ==> #[trigger] final(self).inputs_of(i) == old(self).inputs_of(i)
                },
            },
    {
        let node_id = output.node_id;
        let port_index = output.port_index;
        let connected_input = self.nodes[node_id.0].connected_outputs.remove(port_index);
        if let Some(input_socket) = connected_input {
            proof {
                // the old invariant locates the matching record at the
                // opposite end and keeps the index into `nodes` in range
                assert(old(self).outputs_of(node_id@).contains_key(port_index@));
                assert(0 <= input_socket.node_id@ < old(self).node_count());
            }
            let _connected_output = self.nodes[input_socket.node_id.0].connected_inputs.remove(
                input_socket.port_index,
            );
            proof {
                self.lemma_disconnect_pair_wf(*old(self), output, input_socket);
            }
        } else {
            proof {
                self.lemma_wf_same_maps(*old(self));
            }
        }
        connected_input
    }

    /// Remove a connection from an input socket
    ///
    /// Returns the output socket of the preceding node at the opposite
    /// end of the connection, or nothing if the port was unconnected.
    ///
    /// State or values of disconnected ports on both ends of a removed
    /// connection are not modified.
    pub fn disconnect_input(&mut self, input: Socket) -> (output: Option<Socket>)
        requires
            old(self).wf(),
            input.node_id@ < old(self).node_count(),
        ensures
            final(self).wf(),
            final(self).node_count() == old(self).node_count(),
            forall|i: int|
                0 <= i < old(self).node_count() ==> #[trigger] final(self).node_at(i) == old(self).node_at(i),
            output == old(self).input_binding(input.node_id@, input.port_index@),
            match output {
                Some(s) => {
                    &&& final(self).inputs_of(input.node_id@) == old(self).inputs_of(
                        input.node_id@,
                    ).remove(input.port_index@)
                    &&& final(self).outputs_of(s.node_id@) == old(self).outputs_of(
                        s.node_id@,
                    ).remove(s.port_index@)
                    &&& forall|i: int|
                        0 <= i < old(self).node_count() && i != input.node_id@
                            ==> #[trigger] final(self).inputs_of(i) == old(self).inputs_of(i)
                    &&& forall|i: int|
                        0 <= i < old(self).node_count() && i != s.node_id@
                            ==> #[trigger] final(self).outputs_of(i) == old(self).outputs_of(i)
                }
                None => {
                    &&& forall|i: int|
                        0 <= i < old(self).node_count()
                            ==> #[trigger] final(self).outputs_of(i) == old(self).outputs_of(i)
                    &&& forall|i: int|
                        0 <= i < old(self).node_count()
                            ==> #[trigger] final(self).inputs_of(i) == old(self).inputs_of(i)
                },
            },
    {
        let node_id = input.node_id;
        let port_index = input.port_index;
        let connected_output = self.nodes[node_id.0].connected_inputs.remove(port_index);
        if let Some(output_socket) = connected_output {
            proof {
                assert(old(self).inputs_of(node_id@).contains_key(port_index@));
                assert(0 <= output_socket.node_id@ < old(self).node_count());
            }
            let _connected_input = self.nodes[output_socket.node_id.0].connected_outputs.remove(
                output_socket.port_index,
            );
            proof {
                self.lemma_disconnect_pair_wf_rev(*old(self), input, output_socket);
            }
        } else {
            proof {
                self.lemma_wf_same_maps(*old(self));
            }
        }
        connected_output
    }

    /// Disconnect both named endpoints, then connect them to each other.
    ///
    /// Any connection previously recorded at the named output port and
    /// any connection previously recorded at the named input port are
    /// removed (together with their records at the respective opposite
    /// ends) before the new connection is established.
    pub fn reconnect(&mut self, output: Socket, input: Socket)
        requires
            old(self).wf(),
            output.node_id@ < old(self).node_count(),
            input.node_id@ < old(self).node_count(),
            output.node_id@ != input.node_id@,
        ensures
            final(self).wf(),
            final(self).node_count() == old(self).node_count(),
            forall|i: int|
                0 <= i < old(self).node_count() ==> #[trigger] final(self).node_at(i) == old(self).node_at(i),
            forall|i: int, p: int|
                0 <= i < old(self).node_count() ==> #[trigger] final(self).input_binding(i, p) == (
                if i == input.node_id@ && p == input.port_index@ {
                    Some(output)
                } else {
                    match old(self).output_binding(output.node_id@, output.port_index@) {
                        Some(x) => if x.addresses(i, p) {
                            None
                        } else {
                            old(self).input_binding(i, p)
                        },
                        None => old(self).input_binding(i, p),
                    }
                }),
            forall|i: int, p: int|
                0 <= i < old(self).node_count() ==> #[trigger] final(self).output_binding(i, p) == (
                if i == output.node_id@ && p == output.port_index@ {
                    Some(input)
                } else {
                    match old(self).input_binding(input.node_id@, input.port_index@) {
                        Some(y) => if y.addresses(i, p) {
                            None
                        } else {
                            old(self).output_binding(i, p)
                        },
                        None => old(self).output_binding(i, p),
                    }
                }),
    {
        let ghost pre = *old(self);
        let disconnected_input = self.disconnect_output(output);
        let ghost mid1 = *self;
        let disconnected_output = self.disconnect_input(input);
        let ghost mid2 = *self;
        proof {
            assert(!mid2.outputs_of(output.node_id@).contains_key(output.port_index@));
            assert(!mid2.inputs_of(input.node_id@).contains_key(input.port_index@));
        }
        self.connect(output, input);
    }

    /// Establish a connection between an output port of a preceding
    /// node and an input port of a subsequent node.
    ///
    /// Connections are only permitted between distinct nodes: a
    /// reflexive connection (identical node on both ends) is a contract
    /// violation. Both named ports must currently be unconnected, so
    /// that the duplicated connection index stays consistent; use
    /// `reconnect` to move an existing connection.
    ///
    /// Connecting does not itself forbid a cycle; acyclicity is
    /// validated on demand via `topological_nodes`.
    pub fn connect(&mut self, output: Socket, input: Socket)
        requires
            old(self).wf(),
            output.node_id@ < old(self).node_count(),
            input.node_id@ < old(self).node_count(),
            output.node_id@ != input.node_id@,
            !old(self).outputs_of(output.node_id@).contains_key(output.port_index@),
            !old(self).inputs_of(input.node_id@).contains_key(input.port_index@),
        ensures
            final(self).wf(),
            final(self).node_count() == old(self).node_count(),
            forall|i: int|
                0 <= i < old(self).node_count() ==> #[trigger] final(self).node_at(i) == old(self).node_at(i),
            final(self).outputs_of(output.node_id@) == old(self).outputs_of(
                output.node_id@,
            ).insert(output.port_index@, input),
            final(self).inputs_of(input.node_id@) == old(self).inputs_of(input.node_id@).insert(
                input.port_index@,
                output,
            ),
            forall|i: int|
                0 <= i < old(self).node_count() && i != output.node_id@
                    ==> #[trigger] final(self).outputs_of(i) == old(self).outputs_of(i),
            forall|i: int|
                0 <= i < old(self).node_count() && i != input.node_id@
                    ==> #[trigger] final(self).inputs_of(i) == old(self).inputs_of(i),
    {
        // Connect output port
        let output_index = output.port_index;
        self.nodes[output.node_id.0].connected_outputs.insert(output_index, input);
        // Connect input port
        let input_index = input.port_index;
        self.nodes[input.node_id.0].connected_inputs.insert(input_index, output);
        proof {
            let pre = *old(self);
            let n = pre.node_count() as int;
            let o = output.node_id@;
            let op = output.port_index@;
            let b = input.node_id@;
            let ip = input.port_index@;
            assert forall|i: int, p: int|
                0 <= i < n && #[trigger] self.inputs_of(i).contains_key(p) implies {
                let s = self.inputs_of(i)[p];
                &&& 0 <= p
                &&& 0 <= s.node_id@ < n
                &&& s.node_id@ != i
                &&& self.outputs_of(s.node_id@).contains_key(s.port_index@)
                &&& self.outputs_of(s.node_id@)[s.port_index@].addresses(i, p)
            } by {
                if i == b && p == ip {
                    assert(self.inputs_of(i)[p] == output);
                    assert(self.outputs_of(o).contains_key(op));
                    assert(self.outputs_of(o)[op] == input);
                } else {
                    assert(pre.inputs_of(i).contains_key(p));
                    let s = pre.inputs_of(i)[p];
                    assert(0 <= s.node_id@ < n);
                    assert(pre.outputs_of(s.node_id@).contains_key(s.port_index@));
                    assert(pre.outputs_of(s.node_id@)[s.port_index@].addresses(i, p));
                    if s.node_id@ == o {
                        assert(s.port_index@ != op);
                        assert(self.outputs_of(o)[s.port_index@] == pre.outputs_of(o)[s.port_index@]);
                    }
                }
            }
            assert forall|i: int, p: int|
                0 <= i < n && #[trigger] self.outputs_of(i).contains_key(p) implies {
                let s = self.outputs_of(i)[p];
                &&& 0 <= p
                &&& 0 <= s.node_id@ < n
                &&& s.node_id@ != i
                &&& self.inputs_of(s.node_id@).contains_key(s.port_index@)
                &&& self.inputs_of(s.node_id@)[s.port_index@].addresses(i, p)
            } by {
                if i == o && p == op {
                    assert(self.outputs_of(i)[p] == input);
                    assert(self.inputs_of(b).contains_key(ip));
                    assert(self.inputs_of(b)[ip] == output);
                } else {
                    assert(pre.outputs_of(i).contains_key(p));
                    let s = pre.outputs_of(i)[p];
                    assert(0 <= s.node_id@ < n);
                    assert(pre.inputs_of(s.node_id@).contains_key(s.port_index@));
                    assert(pre.inputs_of(s.node_id@)[s.port_index@].addresses(i, p));
                    if s.node_id@ == b {
                        assert(s.port_index@ != ip);
                        assert(self.inputs_of(b)[s.port_index@] == pre.inputs_of(b)[s.port_index@]);
                    }
                }
            }
            assert(self.wf());
        }
    }

    /// The position of the element of `order` that identifies node `v`.
    pub open spec fn position_of(order: Seq<NodeId>, v: int) -> int {
        choose|j: int| 0 <= j < order.len() && (#[trigger] order[j])@ == v
    }

    /// Along a walk of the flow's connections, positions in an order
    /// that respects every connection increase strictly.
    proof fn lemma_walk_positions(self, order: Seq<NodeId>, path: Seq<int>, i: int)
        requires
            self.wf(),
            forall|v: int| 0 <= v < self.node_count() ==> #[trigger] contains_node(order, v),
            forall|j: int, k: int|
                0 <= j < order.len() && 0 <= k < order.len() && #[trigger] self.edge(
                    order[j]@,
                    order[k]@,
                ) ==> j < k,
            is_walk(self.edge_fn(), path),
            path.len() >= 2,
            0 <= i < path.len(),
        ensures
            0 <= path[i] < self.node_count(),
            0 <= Self::position_of(order, path[i]) < order.len(),
            order[Self::position_of(order, path[i])]@ == path[i],
            Self::position_of(order, path[0]) + i <= Self::position_of(order, path[i]),
        decreases i,
    {
        let n = self.node_count() as int;
        if i < path.len() - 1 {
            assert(self.edge_fn()(path[i], path[i + 1]));
            assert(self.edge(path[i], path[i + 1]));
        }
        if i == 0 {
            assert(self.edge(path[0], path[1]));
            let p = choose|p: int|
                #[trigger] self.inputs_of(path[1]).contains_key(p) && self.inputs_of(
                    path[1],
                )[p].node_id@ == path[0];
            assert(0 <= path[0] < n);
            assert(contains_node(order, path[0]));
        } else {
            self.lemma_walk_positions(order, path, i - 1);
            let h = i - 1;
            assert(self.edge_fn()(path[h], path[h + 1]));
            assert(h + 1 == i);
            assert(self.edge(path[i - 1], path[i]));
            assert(0 <= path[i] < n);
            assert(contains_node(order, path[i]));
            let ja = Self::position_of(order, path[i - 1]);
            let jb = Self::position_of(order, path[i]);
            assert(self.edge(order[ja]@, order[jb]@));
            assert(ja < jb);
        }
    }

    /// A sequence that orders every node after all of its predecessors
    /// certifies that the flow has no cycle at all: together with the
    /// contract of `topological_nodes`, an ordering exists exactly when
    /// the connection set is acyclic.
    pub proof fn lemma_order_excludes_cycles(self, order: Seq<NodeId>)
        requires
            self.wf(),
            forall|v: int| 0 <= v < self.node_count() ==> #[trigger] contains_node(order, v),
            forall|j: int, k: int|
                0 <= j < order.len() && 0 <= k < order.len() && #[trigger] self.edge(
                    order[j]@,
                    order[k]@,
                ) ==> j < k,
        ensures
            forall|v: int| !self.cycle_through(v),
    {
        assert forall|v: int| !self.cycle_through(v) by {
            if self.cycle_through(v) {
                let path = choose|path: Seq<int>|
                    #![trigger is_walk(self.edge_fn(), path)]
                    path.len() >= 2 && path.first() == v && path.last() == v && is_walk(
                        self.edge_fn(),
                        path,
                    );
                let last = path.len() - 1;
                self.lemma_walk_positions(order, path, last);
                assert(Self::position_of(order, path[0]) + last <= Self::position_of(
                    order,
                    path[last],
                ));
                assert(path[0] == path[last]);
                assert(false);
            }
        }
    }

    /// Every connected input of node `i` addresses a real input port,
    /// the output socket at the opposite end addresses a real output
    /// port of its node, and the control slot there is vacant, so that
    /// a backward half-pass at `i` can deliver all its control packets.
    pub open spec fn backward_ready(self, i: int) -> bool {
        forall|p: int| #[trigger] self.inputs_of(i).contains_key(p) ==> {
            let s = self.inputs_of(i)[p];
            &&& p < self.node_at(i).inputs_view().len()
            &&& s.port_index@ < self.node_at(s.node_id@).outputs_view().len()
            &&& self.node_at(s.node_id@).outputs_view()[s.port_index@].incoming is None
        }
    }

    /// The facts the data-model invariant yields for one record `entry`
    /// of the input connection map of node `i`: the record is a map
    /// entry, the far end is a real distinct node, and the matching
    /// record there points back.
    spec fn input_entry_fact(self, i: int, entry: (PortIndex, Socket)) -> bool {
        let s = entry.1;
        &&& self.inputs_of(i).contains_key(entry.0@)
        &&& self.inputs_of(i)[entry.0@] == s
        &&& 0 <= s.node_id@ < self.node_count()
        &&& s.node_id@ != i
        &&& self.outputs_of(s.node_id@).contains_key(s.port_index@)
        &&& self.outputs_of(s.node_id@)[s.port_index@].addresses(i, entry.0@)
    }

    /// The exact outcome of the backward relay at one connected input
    /// port `p` of node `i` with far end `s`, relative to the state
    /// `mid` that the node's callback left behind: a pending control is
    /// moved — the input port is drained completely and the far output
    /// port receives the control together with the input port's pending
    /// data as piggyback — while a port without pending control moves
    /// nothing at either end. (Dispatch may legitimately produce
    /// nothing: not every port carries a pending message every tick.)
    pub open spec fn backward_port_effect(
        pre: Self,
        mid: N,
        post: Self,
        i: int,
        p: int,
        s: Socket,
    ) -> bool {
        match mid.inputs_view()[p].outgoing {
            Some(c) => {
                &&& post.node_at(i).inputs_view()[p] == (Port::<P, S> {
                    incoming: None,
                    outgoing: None,
                })
                &&& post.node_at(s.node_id@).outputs_view()[s.port_index@] == (Port::<S, P> {
                    incoming: Some(c),
                    outgoing: mid.inputs_view()[p].incoming,
                })
            }
            None => {
                &&& post.node_at(i).inputs_view()[p] == mid.inputs_view()[p]
                &&& post.node_at(s.node_id@).outputs_view()[s.port_index@] == pre.node_at(
                    s.node_id@,
                ).outputs_view()[s.port_index@]
            }
        }
    }

    /// The exact effect of one backward half-pass at node `i`: an
    /// intermediate node state `mid` — what the node's callback left
    /// behind, lying within the callback's contractual footprint — was
    /// relayed in full. Every connected input port moved its pending
    /// control per `backward_port_effect`, and every other port of the
    /// node shows `mid` unchanged, so a pass that skipped the relay (or
    /// left a pending control sitting in a connected input port) does
    /// not satisfy this predicate for any `mid`.
    pub open spec fn backward_pass_effect(pre: Self, mid: N, post: Self, i: int) -> bool {
        &&& crate::node::backward_callback_frame::<S, P, N>(pre.node_at(i), mid)
        &&& post.node_at(i).outputs_view() == mid.outputs_view()
        &&& forall|p: int|
            0 <= p < mid.inputs_view().len() && !pre.inputs_of(i).contains_key(p)
                ==> (#[trigger] post.node_at(i).inputs_view()[p]) == mid.inputs_view()[p]
        &&& forall|p: int|
            #[trigger] pre.inputs_of(i).contains_key(p) ==> Self::backward_port_effect(
                pre,
                mid,
                post,
                i,
                p,
                pre.inputs_of(i)[p],
            )
    }

    /// Execute backward pass for a single node
    ///
    /// Propagate the output states of a selected node to its inputs by
    /// invoking its `process_outputs` callback, and then relay every
    /// pending control packet along the input connections to the
    /// matching output ports of the preceding nodes: each pending
    /// control is dispatched (draining the input port) and accepted at
    /// the far end, payload and piggyback intact.
    ///
    /// The two endpoints of each relayed packet are distinct nodes
    /// (reflexive connections are rejected at `connect` time), and two
    /// packets relayed by one half-pass never address the same port, so
    /// every delivery lands in a vacant slot.
    pub fn process_outputs(&mut self, node_id: NodeId)
        requires
            old(self).wf(),
            node_id@ < old(self).node_count(),
            old(self).backward_ready(node_id@),
        ensures
            final(self).wf(),
            final(self).node_count() == old(self).node_count(),
            old(self).same_topology(*final(self)),
            old(self).connections_unchanged(*final(self)),
            // nodes that do not precede the selected node keep their state
            forall|k: int|
                0 <= k < old(self).node_count() && k != node_id@ && !old(self).edge(k, node_id@)
                    ==> #[trigger] final(self).node_at(k) == old(self).node_at(k),
            // no input port of any other node is touched
            forall|k: int|
                0 <= k < old(self).node_count() && k != node_id@
                    ==> #[trigger] final(self).node_at(k).inputs_view() == old(self).node_at(
                    k,
                ).inputs_view(),
            // the selected node keeps its port counts, its pending input
            // data on unconnected ports, and all its outgoing data
            final(self).node_at(node_id@).inputs_view().len() == old(self).node_at(
                node_id@,
            ).inputs_view().len(),
            final(self).node_at(node_id@).outputs_view().len() == old(self).node_at(
                node_id@,
            ).outputs_view().len(),
            forall|q: int|
                0 <= q < old(self).node_at(node_id@).outputs_view().len()
                    ==> (#[trigger] final(self).node_at(node_id@).outputs_view()[q]).outgoing
                        == old(self).node_at(node_id@).outputs_view()[q].outgoing,
            forall|p: int|
                0 <= p < old(self).node_at(node_id@).inputs_view().len() && !old(self).inputs_of(
                    node_id@,
                ).contains_key(p)
                    ==> (#[trigger] final(self).node_at(node_id@).inputs_view()[p]).incoming
                        == old(self).node_at(node_id@).inputs_view()[p].incoming,
            // preceding nodes keep their output port counts, and every
            // output port that is not the target of one of the relayed
            // packets keeps its state
            forall|k: int|
                0 <= k < old(self).node_count() && k != node_id@
                    ==> #[trigger] final(self).node_at(k).outputs_view().len() == old(
                    self,
                ).node_at(k).outputs_view().len(),
            forall|k: int, q: int|
                0 <= k < old(self).node_count() && k != node_id@ && 0 <= q < old(self).node_at(
                    k,
                ).outputs_view().len() && !(exists|p: int|
                    #[trigger] old(self).inputs_of(node_id@).contains_key(p) && old(
                        self,
                    ).inputs_of(node_id@)[p].addresses(k, q)) ==> (#[trigger] final(self).node_at(
                    k,
                ).outputs_view()[q]) == old(self).node_at(k).outputs_view()[q],
            // the callback ran within its contractual footprint and the
            // pass relayed every pending control of its result exactly
            exists|mid: N| #[trigger] Self::backward_pass_effect(
                *old(self),
                mid,
                *final(self),
                node_id@,
            ),
    {
        let ghost pre = *old(self);
        let ghost nid = node_id@;
        let ghost entries = old(self).nodes@[node_id@].connected_inputs.entries_seq();
        let idx = node_id.0;
        self.nodes[idx].node.process_outputs(AccessToken::new());
        let ghost mid = self.nodes@[nid].node;
        proof {
            assert(crate::node::backward_callback_frame::<S, P, N>(pre.node_at(nid), mid));
            assert forall|t: int|
                0 <= t < entries.len() implies pre.input_entry_fact(
                nid,
                #[trigger] entries[t],
            ) by {
                pre.nodes@[nid].connected_inputs.lemma_entry_in_map(t);
            }
        }
        let num_entries = self.nodes[idx].connected_inputs.len();
        let mut e: usize = 0;
        while e < num_entries
            invariant
                pre == *old(self),
                pre.wf(),
                nid == node_id@,
                idx == node_id.0,
                0 <= nid < pre.node_count(),
                pre.backward_ready(nid),
                entries == pre.nodes@[nid].connected_inputs.entries_seq(),
                num_entries == entries.len(),
                e <= num_entries,
                forall|t: int|
                    0 <= t < entries.len() ==> pre.input_entry_fact(nid, #[trigger] entries[t]),
                self.node_count() == pre.node_count(),
                pre.connections_unchanged(*self),
                crate::node::backward_callback_frame::<S, P, N>(pre.node_at(nid), mid),
                self.node_at(nid).outputs_view() == mid.outputs_view(),
                forall|p: int|
                    0 <= p < mid.inputs_view().len() && !pre.inputs_of(nid).contains_key(p)
                        ==> (#[trigger] self.node_at(nid).inputs_view()[p])
                            == mid.inputs_view()[p],
                forall|t: int|
                    e <= t < entries.len()
                        ==> (#[trigger] self.node_at(nid).inputs_view()[entries[t].0@])
                            == mid.inputs_view()[entries[t].0@],
                self.node_at(nid).inputs_view().len() == pre.node_at(nid).inputs_view().len(),
                forall|k: int|
                    0 <= k < pre.node_count() && k != nid && !pre.edge(k, nid)
                        ==> #[trigger] self.node_at(k) == pre.node_at(k),
                forall|k: int|
                    0 <= k < pre.node_count() && k != nid ==> #[trigger] self.node_at(
                        k,
                    ).inputs_view() == pre.node_at(k).inputs_view(),
                forall|k: int|
                    0 <= k < pre.node_count() && k != nid ==> #[trigger] self.node_at(
                        k,
                    ).outputs_view().len() == pre.node_at(k).outputs_view().len(),
                forall|k: int, q: int|
                    0 <= k < pre.node_count() && k != nid && 0 <= q < pre.node_at(
                        k,
                    ).outputs_view().len() && !(exists|t: int|
                        0 <= t < e && (#[trigger] entries[t]).1.addresses(k, q)) ==> (
                    #[trigger] self.node_at(k).outputs_view()[q]) == pre.node_at(
                        k,
                    ).outputs_view()[q],
                forall|t: int|
                    e <= t < entries.len() ==> (#[trigger] self.node_at(
                        entries[t].1.node_id@,
                    ).outputs_view()[entries[t].1.port_index@]).incoming is None,
                forall|t: int|
                    0 <= t < e ==> Self::backward_port_effect(
                        pre,
                        mid,
                        *self,
                        nid,
                        (#[trigger] entries[t]).0@,
                        entries[t].1,
                    ),
            decreases num_entries - e,
        {
            let ghost before_iter = *self;
            let entry = self.nodes[idx].connected_inputs.entry_at(e);
            let input_index = entry.0;
            let source = entry.1;
            let ghost tgt = source.node_id@;
            let ghost tport = source.port_index@;
            proof {
                assert(entry == entries[e as int]);
                assert(pre.input_entry_fact(nid, entries[e as int]));
                assert(source.node_id@ != nid);
                assert(pre.inputs_of(nid).contains_key(input_index@));
                assert(input_index@ < self.node_at(nid).inputs_view().len());
                assert(self.node_at(nid).inputs_view()[input_index@]
                    == mid.inputs_view()[input_index@]);
                // distinct relay targets: another entry addressing the
                // same output port would force two records of the input
                // map to share a key
                assert forall|t: int|
                    0 <= t < entries.len() && t != e && (#[trigger] entries[t]).1.addresses(
                        tgt,
                        tport,
                    ) implies false by {
                    assert(pre.input_entry_fact(nid, entries[t]));
                    assert(pre.outputs_of(tgt)[tport].addresses(nid, entries[t].0@));
                    assert(pre.outputs_of(tgt)[tport].addresses(nid, entries[e as int].0@));
                    assert(entries[t].0@ == entries[e as int].0@);
                    assert(pre.nodes@[nid].connected_inputs.wf());
                }
                // distinct keys: no other entry addresses the same input port
                assert forall|t: int|
                    0 <= t < entries.len() && t != e implies (#[trigger] entries[t]).0@
                    != entries[e as int].0@ by {
                    assert(pre.nodes@[nid].connected_inputs.wf());
                }
            }
            let packet = self.nodes[idx].node.try_dispatch_input_packet(
                AccessToken::new(),
                input_index,
            );
            proof {
                assert forall|k: int|
                    0 <= k < pre.node_count() && k != nid implies #[trigger] self.node_at(k)
                    == before_iter.node_at(k) by {}
            }
            if let Some(packet) = packet {
                proof {
                    assert(mid.inputs_view()[input_index@].outgoing == Some(packet.payload));
                    assert(packet.piggyback == mid.inputs_view()[input_index@].incoming);
                    assert(0 <= tgt < self.node_count());
                    assert(self.node_at(tgt) == before_iter.node_at(tgt));
                    assert(tport < self.node_at(tgt).outputs_view().len());
                    assert(self.node_at(tgt).outputs_view()[tport].incoming is None);
                }
                let target = source.node_id.0;
                self.nodes[target].node.accept_output_packet(
                    AccessToken::new(),
                    source.port_index,
                    packet,
                );
                proof {
                    assert(pre.edge(tgt, nid));
                    assert forall|k: int|
                        0 <= k < pre.node_count() && k != nid && k != tgt implies #[trigger] self.node_at(
                        k,
                    ) == before_iter.node_at(k) by {}
                    assert(self.node_at(tgt).inputs_view() == before_iter.node_at(
                        tgt,
                    ).inputs_view());
                    assert(self.node_at(tgt).outputs_view() == before_iter.node_at(
                        tgt,
                    ).outputs_view().update(
                        tport,
                        (Port {
                            incoming: Some(packet.payload),
                            outgoing: packet.piggyback,
                        }),
                    ));
                    assert(self.node_at(nid).inputs_view() == before_iter.node_at(
                        nid,
                    ).inputs_view().update(
                        input_index@,
                        (Port::<P, S> { incoming: None, outgoing: None }),
                    ));
                    assert forall|t: int|
                        e + 1 <= t < entries.len() implies (#[trigger] self.node_at(
                        entries[t].1.node_id@,
                    ).outputs_view()[entries[t].1.port_index@]).incoming is None by {
                        let st = entries[t].1;
                        assert(pre.input_entry_fact(nid, entries[t]));
                        assert(before_iter.node_at(st.node_id@).outputs_view()[st.port_index@].incoming
                            is None);
                        if st.node_id@ == tgt {
                            assert(!st.addresses(tgt, tport));
                            assert(st.port_index@ != tport);
                        }
                    }
                    // ports other than the dispatched one keep the
                    // callback's state
                    assert forall|t: int|
                        e + 1 <= t < entries.len()
                            implies (#[trigger] self.node_at(nid).inputs_view()[entries[t].0@])
                            == mid.inputs_view()[entries[t].0@] by {
                        assert(entries[t].0@ != entries[e as int].0@);
                        assert(before_iter.node_at(nid).inputs_view()[entries[t].0@]
                            == mid.inputs_view()[entries[t].0@]);
                    }
                    assert forall|p: int|
                        0 <= p < mid.inputs_view().len() && !pre.inputs_of(nid).contains_key(p)
                        implies (#[trigger] self.node_at(nid).inputs_view()[p])
                        == mid.inputs_view()[p] by {
                        assert(p != input_index@);
                    }
                    assert forall|t: int|
                        0 <= t < e + 1 implies Self::backward_port_effect(
                        pre,
                        mid,
                        *self,
                        nid,
                        (#[trigger] entries[t]).0@,
                        entries[t].1,
                    ) by {
                        let pt = entries[t].0@;
                        let st = entries[t].1;
                        assert(pre.input_entry_fact(nid, entries[t]));
                        if t == e {
                            assert(self.node_at(nid).inputs_view()[pt] == (Port::<P, S> {
                                incoming: None,
                                outgoing: None,
                            }));
                            assert(self.node_at(tgt).outputs_view()[tport] == (Port::<S, P> {
                                incoming: Some(packet.payload),
                                outgoing: packet.piggyback,
                            }));
                        } else {
                            assert(Self::backward_port_effect(pre, mid, before_iter, nid, pt, st));
                            assert(pt != entries[e as int].0@);
                            assert(self.node_at(nid).inputs_view()[pt] == before_iter.node_at(
                                nid,
                            ).inputs_view()[pt]);
                            if st.node_id@ == tgt {
                                assert(!st.addresses(tgt, tport));
                                assert(self.node_at(st.node_id@).outputs_view()[st.port_index@]
                                    == before_iter.node_at(st.node_id@).outputs_view()[st.port_index@]);
                            } else {
                                assert(self.node_at(st.node_id@) == before_iter.node_at(
                                    st.node_id@,
                                ));
                            }
                        }
                    }
                    assert forall|k: int, q: int|
                        0 <= k < pre.node_count() && k != nid && 0 <= q < pre.node_at(
                            k,
                        ).outputs_view().len() && !(exists|t: int|
                            0 <= t < e + 1 && (#[trigger] entries[t]).1.addresses(k, q)) implies (
                    #[trigger] self.node_at(k).outputs_view()[q]) == pre.node_at(
                        k,
                    ).outputs_view()[q] by {
                        assert(!(exists|t: int|
                            0 <= t < e && (#[trigger] entries[t]).1.addresses(k, q)));
                        assert(before_iter.node_at(k).outputs_view()[q] == pre.node_at(
                            k,
                        ).outputs_view()[q]);
                        if k == tgt {
                            assert(!entries[e as int].1.addresses(k, q));
                            assert(q != tport);
                        }
                    }
                }
            } else {
                proof {
                    assert(mid.inputs_view()[input_index@].outgoing is None);
                    assert forall|t: int|
                        0 <= t < e + 1 implies Self::backward_port_effect(
                        pre,
                        mid,
                        *self,
                        nid,
                        (#[trigger] entries[t]).0@,
                        entries[t].1,
                    ) by {
                        let pt = entries[t].0@;
                        let st = entries[t].1;
                        assert(pre.input_entry_fact(nid, entries[t]));
                        assert(self.node_at(st.node_id@) == before_iter.node_at(st.node_id@));
                        if t < e {
                            assert(Self::backward_port_effect(pre, mid, before_iter, nid, pt, st));
                        } else {
                            // no pending control: both ends stay untouched
                            assert(self.node_at(nid).inputs_view()[pt] == mid.inputs_view()[pt]);
                            assert(!(exists|t2: int|
                                0 <= t2 < e && (#[trigger] entries[t2]).1.addresses(tgt, tport)));
                            assert(before_iter.node_at(tgt).outputs_view()[tport] == pre.node_at(
                                tgt,
                            ).outputs_view()[tport]);
                        }
                    }
                }
            }
            e += 1;
        }
        proof {
            self.lemma_wf_same_maps(pre);
            assert forall|p: int| #[trigger]
                pre.inputs_of(nid).contains_key(p) implies Self::backward_port_effect(
                pre,
                mid,
                *self,
                nid,
                p,
                pre.inputs_of(nid)[p],
            ) by {
                let pm = pre.nodes@[nid].connected_inputs;
                assert(pm.has_key(p));
                let t = pm.key_index(p);
                pm.lemma_entry_in_map(t);
                assert(entries[t].0@ == p);
                assert(entries[t].1 == pre.inputs_of(nid)[p]);
            }
            assert(Self::backward_pass_effect(pre, mid, *self, nid));
            assert forall|q: int|
                0 <= q < pre.node_at(nid).outputs_view().len() implies (#[trigger] self.node_at(
                nid,
            ).outputs_view()[q]).outgoing == pre.node_at(nid).outputs_view()[q].outgoing by {
                assert(mid.outputs_view()[q].outgoing == pre.node_at(nid).outputs_view()[
                    q
                ].outgoing);
            }
            assert forall|p: int|
                0 <= p < pre.node_at(nid).inputs_view().len() && !pre.inputs_of(
                nid,
            ).contains_key(p) implies (#[trigger] self.node_at(nid).inputs_view()[p]).incoming
                == pre.node_at(nid).inputs_view()[p].incoming by {
                assert(self.node_at(nid).inputs_view()[p] == mid.inputs_view()[p]);
                assert(mid.inputs_view()[p].incoming == pre.node_at(nid).inputs_view()[
                    p
                ].incoming);
            }
        }
    }

    /// Every connected output of node `i` addresses a real output
    /// port, the input socket at the opposite end addresses a real
    /// input port of its node, and the data slot there is vacant, so
    /// that a forward half-pass at `i` can deliver all its data
    /// packets.
    pub open spec fn forward_ready(self, i: int) -> bool {
        forall|p: int| #[trigger] self.outputs_of(i).contains_key(p) ==> {
            let s = self.outputs_of(i)[p];
            &&& p < self.node_at(i).outputs_view().len()
            &&& s.port_index@ < self.node_at(s.node_id@).inputs_view().len()
            &&& self.node_at(s.node_id@).inputs_view()[s.port_index@].incoming is None
        }
    }

    /// The facts the data-model invariant yields for one record `entry`
    /// of the output connection map of node `i`.
    spec fn output_entry_fact(self, i: int, entry: (PortIndex, Socket)) -> bool {
        let s = entry.1;
        &&& self.outputs_of(i).contains_key(entry.0@)
        &&& self.outputs_of(i)[entry.0@] == s
        &&& 0 <= s.node_id@ < self.node_count()
        &&& s.node_id@ != i
        &&& self.inputs_of(s.node_id@).contains_key(s.port_index@)
        &&& self.inputs_of(s.node_id@)[s.port_index@].addresses(i, entry.0@)
    }

    /// The exact outcome of the forward relay at one connected output
    /// port `p` of node `i` with far end `s`, relative to the state
    /// `mid` that the node's callback left behind: a pending value is
    /// moved — the output port is drained completely and the far input
    /// port receives the value together with the output port's pending
    /// control as piggyback — while a port without pending value moves
    /// nothing at either end. (Dispatch may legitimately produce
    /// nothing: not every port carries a pending message every tick.)
    pub open spec fn forward_port_effect(
        pre: Self,
        mid: N,
        post: Self,
        i: int,
        p: int,
        s: Socket,
    ) -> bool {
        match mid.outputs_view()[p].outgoing {
            Some(v) => {
                &&& post.node_at(i).outputs_view()[p] == (Port::<S, P> {
                    incoming: None,
                    outgoing: None,
                })
                &&& post.node_at(s.node_id@).inputs_view()[s.port_index@] == (Port::<P, S> {
                    incoming: Some(v),
                    outgoing: mid.outputs_view()[p].incoming,
                })
            }
            None => {
                &&& post.node_at(i).outputs_view()[p] == mid.outputs_view()[p]
                &&& post.node_at(s.node_id@).inputs_view()[s.port_index@] == pre.node_at(
                    s.node_id@,
                ).inputs_view()[s.port_index@]
            }
        }
    }

    /// The exact effect of one forward half-pass at node `i`: an
    /// intermediate node state `mid` — what the node's callback left
    /// behind, lying within the callback's contractual footprint — was
    /// relayed in full. Every connected output port moved its pending
    /// value per `forward_port_effect`, and every other port of the
    /// node shows `mid` unchanged, so a pass that skipped the relay (or
    /// left a pending value sitting in a connected output port) does
    /// not satisfy this predicate for any `mid`.
    pub open spec fn forward_pass_effect(pre: Self, mid: N, post: Self, i: int) -> bool {
        &&& crate::node::forward_callback_frame::<S, P, N>(pre.node_at(i), mid)
        &&& post.node_at(i).inputs_view() == mid.inputs_view()
        &&& forall|p: int|
            0 <= p < mid.outputs_view().len() && !pre.outputs_of(i).contains_key(p)
                ==> (#[trigger] post.node_at(i).outputs_view()[p]) == mid.outputs_view()[p]
        &&& forall|p: int|
            #[trigger] pre.outputs_of(i).contains_key(p) ==> Self::forward_port_effect(
                pre,
                mid,
                post,
                i,
                p,
                pre.outputs_of(i)[p],
            )
    }

    /// Execute forward pass for a single node
    ///
    /// Update the output values of a selected node by invoking its
    /// `process_inputs` callback, and then relay every pending data
    /// packet along the output connections to the matching input ports
    /// of the subsequent nodes: each pending value is dispatched
    /// (draining the output port) and accepted at the far end, payload
    /// and piggyback intact.
    ///
    /// The two endpoints of each relayed packet are distinct nodes
    /// (reflexive connections are rejected at `connect` time), and two
    /// packets relayed by one half-pass never address the same port, so
    /// every delivery lands in a vacant slot.
    pub fn process_inputs(&mut self, node_id: NodeId)
        requires
            old(self).wf(),
            node_id@ < old(self).node_count(),
            old(self).forward_ready(node_id@),
        ensures
            final(self).wf(),
            final(self).node_count() == old(self).node_count(),
            old(self).same_topology(*final(self)),
            old(self).connections_unchanged(*final(self)),
            // nodes that do not follow the selected node keep their state
            forall|k: int|
                0 <= k < old(self).node_count() && k != node_id@ && !old(self).edge(node_id@, k)
                    ==> #[trigger] final(self).node_at(k) == old(self).node_at(k),
            // no output port of any other node is touched
            forall|k: int|
                0 <= k < old(self).node_count() && k != node_id@
                    ==> #[trigger] final(self).node_at(k).outputs_view() == old(self).node_at(
                    k,
                ).outputs_view(),
            // all port counts are preserved
            final(self).node_at(node_id@).inputs_view().len() == old(self).node_at(
                node_id@,
            ).inputs_view().len(),
            final(self).node_at(node_id@).outputs_view().len() == old(self).node_at(
                node_id@,
            ).outputs_view().len(),
            forall|k: int|
                0 <= k < old(self).node_count() && k != node_id@
                    ==> #[trigger] final(self).node_at(k).inputs_view().len() == old(
                    self,
                ).node_at(k).inputs_view().len(),
            // every input port that is not the target of one of the
            // relayed packets keeps its state
            forall|k: int, q: int|
                0 <= k < old(self).node_count() && k != node_id@ && 0 <= q < old(self).node_at(
                    k,
                ).inputs_view().len() && !(exists|p: int|
                    #[trigger] old(self).outputs_of(node_id@).contains_key(p) && old(
                        self,
                    ).outputs_of(node_id@)[p].addresses(k, q)) ==> (#[trigger] final(self).node_at(
                    k,
                ).inputs_view()[q]) == old(self).node_at(k).inputs_view()[q],
            // the callback ran within its contractual footprint and the
            // pass relayed every pending value of its result exactly
            exists|mid: N| #[trigger] Self::forward_pass_effect(
                *old(self),
                mid,
                *final(self),
                node_id@,
            ),
    {
        let ghost pre = *old(self);
        let ghost nid = node_id@;
        let ghost entries = old(self).nodes@[node_id@].connected_outputs.entries_seq();
        let idx = node_id.0;
        self.nodes[idx].node.process_inputs(AccessToken::new());
        let ghost mid = self.nodes@[nid].node;
        proof {
            assert(crate::node::forward_callback_frame::<S, P, N>(pre.node_at(nid), mid));
            assert forall|t: int|
                0 <= t < entries.len() implies pre.output_entry_fact(
                nid,
                #[trigger] entries[t],
            ) by {
                pre.nodes@[nid].connected_outputs.lemma_entry_in_map(t);
            }
        }
        let num_entries = self.nodes[idx].connected_outputs.len();
        let mut e: usize = 0;
        while e < num_entries
            invariant
                pre == *old(self),
                pre.wf(),
                nid == node_id@,
                idx == node_id.0,
                0 <= nid < pre.node_count(),
                pre.forward_ready(nid),
                entries == pre.nodes@[nid].connected_outputs.entries_seq(),
                num_entries == entries.len(),
                e <= num_entries,
                forall|t: int|
                    0 <= t < entries.len() ==> pre.output_entry_fact(nid, #[trigger] entries[t]),
                self.node_count() == pre.node_count(),
                pre.connections_unchanged(*self),
                crate::node::forward_callback_frame::<S, P, N>(pre.node_at(nid), mid),
                self.node_at(nid).inputs_view() == mid.inputs_view(),
                forall|p: int|
                    0 <= p < mid.outputs_view().len() && !pre.outputs_of(nid).contains_key(p)
                        ==> (#[trigger] self.node_at(nid).outputs_view()[p])
                            == mid.outputs_view()[p],
                forall|t: int|
                    e <= t < entries.len()
                        ==> (#[trigger] self.node_at(nid).outputs_view()[entries[t].0@])
                            == mid.outputs_view()[entries[t].0@],
                self.node_at(nid).outputs_view().len() == pre.node_at(nid).outputs_view().len(),
                forall|k: int|
                    0 <= k < pre.node_count() && k != nid && !pre.edge(nid, k)
                        ==> #[trigger] self.node_at(k) == pre.node_at(k),
                forall|k: int|
                    0 <= k < pre.node_count() && k != nid ==> #[trigger] self.node_at(
                        k,
                    ).outputs_view() == pre.node_at(k).outputs_view(),
                forall|k: int|
                    0 <= k < pre.node_count() && k != nid ==> #[trigger] self.node_at(
                        k,
                    ).inputs_view().len() == pre.node_at(k).inputs_view().len(),
                forall|k: int, q: int|
                    0 <= k < pre.node_count() && k != nid && 0 <= q < pre.node_at(
                        k,
                    ).inputs_view().len() && !(exists|t: int|
                        0 <= t < e && (#[trigger] entries[t]).1.addresses(k, q)) ==> (
                    #[trigger] self.node_at(k).inputs_view()[q]) == pre.node_at(
                        k,
                    ).inputs_view()[q],
                forall|t: int|
                    e <= t < entries.len() ==> (#[trigger] self.node_at(
                        entries[t].1.node_id@,
                    ).inputs_view()[entries[t].1.port_index@]).incoming is None,
                forall|t: int|
                    0 <= t < e ==> Self::forward_port_effect(
                        pre,
                        mid,
                        *self,
                        nid,
                        (#[trigger] entries[t]).0@,
                        entries[t].1,
                    ),
            decreases num_entries - e,
        {
            let ghost before_iter = *self;
            let entry = self.nodes[idx].connected_outputs.entry_at(e);
            let output_index = entry.0;
            let destination = entry.1;
            let ghost tgt = destination.node_id@;
            let ghost tport = destination.port_index@;
            proof {
                assert(entry == entries[e as int]);
                assert(pre.output_entry_fact(nid, entries[e as int]));
                assert(destination.node_id@ != nid);
                assert(pre.outputs_of(nid).contains_key(output_index@));
                assert(output_index@ < self.node_at(nid).outputs_view().len());
                assert(self.node_at(nid).outputs_view()[output_index@]
                    == mid.outputs_view()[output_index@]);
                // distinct relay targets: another entry addressing the
                // same input port would force two records of the output
                // map to share a key
                assert forall|t: int|
                    0 <= t < entries.len() && t != e && (#[trigger] entries[t]).1.addresses(
                        tgt,
                        tport,
                    ) implies false by {
                    assert(pre.output_entry_fact(nid, entries[t]));
                    assert(pre.inputs_of(tgt)[tport].addresses(nid, entries[t].0@));
                    assert(pre.inputs_of(tgt)[tport].addresses(nid, entries[e as int].0@));
                    assert(entries[t].0@ == entries[e as int].0@);
                    assert(pre.nodes@[nid].connected_outputs.wf());
                }
                // distinct keys: no other entry addresses the same output port
                assert forall|t: int|
                    0 <= t < entries.len() && t != e implies (#[trigger] entries[t]).0@
                    != entries[e as int].0@ by {
                    assert(pre.nodes@[nid].connected_outputs.wf());
                }
            }
            let packet = self.nodes[idx].node.try_dispatch_output_packet(
                AccessToken::new(),
                output_index,
            );
            proof {
                assert forall|k: int|
                    0 <= k < pre.node_count() && k != nid implies #[trigger] self.node_at(k)
                    == before_iter.node_at(k) by {}
            }
            if let Some(packet) = packet {
                proof {
                    assert(mid.outputs_view()[output_index@].outgoing == Some(packet.payload));
                    assert(packet.piggyback == mid.outputs_view()[output_index@].incoming);
                    assert(0 <= tgt < self.node_count());
                    assert(self.node_at(tgt) == before_iter.node_at(tgt));
                    assert(tport < self.node_at(tgt).inputs_view().len());
                    assert(self.node_at(tgt).inputs_view()[tport].incoming is None);
                }
                let target = destination.node_id.0;
                self.nodes[target].node.accept_input_packet(
                    AccessToken::new(),
                    destination.port_index,
                    packet,
                );
                proof {
                    assert(pre.edge(nid, tgt)) by {
                        assert(pre.inputs_of(tgt).contains_key(tport));
                        assert(pre.inputs_of(tgt)[tport].node_id@ == nid);
                    }
                    assert forall|k: int|
                        0 <= k < pre.node_count() && k != nid && k != tgt implies #[trigger] self.node_at(
                        k,
                    ) == before_iter.node_at(k) by {}
                    assert(self.node_at(tgt).outputs_view() == before_iter.node_at(
                        tgt,
                    ).outputs_view());
                    assert(self.node_at(tgt).inputs_view() == before_iter.node_at(
                        tgt,
                    ).inputs_view().update(
                        tport,
                        (Port {
                            incoming: Some(packet.payload),
                            outgoing: packet.piggyback,
                        }),
                    ));
                    assert(self.node_at(nid).outputs_view() == before_iter.node_at(
                        nid,
                    ).outputs_view().update(
                        output_index@,
                        (Port::<S, P> { incoming: None, outgoing: None }),
                    ));
                    assert forall|t: int|
                        e + 1 <= t < entries.len() implies (#[trigger] self.node_at(
                        entries[t].1.node_id@,
                    ).inputs_view()[entries[t].1.port_index@]).incoming is None by {
                        let st = entries[t].1;
                        assert(pre.output_entry_fact(nid, entries[t]));
                        assert(before_iter.node_at(st.node_id@).inputs_view()[st.port_index@].incoming
                            is None);
                        if st.node_id@ == tgt {
                            assert(!st.addresses(tgt, tport));
                            assert(st.port_index@ != tport);
                        }
                    }
                    // ports other than the dispatched one keep the
                    // callback's state
                    assert forall|t: int|
                        e + 1 <= t < entries.len()
                            implies (#[trigger] self.node_at(nid).outputs_view()[entries[t].0@])
                            == mid.outputs_view()[entries[t].0@] by {
                        assert(entries[t].0@ != entries[e as int].0@);
                        assert(before_iter.node_at(nid).outputs_view()[entries[t].0@]
                            == mid.outputs_view()[entries[t].0@]);
                    }
                    assert forall|p: int|
                        0 <= p < mid.outputs_view().len() && !pre.outputs_of(nid).contains_key(p)
                        implies (#[trigger] self.node_at(nid).outputs_view()[p])
                        == mid.outputs_view()[p] by {
                        assert(p != output_index@);
                    }
                    assert forall|t: int|
                        0 <= t < e + 1 implies Self::forward_port_effect(
                        pre,
                        mid,
                        *self,
                        nid,
                        (#[trigger] entries[t]).0@,
                        entries[t].1,
                    ) by {
                        let pt = entries[t].0@;
                        let st = entries[t].1;
                        assert(pre.output_entry_fact(nid, entries[t]));
                        if t == e {
                            assert(self.node_at(nid).outputs_view()[pt] == (Port::<S, P> {
                                incoming: None,
                                outgoing: None,
                            }));
                            assert(self.node_at(tgt).inputs_view()[tport] == (Port::<P, S> {
                                incoming: Some(packet.payload),
                                outgoing: packet.piggyback,
                            }));
                        } else {
                            assert(Self::forward_port_effect(pre, mid, before_iter, nid, pt, st));
                            assert(pt != entries[e as int].0@);
                            assert(self.node_at(nid).outputs_view()[pt] == before_iter.node_at(
                                nid,
                            ).outputs_view()[pt]);
                            if st.node_id@ == tgt {
                                assert(!st.addresses(tgt, tport));
                                assert(self.node_at(st.node_id@).inputs_view()[st.port_index@]
                                    == before_iter.node_at(st.node_id@).inputs_view()[st.port_index@]);
                            } else {
                                assert(self.node_at(st.node_id@) == before_iter.node_at(
                                    st.node_id@,
                                ));
                            }
                        }
                    }
                    assert forall|k: int, q: int|
                        0 <= k < pre.node_count() && k != nid && 0 <= q < pre.node_at(
                            k,
                        ).inputs_view().len() && !(exists|t: int|
                            0 <= t < e + 1 && (#[trigger] entries[t]).1.addresses(k, q)) implies (
                    #[trigger] self.node_at(k).inputs_view()[q]) == pre.node_at(
                        k,
                    ).inputs_view()[q] by {
                        assert(!(exists|t: int|
                            0 <= t < e && (#[trigger] entries[t]).1.addresses(k, q)));
                        assert(before_iter.node_at(k).inputs_view()[q] == pre.node_at(
                            k,
                        ).inputs_view()[q]);
                        if k == tgt {
                            assert(!entries[e as int].1.addresses(k, q));
                            assert(q != tport);
                        }
                    }
                }
            } else {
                proof {
                    assert(mid.outputs_view()[output_index@].outgoing is None);
                    assert forall|t: int|
                        0 <= t < e + 1 implies Self::forward_port_effect(
                        pre,
                        mid,
                        *self,
                        nid,
                        (#[trigger] entries[t]).0@,
                        entries[t].1,
                    ) by {
                        let pt = entries[t].0@;
                        let st = entries[t].1;
                        assert(pre.output_entry_fact(nid, entries[t]));
                        assert(self.node_at(st.node_id@) == before_iter.node_at(st.node_id@));
                        if t < e {
                            assert(Self::forward_port_effect(pre, mid, before_iter, nid, pt, st));
                        } else {
                            // no pending value: both ends stay untouched
                            assert(self.node_at(nid).outputs_view()[pt] == mid.outputs_view()[pt]);
                            assert(!(exists|t2: int|
                                0 <= t2 < e && (#[trigger] entries[t2]).1.addresses(tgt, tport)));
                            assert(before_iter.node_at(tgt).inputs_view()[tport] == pre.node_at(
                                tgt,
                            ).inputs_view()[tport]);
                        }
                    }
                }
            }
            e += 1;
        }
        proof {
            self.lemma_wf_same_maps(pre);
            assert forall|p: int| #[trigger]
                pre.outputs_of(nid).contains_key(p) implies Self::forward_port_effect(
                pre,
                mid,
                *self,
                nid,
                p,
                pre.outputs_of(nid)[p],
            ) by {
                let pm = pre.nodes@[nid].connected_outputs;
                assert(pm.has_key(p));
                let t = pm.key_index(p);
                pm.lemma_entry_in_map(t);
                assert(entries[t].0@ == p);
                assert(entries[t].1 == pre.outputs_of(nid)[p]);
            }
            assert(Self::forward_pass_effect(pre, mid, *self, nid));
        }
    }

    /// A backward half-pass relays completely: when it finishes, no
    /// connected input port of the processed node still holds a
    /// pending control. One backward sweep over all nodes in reverse
    /// topological order therefore propagates demand across every
    /// connection it meets, leaving nothing queued behind.
    pub proof fn lemma_backward_pass_drains_connected_inputs(
        pre: Self,
        post: Self,
        i: int,
        p: int,
    )
        requires
            exists|mid: N| #[trigger] Self::backward_pass_effect(pre, mid, post, i),
            pre.inputs_of(i).contains_key(p),
        ensures
            post.node_at(i).inputs_view()[p].outgoing is None,
    {
        let mid = choose|mid: N| #[trigger] Self::backward_pass_effect(pre, mid, post, i);
        assert(Self::backward_port_effect(pre, mid, post, i, p, pre.inputs_of(i)[p]));
    }

    /// A forward half-pass leaves no stale value behind: every output
    /// port of the processed node that carried no demand when the pass
    /// began ends with its value slot absent, whether or not the port
    /// is connected. Driving the forward half over all nodes hence
    /// completes a tick with every non-demanded port's slot empty.
    pub proof fn lemma_forward_pass_clears_undemanded(pre: Self, post: Self, i: int, q: int)
        requires
            exists|mid: N| #[trigger] Self::forward_pass_effect(pre, mid, post, i),
            0 <= q < pre.node_at(i).outputs_view().len(),
            pre.node_at(i).outputs_view()[q].incoming is None,
        ensures
            post.node_at(i).outputs_view()[q].outgoing is None,
    {
        let mid = choose|mid: N| #[trigger] Self::forward_pass_effect(pre, mid, post, i);
        assert(mid.outputs_view()[q].outgoing is None);
        if pre.outputs_of(i).contains_key(q) {
            assert(Self::forward_port_effect(pre, mid, post, i, q, pre.outputs_of(i)[q]));
        } else {
            assert(post.node_at(i).outputs_view()[q] == mid.outputs_view()[q]);
        }
    }

    /// Precompute a topological ordering of all nodes in the flow
    /// graph, or report a node that lies on a cycle.
    ///
    /// On success the returned identifiers are a permutation of all
    /// nodes in which every node comes after all of its predecessors;
    /// it can be traversed forward for the value-computation half of a
    /// tick and backward for the demand-propagation half. The order is
    /// meant to be reused across many ticks while the topology is
    /// stable; it is not invalidated automatically by topology edits.
    /// Among nodes that become ready simultaneously no tie-break is
    /// guaranteed: any order extending the connection partial order is
    /// possible.
    pub fn topological_nodes(&self) -> (result: Result<Vec<NodeId>, Cycle>)
        requires
            self.wf(),
        ensures
            match result {
                Ok(order) => {
                    &&& order@.len() == self.node_count()
                    &&& forall|j: int|
                        0 <= j < order@.len() ==> 0 <= (#[trigger] order@[j])@
                            < self.node_count()
                    &&& forall|j: int, k: int|
                        0 <= j < order@.len() && 0 <= k < order@.len() && j != k ==> (
                        #[trigger] order@[j])@ != (#[trigger] order@[k])@
                    &&& forall|v: int|
                        0 <= v < self.node_count() ==> #[trigger] contains_node(order@, v)
                    &&& forall|j: int, k: int|
                        0 <= j < order@.len() && 0 <= k < order@.len() && #[trigger] self.edge(
                            order@[j]@,
                            order@[k]@,
                        ) ==> j < k
                }
                Err(cycle) => 0 <= cycle@ < self.node_count() && self.cycle_through(cycle@),
            },
    {
        let n = self.nodes.len();

        // Collect, for every node, the distinct identifiers of the
        // nodes at the source end of its connected inputs, sorted for
        // the binary searches of the ordering pass.
        let mut preds: Vec<Vec<usize>> = Vec::new();
        let mut b: usize = 0;
        while b < n
            invariant
                self.wf(),
                n == self.node_count(),
                b <= n,
                preds@.len() == b,
                forall|i: int| 0 <= i < b ==> sorted_strict((#[trigger] preds@[i])@),
                forall|i: int, a: usize|
                    0 <= i < b ==> ((#[trigger] preds@[i]@.contains(a)) <==> self.edge(
                        a as int,
                        i,
                    )),
            decreases n - b,
        {
            let mut list: Vec<usize> = Vec::new();
            let num_entries = self.nodes[b].connected_inputs.len();
            let mut e: usize = 0;
            while e < num_entries
                invariant
                    self.wf(),
                    n == self.node_count(),
                    b < n,
                    num_entries == self.nodes@[b as int].connected_inputs.entries_seq().len(),
                    e <= num_entries,
                    sorted_strict(list@),
                    forall|a: usize|
                        #[trigger] list@.contains(a) <==> exists|t: int|
                            0 <= t < e && (#[trigger] self.nodes@[b as int].connected_inputs.entries_seq()[t]).1.node_id@ == a,
                decreases num_entries - e,
            {
                let entry = self.nodes[b].connected_inputs.entry_at(e);
                let ghost list_before = list@;
                insert_unique_sorted(&mut list, entry.1.node_id.0);
                proof {
                    assert forall|a: usize| #[trigger]
                        list@.contains(a) <==> exists|t: int|
                            0 <= t < e + 1 && (#[trigger] self.nodes@[b as int].connected_inputs.entries_seq()[t]).1.node_id@ == a by {
                        let entries = self.nodes@[b as int].connected_inputs.entries_seq();
                        if list@.contains(a) {
                            if list_before.contains(a) {
                                let t = choose|t: int|
                                    0 <= t < e && (#[trigger] entries[t]).1.node_id@ == a;
                                assert(0 <= t < e + 1 && entries[t].1.node_id@ == a);
                            } else {
                                assert(a == entry.1.node_id@);
                                assert(entries[e as int].1.node_id@ == a);
                            }
                        }
                        if exists|t: int|
                            0 <= t < e + 1 && (#[trigger] entries[t]).1.node_id@ == a {
                            let t = choose|t: int|
                                0 <= t < e + 1 && (#[trigger] entries[t]).1.node_id@ == a;
                            if t < e {
                                assert(list_before.contains(a));
                            } else {
                                assert(a == entry.1.node_id@);
                            }
                        }
                    }
                }
                e += 1;
            }
            proof {
                let pm = self.nodes@[b as int].connected_inputs;
                assert forall|a: usize| #[trigger]
                    list@.contains(a) <==> self.edge(a as int, b as int) by {
                    if list@.contains(a) {
                        let t = choose|t: int|
                            0 <= t < pm.entries_seq().len() && (
                            #[trigger] pm.entries_seq()[t]).1.node_id@ == a;
                        pm.lemma_entry_in_map(t);
                        assert(self.inputs_of(b as int).contains_key(pm.entries_seq()[t].0@));
                        assert(self.inputs_of(b as int)[pm.entries_seq()[t].0@].node_id@ == a);
                    }
                    if self.edge(a as int, b as int) {
                        let p = choose|p: int|
                            #[trigger] self.inputs_of(b as int).contains_key(p) && self.inputs_of(
                                b as int,
                            )[p].node_id@ == a;
                        assert(pm.has_key(p));
                        let t = pm.key_index(p);
                        pm.lemma_entry_in_map(t);
                        assert(pm.entries_seq()[t].1.node_id@ == a);
                    }
                }
            }
            preds.push(list);
            b += 1;
        }

        proof {
            assert(crate::order::preds_wf(preds@)) by {
                assert forall|i: int, j: int|
                    0 <= i < preds@.len() && 0 <= j < preds@[i]@.len() implies (
                #[trigger] preds@[i]@[j]) < preds@.len() by {
                    let a = preds@[i]@[j];
                    assert(preds@[i]@.contains(a));
                    assert(self.edge(a as int, i));
                    let p = choose|p: int|
                        #[trigger] self.inputs_of(i).contains_key(p) && self.inputs_of(i)[p].node_id@
                            == a as int;
                }
            }
            assert forall|a: int, bb: int| #[trigger]
                pred_edge(preds@, a, bb) implies self.edge(a, bb) by {
                let j = choose|j: int| 0 <= j < preds@[bb]@.len() && #[trigger] preds@[bb]@[j] == a;
                assert(preds@[bb]@.contains(preds@[bb]@[j]));
            }
            assert forall|a: int, bb: int| #[trigger]
                self.edge(a, bb) implies pred_edge(preds@, a, bb) by {
                let p = choose|p: int|
                    #[trigger] self.inputs_of(bb).contains_key(p) && self.inputs_of(bb)[p].node_id@
                        == a;
                assert(0 <= a < n);
                assert(preds@[bb]@.contains(a as usize));
            }
        }

        match kahn(&preds) {
            Ok(raw_order) => {
                let count = raw_order.len();
                let mut order: Vec<NodeId> = Vec::new();
                let mut j: usize = 0;
                while j < count
                    invariant
                        count == raw_order@.len(),
                        j <= count,
                        order@.len() == j,
                        forall|t: int|
                            0 <= t < j ==> (#[trigger] order@[t])@ == raw_order@[t],
                    decreases count - j,
                {
                    order.push(NodeId::new(raw_order[j]));
                    j += 1;
                }
                proof {
                    assert forall|t1: int, t2: int|
                        0 <= t1 < order@.len() && 0 <= t2 < order@.len() && t1 != t2 implies (
                    #[trigger] order@[t1])@ != (#[trigger] order@[t2])@ by {
                        if t1 < t2 {
                            assert(raw_order@[t1] != raw_order@[t2]);
                        } else {
                            assert(raw_order@[t2] != raw_order@[t1]);
                        }
                    }
                    assert forall|v: int|
                        0 <= v < self.node_count() implies #[trigger] contains_node(order@, v) by {
                        assert(raw_order@.contains(v as usize));
                        let t = choose|t: int|
                            0 <= t < raw_order@.len() && raw_order@[t] == v as usize;
                        assert(order@[t]@ == v);
                    }
                    assert forall|t1: int, t2: int|
                        0 <= t1 < order@.len() && 0 <= t2 < order@.len() && #[trigger] self.edge(
                            order@[t1]@,
                            order@[t2]@,
                        ) implies t1 < t2 by {
                        assert(pred_edge(preds@, raw_order@[t1] as int, raw_order@[t2] as int));
                    }
                }
                Ok(order)
            }
            Err(stuck) => {
                proof {
                    crate::order::lemma_on_cycle_widen(
                        pred_edge_of(preds@),
                        self.edge_fn(),
                        stuck as int,
                    );
                }
                Err(Cycle { node: NodeId::new(stuck) })
            }
        }
    }
}

} // verus!
