//! The node capability interface: the contract every processing unit must
//! satisfy to participate in a flow. The flow graph engine depends only on
//! this capability set, never on concrete node types.
//!
//! Two generic parameters recur throughout:
//!   - `C`: the control payload travelling backward (demand signals)
//!   - `D`: the data payload travelling forward (computed values)

use vstd::prelude::*;

use crate::flow::AccessToken;
use crate::port::{Packet, Port, PortBay, PortIndex, VecPortBay};

verus! {

broadcast use crate::port::lemma_port_index_nonnegative;

/// The port state of a node, as seen in specifications.
///
/// Input ports carry data (`D`) inward and control (`C`) outward; output
/// ports carry control inward and data outward. Every node exposes both
/// sequences so that the contracts of the capability traits below can
/// frame exactly which slots an operation may touch.
pub trait NodePorts<C, D> {
    /// The state of the input ports, in index order.
    ///
    /// The default stands for a node with no input ports; a node with
    /// inputs overrides it, since the contracts of the other capability
    /// traits relate every operation to this view.
    open spec fn inputs_view(&self) -> Seq<Port<D, C>> {
        Seq::empty()
    }

    /// The state of the output ports, in index order.
    ///
    /// The default stands for a node with no output ports.
    open spec fn outputs_view(&self) -> Seq<Port<C, D>> {
        Seq::empty()
    }
}

/// Per-port exchange of packets on the input side of a node.
pub trait NodeInputs<C, D>: NodePorts<C, D> {
    /// Query the number of input ports
    fn num_inputs(&self) -> (n: usize)
        ensures
            n == self.inputs_view().len(),
    ;

    /// Receive a data packet into the addressed input port, whose slot
    /// must be vacant (single-slot discipline).
    fn accept_input_packet(
        &mut self,
        token: AccessToken,
        input_index: PortIndex,
        packet: Packet<D, C>,
    )
        requires
            input_index@ < old(self).inputs_view().len(),
            old(self).inputs_view()[input_index@].incoming is None,
        ensures
            final(self).inputs_view() == old(self).inputs_view().update(
                input_index@,
                (Port { incoming: Some(packet.payload), outgoing: packet.piggyback }),
            ),
            final(self).outputs_view() == old(self).outputs_view(),
    ;

    /// Remove and return the pending control packet of the addressed
    /// input port, or nothing if none is queued.
    fn try_dispatch_input_packet(&mut self, token: AccessToken, input_index: PortIndex) -> (packet:
        Option<Packet<C, D>>)
        requires
            input_index@ < old(self).inputs_view().len(),
        ensures
            final(self).outputs_view() == old(self).outputs_view(),
            match old(self).inputs_view()[input_index@].outgoing {
                Some(payload) => {
                    &&& packet == (Some(
                        Packet {
                            payload,
                            piggyback: old(self).inputs_view()[input_index@].incoming,
                        },
                    ))
                    &&& final(self).inputs_view() == old(self).inputs_view().update(
                        input_index@,
                        (Port::<D, C> { incoming: None, outgoing: None }),
                    )
                }
                None => {
                    &&& packet is None
                    &&& final(self).inputs_view() == old(self).inputs_view()
                }
            },
    ;
}

/// Per-port exchange of packets on the output side of a node.
pub trait NodeOutputs<C, D>: NodePorts<C, D> {
    /// Query the number of output ports
    fn num_outputs(&self) -> (n: usize)
        ensures
            n == self.outputs_view().len(),
    ;

    /// Receive a control packet into the addressed output port, whose
    /// slot must be vacant (single-slot discipline).
    fn accept_output_packet(
        &mut self,
        token: AccessToken,
        output_index: PortIndex,
        packet: Packet<C, D>,
    )
        requires
            output_index@ < old(self).outputs_view().len(),
            old(self).outputs_view()[output_index@].incoming is None,
        ensures
            final(self).outputs_view() == old(self).outputs_view().update(
                output_index@,
                (Port { incoming: Some(packet.payload), outgoing: packet.piggyback }),
            ),
            final(self).inputs_view() == old(self).inputs_view(),
    ;

    /// Remove and return the pending data packet of the addressed output
    /// port, or nothing if none is queued.
    fn try_dispatch_output_packet(&mut self, token: AccessToken, output_index: PortIndex) -> (packet:
        Option<Packet<D, C>>)
        requires
            output_index@ < old(self).outputs_view().len(),
        ensures
            final(self).inputs_view() == old(self).inputs_view(),
            match old(self).outputs_view()[output_index@].outgoing {
                Some(payload) => {
                    &&& packet == (Some(
                        Packet {
                            payload,
                            piggyback: old(self).outputs_view()[output_index@].incoming,
                        },
                    ))
                    &&& final(self).outputs_view() == old(self).outputs_view().update(
                        output_index@,
                        (Port::<C, D> { incoming: None, outgoing: None }),
                    )
                }
                None => {
                    &&& packet is None
                    &&& final(self).outputs_view() == old(self).outputs_view()
                }
            },
    ;
}

/// The two processing callbacks, invoked once per node per tick.
pub trait NodeProcessor<C, D>: NodePorts<C, D> {
    /// Backward pass: Refresh the state of all inputs
    ///
    /// Propagate port states from outputs backwards to all inputs that
    /// are affecting the corresponding output values.
    ///
    /// This decision is made independent of whether the node needs to be
    /// updated or not. It must only take into account the pure functional
    /// dependencies between inputs and outputs; in particular it must
    /// never read or write a data value, which the contract pins down:
    /// both port counts, the pending data of every input port and the
    /// outgoing data of every output port are left untouched.
    fn process_outputs(&mut self, token: AccessToken)
        ensures
            final(self).inputs_view().len() == old(self).inputs_view().len(),
            final(self).outputs_view().len() == old(self).outputs_view().len(),
            forall|i: int|
                0 <= i < old(self).inputs_view().len()
                    ==> (#[trigger] final(self).inputs_view()[i]).incoming
                        == old(self).inputs_view()[i].incoming,
            forall|i: int|
                0 <= i < old(self).outputs_view().len()
                    ==> (#[trigger] final(self).outputs_view()[i]).outgoing
                        == old(self).outputs_view()[i].outgoing,
    ;

    /// Forward pass: Update the values of all outputs
    ///
    /// Consume available input values and recalculate the value of the
    /// corresponding active outputs. Values of inactive outputs are
    /// supposed to be reset to `None` to prevent reading stale values.
    ///
    /// It is the responsibility of each node to determine and decide if
    /// and how the output values need to be recalculated, thereby taking
    /// into account both the input values and its internal state at the
    /// time of invocation. The contract fixes the port counts and the
    /// one duty every node owes the protocol: an output port that
    /// carried no demand when the callback ran ends with its value slot
    /// absent, so no stale value survives at a non-demanded port.
    fn process_inputs(&mut self, token: AccessToken)
        ensures
            final(self).inputs_view().len() == old(self).inputs_view().len(),
            final(self).outputs_view().len() == old(self).outputs_view().len(),
            forall|i: int|
                0 <= i < old(self).outputs_view().len() && old(self).outputs_view()[i].incoming
                    is None ==> (#[trigger] final(self).outputs_view()[i]).outgoing is None,
    ;
}

/// A processing unit that can participate in a flow graph.
pub trait Node<C, D>: NodeInputs<C, D> + NodeOutputs<C, D> + NodeProcessor<C, D> {

}

/// The engine-visible footprint of a node's backward callback
/// (`NodeProcessor::process_outputs`): both port counts are kept, the
/// pending data of every input port and the outgoing data of every
/// output port are untouched. The control slots are the callback's to
/// rewrite.
pub open spec fn backward_callback_frame<C, D, N: NodePorts<C, D>>(pre: N, post: N) -> bool {
    &&& post.inputs_view().len() == pre.inputs_view().len()
    &&& post.outputs_view().len() == pre.outputs_view().len()
    &&& forall|i: int|
        0 <= i < pre.inputs_view().len() ==> (#[trigger] post.inputs_view()[i]).incoming
            == pre.inputs_view()[i].incoming
    &&& forall|i: int|
        0 <= i < pre.outputs_view().len() ==> (#[trigger] post.outputs_view()[i]).outgoing
            == pre.outputs_view()[i].outgoing
}

/// The engine-visible footprint of a node's forward callback
/// (`NodeProcessor::process_inputs`): both port counts are kept, and
/// every output port that carried no demand ends with its value slot
/// absent.
pub open spec fn forward_callback_frame<C, D, N: NodePorts<C, D>>(pre: N, post: N) -> bool {
    &&& post.inputs_view().len() == pre.inputs_view().len()
    &&& post.outputs_view().len() == pre.outputs_view().len()
    &&& forall|i: int|
        0 <= i < pre.outputs_view().len() && pre.outputs_view()[i].incoming is None ==> (
        #[trigger] post.outputs_view()[i]).outgoing is None
}

/// The payload of an `Option<&T>`, copied into an owned option.
pub open spec fn copied_opt<T>(option: Option<&T>) -> Option<T> {
    match option {
        Some(t) => Some(*t),
        None => None,
    }
}

/// A control payload that can be folded over several ports.
///
/// A node with one input and many outputs derives the demand on its
/// single input by joining the control payloads pending at its outputs.
pub trait JoinablePortControl: Sized {
    /// The joined control value.
    spec fn join_spec(self, next_ctrl: Option<Self>) -> Self;

    /// Join this control value with the pending control of one more port.
    fn join_next_port_control(self, next_ctrl: Option<&Self>) -> (joined: Self)
        ensures
            joined == self.join_spec(copied_opt(next_ctrl)),
    ;
}

impl JoinablePortControl for () {
    open spec fn join_spec(self, next_ctrl: Option<()>) -> () {
        ()
    }

    fn join_next_port_control(self, _next_ctrl: Option<&()>) -> (joined: ()) {
        self
    }
}

impl JoinablePortControl for bool {
    /// Demand is joined disjunctively: the input is demanded as soon as
    /// at least one output demands it.
    open spec fn join_spec(self, next_ctrl: Option<bool>) -> bool {
        match next_ctrl {
            Some(next) => self || next,
            None => self,
        }
    }

    fn join_next_port_control(self, next_ctrl: Option<&bool>) -> (joined: bool) {
        if let Some(next) = next_ctrl {
            self || *next
        } else {
            self
        }
    }
}

/// Relates the pending controls of the ports in `outputs` and the
/// accumulator `ctrl` to the control payload `joined` that folding them
/// left to right produces.
///
/// This is a relation rather than a function because the first pending
/// control encountered is taken over by cloning it, and a `Clone`
/// implementation is in general only related to its argument by
/// `cloned`; every further port is folded in with `join_spec`.
pub open spec fn backward_fold<C: JoinablePortControl + Clone, D>(
    outputs: Seq<Port<C, D>>,
    ctrl: Option<C>,
    joined: Option<C>,
) -> bool
    decreases outputs.len(),
{
    if outputs.len() == 0 {
        joined == ctrl
    } else {
        match ctrl {
            Some(c) => backward_fold(
                outputs.drop_first(),
                Some(c.join_spec(outputs.first().incoming)),
                joined,
            ),
            None => match outputs.first().incoming {
                Some(x) => exists|c0: C|
                    #[trigger] cloned::<C>(x, c0) && backward_fold(
                        outputs.drop_first(),
                        Some(c0),
                        joined,
                    ),
                None => backward_fold(outputs.drop_first(), None, joined),
            },
        }
    }
}

/// When the control payload is a plain `bool`, cloning is exact and the
/// backward fold relates each port state to exactly one joined control.
pub proof fn lemma_backward_fold_deterministic<D>(
    outputs: Seq<Port<bool, D>>,
    ctrl: Option<bool>,
    joined1: Option<bool>,
    joined2: Option<bool>,
)
    requires
        backward_fold(outputs, ctrl, joined1),
        backward_fold(outputs, ctrl, joined2),
    ensures
        joined1 == joined2,
    decreases outputs.len(),
{
    if outputs.len() == 0 {
    } else {
        match ctrl {
            Some(c) => {
                lemma_backward_fold_deterministic(
                    outputs.drop_first(),
                    Some(c.join_spec(outputs.first().incoming)),
                    joined1,
                    joined2,
                );
            }
            None => match outputs.first().incoming {
                Some(x) => {
                    let c1 = choose|c0: bool|
                        #[trigger] cloned::<bool>(x, c0) && backward_fold(
                            outputs.drop_first(),
                            Some(c0),
                            joined1,
                        );
                    let c2 = choose|c0: bool|
                        #[trigger] cloned::<bool>(x, c0) && backward_fold(
                            outputs.drop_first(),
                            Some(c0),
                            joined2,
                        );
                    assert(c1 == x && c2 == x);
                    lemma_backward_fold_deterministic(
                        outputs.drop_first(),
                        Some(x),
                        joined1,
                        joined2,
                    );
                }
                None => {
                    lemma_backward_fold_deterministic(outputs.drop_first(), None, joined1, joined2);
                }
            },
        }
    }
}

/// A node with a single input port whose pending data value is copied to
/// every output port that currently carries demand.
#[derive(Debug, Clone)]
pub struct OneToManySplitter<C, D> {
    input: Port<D, C>,
    outputs: VecPortBay<C, D>,
}

impl<C, D> NodePorts<C, D> for OneToManySplitter<C, D> {
    closed spec fn inputs_view(&self) -> Seq<Port<D, C>> {
        seq![self.input]
    }

    closed spec fn outputs_view(&self) -> Seq<Port<C, D>> {
        self.outputs@
    }
}

impl<C, D> OneToManySplitter<C, D> {
    pub fn new(num_outputs: usize) -> (splitter: Self)
        ensures
            splitter.inputs_view().len() == 1,
            splitter.inputs_view()[0].is_vacant(),
            splitter.outputs_view().len() == num_outputs,
            forall|i: int| 0 <= i < num_outputs ==> (#[trigger] splitter.outputs_view()[i]).is_vacant(),
    {
        Self { input: Port::new(), outputs: VecPortBay::new(num_outputs) }
    }

    pub fn input(&self) -> (port: &Port<D, C>)
        ensures
            *port == self.inputs_view()[0],
    {
        &self.input
    }

    pub fn input_mut(&mut self) -> (port: &mut Port<D, C>)
        ensures
            *port == old(self).inputs_view()[0],
            final(self).inputs_view() == old(self).inputs_view().update(0, *final(port)),
            final(self).outputs_view() == old(self).outputs_view(),
    {
        &mut self.input
    }

    pub fn output(&self, output_index: PortIndex) -> (port: &Port<C, D>)
        requires
            output_index@ < self.outputs_view().len(),
        ensures
            *port == self.outputs_view()[output_index@],
    {
        self.outputs.port(output_index)
    }

    pub fn output_mut(&mut self, output_index: PortIndex) -> (port: &mut Port<C, D>)
        requires
            output_index@ < old(self).outputs_view().len(),
        ensures
            *port == old(self).outputs_view()[output_index@],
            final(self).outputs_view() == old(self).outputs_view().update(
                output_index@,
                *final(port),
            ),
            final(self).inputs_view() == old(self).inputs_view(),
    {
        self.outputs.port_mut(output_index)
    }

}

impl<C: JoinablePortControl + Clone, D> OneToManySplitter<C, D> {
    /// The backward half at this node: the pending controls of all
    /// output ports are folded into the control dispatched at the single
    /// input port, while every data slot stays untouched.
    pub open spec fn backward_step(pre: Self, post: Self) -> bool {
        &&& post.outputs_view() == pre.outputs_view()
        &&& post.inputs_view()[0].incoming == pre.inputs_view()[0].incoming
        &&& backward_fold(pre.outputs_view(), None, post.inputs_view()[0].outgoing)
    }
}

impl<C, D: Clone> OneToManySplitter<C, D> {
    /// The forward half at this node: every output port with pending
    /// demand receives a copy of the pending input value, every other
    /// output port's value slot is left absent, and nothing else moves.
    pub open spec fn forward_step(pre: Self, post: Self) -> bool {
        &&& post.inputs_view() == pre.inputs_view()
        &&& post.outputs_view().len() == pre.outputs_view().len()
        &&& forall|i: int|
            0 <= i < pre.outputs_view().len() ==> (#[trigger] post.outputs_view()[i]).incoming
                == pre.outputs_view()[i].incoming
        &&& forall|i: int|
            0 <= i < pre.outputs_view().len() && pre.outputs_view()[i].incoming is Some
                ==> match pre.inputs_view()[0].incoming {
                    Some(v) => (#[trigger] post.outputs_view()[i]).outgoing is Some && cloned::<D>(
                        v,
                        post.outputs_view()[i].outgoing.unwrap(),
                    ),
                    None => (#[trigger] post.outputs_view()[i]).outgoing is None,
                }
        &&& forall|i: int|
            0 <= i < pre.outputs_view().len() && pre.outputs_view()[i].incoming is None
                ==> (#[trigger] post.outputs_view()[i]).outgoing is None
    }
}

/// The backward half leaves the activity assignment it computed alone
/// when it is run again: with `bool` controls, running the splitter's
/// `process_outputs` twice with no change to the output ports in between
/// yields the same port state as running it once.
pub proof fn lemma_splitter_backward_idempotent<D>(
    s0: OneToManySplitter<bool, D>,
    s1: OneToManySplitter<bool, D>,
    s2: OneToManySplitter<bool, D>,
)
    requires
        OneToManySplitter::backward_step(s0, s1),
        OneToManySplitter::backward_step(s1, s2),
    ensures
        s2.inputs_view() == s1.inputs_view(),
        s2.outputs_view() == s1.outputs_view(),
{
    lemma_backward_fold_deterministic(
        s0.outputs_view(),
        None,
        s1.inputs_view()[0].outgoing,
        s2.inputs_view()[0].outgoing,
    );
    assert(s2.inputs_view()[0] == s1.inputs_view()[0]);
    assert(s2.inputs_view() =~= s1.inputs_view());
}

impl<C, D> Default for OneToManySplitter<C, D> {
    fn default() -> (splitter: Self)
        ensures
            splitter.inputs_view().len() == 1,
            splitter.inputs_view()[0].is_vacant(),
            splitter.outputs_view().len() == 0,
    {
        Self::new(0)
    }
}

/// A port without pending demand never ends the forward half with a
/// stale value: after the splitter's `process_inputs`, the value slot
/// of every output port that carried no control message is empty.
pub proof fn lemma_splitter_inactive_outputs_empty<C, D: Clone>(
    pre: OneToManySplitter<C, D>,
    post: OneToManySplitter<C, D>,
    i: int,
)
    requires
        OneToManySplitter::forward_step(pre, post),
        0 <= i < pre.outputs_view().len(),
        pre.outputs_view()[i].incoming is None,
    ensures
        post.outputs_view()[i].outgoing is None,
{
}

impl<C, D> Node<C, D> for OneToManySplitter<C, D> where
    C: Clone + JoinablePortControl,
    D: Clone,
 {

}

impl<C, D> NodeInputs<C, D> for OneToManySplitter<C, D> where
    C: Clone + JoinablePortControl,
    D: Clone,
 {
    fn num_inputs(&self) -> (n: usize) {
        1
    }

    fn accept_input_packet(
        &mut self,
        _token: AccessToken,
        _input_index: PortIndex,
        packet: Packet<D, C>,
    ) {
        self.input.accept_packet(packet);
    }

    fn try_dispatch_input_packet(
        &mut self,
        _token: AccessToken,
        _input_index: PortIndex,
    ) -> (packet: Option<Packet<C, D>>) {
        self.input.try_dispatch_packet()
    }
}

impl<C, D> NodeOutputs<C, D> for OneToManySplitter<C, D> where
    C: Clone + JoinablePortControl,
    D: Clone,
 {
    fn num_outputs(&self) -> (n: usize) {
        self.outputs.num_ports()
    }

    fn accept_output_packet(
        &mut self,
        _token: AccessToken,
        output_index: PortIndex,
        packet: Packet<C, D>,
    ) {
        self.outputs.accept_packet(output_index, packet)
    }

    fn try_dispatch_output_packet(
        &mut self,
        _token: AccessToken,
        output_index: PortIndex,
    ) -> (packet: Option<Packet<D, C>>) {
        self.outputs.try_dispatch_packet(output_index)
    }
}

impl<C, D> NodeProcessor<C, D> for OneToManySplitter<C, D> where
    C: Clone + JoinablePortControl,
    D: Clone,
 {
    fn process_inputs(&mut self, _token: AccessToken)
        ensures
            OneToManySplitter::forward_step(*old(self), *final(self)),
    {
        let ghost pre = *self;
        let num_outputs = self.outputs.num_ports();
        let mut i: usize = 0;
        while i < num_outputs
            invariant
                num_outputs == self.outputs_view().len(),
                i <= num_outputs,
                self.input == old(self).input,
                self.outputs_view().len() == old(self).outputs_view().len(),
                forall|j: int|
                    0 <= j < num_outputs ==> (#[trigger] self.outputs_view()[j]).incoming == old(
                        self,
                    ).outputs_view()[j].incoming,
                forall|j: int|
                    i <= j < num_outputs ==> (#[trigger] self.outputs_view()[j]).outgoing == old(
                        self,
                    ).outputs_view()[j].outgoing,
                forall|j: int|
                    0 <= j < i && old(self).outputs_view()[j].incoming is Some ==> match old(
                        self,
                    ).inputs_view()[0].incoming {
                        Some(v) => (#[trigger] self.outputs_view()[j]).outgoing is Some
                            && cloned::<D>(v, self.outputs_view()[j].outgoing.unwrap()),
                        None => (#[trigger] self.outputs_view()[j]).outgoing is None,
                    },
                forall|j: int|
                    0 <= j < i && old(self).outputs_view()[j].incoming is None ==> (
                    #[trigger] self.outputs_view()[j]).outgoing is None,
            decreases num_outputs - i,
        {
            let port_index = PortIndex::new(i);
            if self.outputs.port(port_index).incoming.is_some() {
                let value = match &self.input.incoming {
                    Some(v) => Some(v.clone()),
                    None => None,
                };
                self.outputs.port_mut(port_index).outgoing = value;
            } else {
                self.outputs.port_mut(port_index).outgoing = None;
            }
            i += 1;
        }
    }

    fn process_outputs(&mut self, _token: AccessToken)
        ensures
            OneToManySplitter::backward_step(*old(self), *final(self)),
    {
        let num_outputs = self.outputs.num_ports();
        let mut ctrl: Option<C> = None;
        let mut i: usize = 0;
        proof {
            assert(self.outputs_view().skip(0) =~= self.outputs_view());
        }
        while i < num_outputs
            invariant
                num_outputs == self.outputs_view().len(),
                i <= num_outputs,
                *self == *old(self),
                forall|joined: Option<C>|
                    #[trigger] backward_fold(self.outputs_view().skip(i as int), ctrl, joined)
                        ==> backward_fold(self.outputs_view(), None, joined),
            decreases num_outputs - i,
        {
            let port_index = PortIndex::new(i);
            let ghost prev_ctrl = ctrl;
            let ghost remaining = self.outputs_view().skip(i as int);
            ctrl = match ctrl {
                Some(c) => Some(
                    c.join_next_port_control(self.outputs.port(port_index).incoming.as_ref()),
                ),
                None => match &self.outputs.port(port_index).incoming {
                    Some(x) => Some(x.clone()),
                    None => None,
                },
            };
            proof {
                assert(remaining.first() == self.outputs_view()[i as int]);
                assert(remaining.drop_first() =~= self.outputs_view().skip(i as int + 1));
                assert forall|joined: Option<C>| #[trigger] backward_fold(
                    self.outputs_view().skip(i as int + 1),
                    ctrl,
                    joined,
                ) implies backward_fold(self.outputs_view(), None, joined) by {
                    match prev_ctrl {
                        Some(c) => {
                            assert(backward_fold(remaining, prev_ctrl, joined));
                        }
                        None => {
                            match remaining.first().incoming {
                                Some(x) => {
                                    assert(cloned::<C>(x, ctrl.unwrap()));
                                    assert(backward_fold(remaining, None, joined));
                                }
                                None => {
                                    assert(backward_fold(remaining, None, joined));
                                }
                            }
                        }
                    }
                }
            }
            i += 1;
        }
        self.input.outgoing = ctrl;
        proof {
            assert(backward_fold(self.outputs_view().skip(num_outputs as int), ctrl, ctrl));
        }
    }
}

/// An output-less sink that collects data values on its input ports.
///
/// Its observable contribution (printing, recording, forwarding to the
/// outside world) is a side effect performed by the embedding
/// application, which inspects the collected inputs between ticks;
/// console or file output is out of scope for the engine itself, so the
/// engine-facing callbacks leave every port untouched.
#[derive(Debug, Clone)]
pub struct DebugPrinterSink<C, D> {
    /// The input ports of the sink
    pub inputs: VecPortBay<D, C>,
}

impl<C, D> NodePorts<C, D> for DebugPrinterSink<C, D> {
    open spec fn inputs_view(&self) -> Seq<Port<D, C>> {
        self.inputs@
    }

    open spec fn outputs_view(&self) -> Seq<Port<C, D>> {
        Seq::empty()
    }
}

impl<C, D> DebugPrinterSink<C, D> {
    pub fn new(num_inputs: usize) -> (sink: Self)
        ensures
            sink.inputs_view().len() == num_inputs,
            forall|i: int| 0 <= i < num_inputs ==> (#[trigger] sink.inputs_view()[i]).is_vacant(),
    {
        Self { inputs: VecPortBay::new(num_inputs) }
    }

    pub fn input(&self, input_index: PortIndex) -> (port: &Port<D, C>)
        requires
            input_index@ < self.inputs_view().len(),
        ensures
            *port == self.inputs_view()[input_index@],
    {
        self.inputs.port(input_index)
    }

    pub fn input_mut(&mut self, input_index: PortIndex) -> (port: &mut Port<D, C>)
        requires
            input_index@ < old(self).inputs_view().len(),
        ensures
            *port == old(self).inputs_view()[input_index@],
            final(self).inputs_view() == old(self).inputs_view().update(
                input_index@,
                *final(port),
            ),
            final(self).outputs_view() == old(self).outputs_view(),
    {
        self.inputs.port_mut(input_index)
    }
}

impl<C, D> Default for DebugPrinterSink<C, D> {
    fn default() -> (sink: Self)
        ensures
            sink.inputs_view().len() == 0,
    {
        Self::new(0)
    }
}

impl<C, D> Node<C, D> for DebugPrinterSink<C, D> {

}

impl<C, D> NodeInputs<C, D> for DebugPrinterSink<C, D> {
    fn num_inputs(&self) -> (n: usize) {
        self.inputs.num_ports()
    }

    fn accept_input_packet(
        &mut self,
        _token: AccessToken,
        input_index: PortIndex,
        packet: Packet<D, C>,
    ) {
        self.inputs.accept_packet(input_index, packet);
    }

    fn try_dispatch_input_packet(
        &mut self,
        _token: AccessToken,
        input_index: PortIndex,
    ) -> (packet: Option<Packet<C, D>>) {
        self.inputs.try_dispatch_packet(input_index)
    }
}

impl<C, D> NodeOutputs<C, D> for DebugPrinterSink<C, D> {
    fn num_outputs(&self) -> (n: usize) {
        0
    }

    fn accept_output_packet(
        &mut self,
        _token: AccessToken,
        _output_index: PortIndex,
        _packet: Packet<C, D>,
    ) {
        // unreachable: the sink has no output ports
    }

    fn try_dispatch_output_packet(
        &mut self,
        _token: AccessToken,
        _output_index: PortIndex,
    ) -> (packet: Option<Packet<D, C>>) {
        // unreachable: the sink has no output ports
        None
    }
}

impl<C, D> NodeProcessor<C, D> for DebugPrinterSink<C, D> {
    fn process_inputs(&mut self, _token: AccessToken)
        ensures
            *final(self) == *old(self),
    {
        // No outputs to recompute; the collected input values stay in
        // their slots for the owning application to inspect.
    }

    fn process_outputs(&mut self, _token: AccessToken)
        ensures
            *final(self) == *old(self),
    {
        // No outputs, nothing to do
    }
}

} // verus!
