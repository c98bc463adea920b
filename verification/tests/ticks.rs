use flowcalc::flow::{AccessToken, Flow, NodeId, Socket};
use flowcalc::node::{
    DebugPrinterSink, JoinablePortControl, Node, NodeInputs, NodeOutputs, NodePorts,
    NodeProcessor, OneToManySplitter,
};
use flowcalc::port::{Packet, Port, PortIndex};

fn socket(node_id: NodeId, port: usize) -> Socket {
    Socket { node_id, port_index: PortIndex::new(port) }
}

#[test]
fn join_of_bool_controls_is_disjunction() {
    assert_eq!(false.join_next_port_control(None), false);
    assert_eq!(false.join_next_port_control(Some(&true)), true);
    assert_eq!(true.join_next_port_control(Some(&false)), true);
    assert_eq!(false.join_next_port_control(Some(&false)), false);
    ().join_next_port_control(Some(&()));
}

#[test]
fn splitter_fans_out_to_demanding_ports_only() {
    // one splitter with one input and three outputs; only outputs 0 and
    // 1 carry demand
    let mut flow: Flow<OneToManySplitter<bool, i32>, bool, i32> = Flow::new();
    let id = flow.add_node(OneToManySplitter::new(3));
    {
        let splitter = flow.node_mut(id);
        splitter.output_mut(PortIndex::new(0)).incoming = Some(true);
        splitter.output_mut(PortIndex::new(1)).incoming = Some(true);
    }
    // after the backward half the single input carries demand
    flow.process_outputs(id);
    assert_eq!(flow.node(id).input().outgoing, Some(true));
    // after the forward half with input value 7, the demanding outputs
    // hold 7 and the silent output's slot is empty
    flow.node_mut(id).input_mut().incoming = Some(7);
    flow.process_inputs(id);
    let splitter = flow.node(id);
    assert_eq!(splitter.output(PortIndex::new(0)).outgoing, Some(7));
    assert_eq!(splitter.output(PortIndex::new(1)).outgoing, Some(7));
    assert_eq!(splitter.output(PortIndex::new(2)).outgoing, None);
}

#[test]
fn splitter_without_demand_stays_silent() {
    let mut flow: Flow<OneToManySplitter<bool, i32>, bool, i32> = Flow::new();
    let id = flow.add_node(OneToManySplitter::new(2));
    flow.process_outputs(id);
    assert_eq!(flow.node(id).input().outgoing, None);
    flow.node_mut(id).input_mut().incoming = Some(3);
    flow.process_inputs(id);
    assert_eq!(flow.node(id).output(PortIndex::new(0)).outgoing, None);
    assert_eq!(flow.node(id).output(PortIndex::new(1)).outgoing, None);
}

#[test]
fn backward_half_is_idempotent() {
    // running the backward half twice with no change in between yields
    // the same activity assignment both times
    let mut flow: Flow<OneToManySplitter<bool, i32>, bool, i32> = Flow::new();
    let id = flow.add_node(OneToManySplitter::new(3));
    {
        let splitter = flow.node_mut(id);
        splitter.output_mut(PortIndex::new(1)).incoming = Some(true);
    }
    flow.process_outputs(id);
    let first = flow.node(id).input().outgoing;
    let first_controls: Vec<Option<bool>> =
        (0..3).map(|i| flow.node(id).output(PortIndex::new(i)).incoming).collect();
    flow.process_outputs(id);
    let second = flow.node(id).input().outgoing;
    let second_controls: Vec<Option<bool>> =
        (0..3).map(|i| flow.node(id).output(PortIndex::new(i)).incoming).collect();
    assert_eq!(first, Some(true));
    assert_eq!(second, first);
    assert_eq!(second_controls, first_controls);
}

#[test]
fn sink_collects_and_keeps_its_inputs() {
    let mut flow: Flow<DebugPrinterSink<bool, i32>, bool, i32> = Flow::new();
    let id = flow.add_node(DebugPrinterSink::new(2));
    flow.node_mut(id).input_mut(PortIndex::new(1)).incoming = Some(11);
    flow.process_inputs(id);
    // the sink's engine-facing callbacks leave every port untouched
    assert_eq!(flow.node(id).input(PortIndex::new(1)).incoming, Some(11));
    assert_eq!(flow.node(id).input(PortIndex::new(0)).incoming, None);
    flow.process_outputs(id);
    assert_eq!(flow.node(id).input(PortIndex::new(1)).incoming, Some(11));
}

// A miniature set of processing units for driving whole ticks: a source
// emitting a constant, a doubling transform, and a demanding sink.

struct SourceUnit {
    output: Port<bool, i32>,
    value: i32,
}

struct DoubleUnit {
    input: Port<i32, bool>,
    output: Port<bool, i32>,
}

struct SinkUnit {
    input: Port<i32, bool>,
}

enum TickNode {
    Source(SourceUnit),
    Double(DoubleUnit),
    Sink(SinkUnit),
}

impl NodePorts<bool, i32> for TickNode {

}

impl NodeInputs<bool, i32> for TickNode {
    fn num_inputs(&self) -> usize {
        match self {
            TickNode::Source(_) => 0,
            TickNode::Double(_) => 1,
            TickNode::Sink(_) => 1,
        }
    }

    fn accept_input_packet(
        &mut self,
        _token: AccessToken,
        _input_index: PortIndex,
        packet: Packet<i32, bool>,
    ) {
        match self {
            TickNode::Source(_) => unreachable!(),
            TickNode::Double(unit) => unit.input.accept_packet(packet),
            TickNode::Sink(unit) => unit.input.accept_packet(packet),
        }
    }

    fn try_dispatch_input_packet(
        &mut self,
        _token: AccessToken,
        _input_index: PortIndex,
    ) -> Option<Packet<bool, i32>> {
        match self {
            TickNode::Source(_) => None,
            TickNode::Double(unit) => unit.input.try_dispatch_packet(),
            TickNode::Sink(unit) => unit.input.try_dispatch_packet(),
        }
    }
}

impl NodeOutputs<bool, i32> for TickNode {
    fn num_outputs(&self) -> usize {
        match self {
            TickNode::Source(_) => 1,
            TickNode::Double(_) => 1,
            TickNode::Sink(_) => 0,
        }
    }

    fn accept_output_packet(
        &mut self,
        _token: AccessToken,
        _output_index: PortIndex,
        packet: Packet<bool, i32>,
    ) {
        match self {
            TickNode::Source(unit) => unit.output.accept_packet(packet),
            TickNode::Double(unit) => unit.output.accept_packet(packet),
            TickNode::Sink(_) => unreachable!(),
        }
    }

    fn try_dispatch_output_packet(
        &mut self,
        _token: AccessToken,
        _output_index: PortIndex,
    ) -> Option<Packet<i32, bool>> {
        match self {
            TickNode::Source(unit) => unit.output.try_dispatch_packet(),
            TickNode::Double(unit) => unit.output.try_dispatch_packet(),
            TickNode::Sink(_) => None,
        }
    }
}

impl NodeProcessor<bool, i32> for TickNode {
    fn process_outputs(&mut self, _token: AccessToken) {
        match self {
            // nothing upstream of a source
            TickNode::Source(_) => {}
            // the output value depends on the single input
            TickNode::Double(unit) => {
                if unit.output.incoming.is_some() {
                    unit.input.outgoing = Some(true);
                }
            }
            // the sink always demands its input
            TickNode::Sink(unit) => {
                unit.input.outgoing = Some(true);
            }
        }
    }

    fn process_inputs(&mut self, _token: AccessToken) {
        match self {
            TickNode::Source(unit) => {
                if unit.output.incoming.take().is_some() {
                    unit.output.outgoing = Some(unit.value);
                } else {
                    unit.output.outgoing = None;
                }
            }
            TickNode::Double(unit) => {
                if unit.output.incoming.take().is_some() {
                    if let Some(value) = unit.input.incoming.take() {
                        unit.output.outgoing = Some(2 * value);
                    }
                } else {
                    unit.output.outgoing = None;
                }
            }
            TickNode::Sink(_) => {
                // the collected value stays for inspection between ticks
            }
        }
    }
}

impl Node<bool, i32> for TickNode {

}

#[test]
fn one_tick_propagates_demand_and_doubles_the_value() {
    // chain: source -> double -> sink, with the sink demanding its input
    let mut flow: Flow<TickNode, bool, i32> = Flow::new();
    let source = flow.add_node(TickNode::Source(SourceUnit { output: Port::new(), value: 5 }));
    let double = flow.add_node(TickNode::Double(DoubleUnit {
        input: Port::new(),
        output: Port::new(),
    }));
    let sink = flow.add_node(TickNode::Sink(SinkUnit { input: Port::new() }));
    flow.connect(socket(source, 0), socket(double, 0));
    flow.connect(socket(double, 0), socket(sink, 0));

    let order = flow.topological_nodes().expect("the chain is acyclic");
    assert_eq!(order.len(), 3);

    // backward half: demand travels from the sink through the transform
    // to the source in a single sweep
    for id in order.iter().rev() {
        flow.process_outputs(*id);
    }
    match flow.node(double) {
        TickNode::Double(unit) => assert_eq!(unit.output.incoming, Some(true)),
        _ => unreachable!(),
    }
    match flow.node(source) {
        TickNode::Source(unit) => assert_eq!(unit.output.incoming, Some(true)),
        _ => unreachable!(),
    }

    // forward half: the source emits 5, the transform doubles it
    for id in order.iter() {
        flow.process_inputs(*id);
    }
    match flow.node(sink) {
        TickNode::Sink(unit) => assert_eq!(unit.input.incoming, Some(10)),
        _ => unreachable!(),
    }
}

#[test]
fn undemanded_source_emits_nothing() {
    let mut flow: Flow<TickNode, bool, i32> = Flow::new();
    let source = flow.add_node(TickNode::Source(SourceUnit { output: Port::new(), value: 9 }));
    let sink = flow.add_node(TickNode::Sink(SinkUnit { input: Port::new() }));
    flow.connect(socket(source, 0), socket(sink, 0));
    let order = flow.topological_nodes().expect("acyclic");
    // forward half only: no demand was propagated, so nothing moves
    for id in order.iter() {
        flow.process_inputs(*id);
    }
    match flow.node(sink) {
        TickNode::Sink(unit) => assert_eq!(unit.input.incoming, None),
        _ => unreachable!(),
    }
}

#[test]
fn second_tick_picks_up_an_injected_value() {
    let mut flow: Flow<TickNode, bool, i32> = Flow::new();
    let source = flow.add_node(TickNode::Source(SourceUnit { output: Port::new(), value: 5 }));
    let double = flow.add_node(TickNode::Double(DoubleUnit {
        input: Port::new(),
        output: Port::new(),
    }));
    let sink = flow.add_node(TickNode::Sink(SinkUnit { input: Port::new() }));
    flow.connect(socket(source, 0), socket(double, 0));
    flow.connect(socket(double, 0), socket(sink, 0));
    let order = flow.topological_nodes().expect("acyclic");

    for id in order.iter().rev() {
        flow.process_outputs(*id);
    }
    for id in order.iter() {
        flow.process_inputs(*id);
    }
    // drain the delivered value and retune the source strictly between
    // ticks, as the ownership discipline requires
    match flow.node_mut(sink) {
        TickNode::Sink(unit) => assert_eq!(unit.input.incoming.take(), Some(10)),
        _ => unreachable!(),
    }
    match flow.node_mut(source) {
        TickNode::Source(unit) => unit.value = 8,
        _ => unreachable!(),
    }
    for id in order.iter().rev() {
        flow.process_outputs(*id);
    }
    for id in order.iter() {
        flow.process_inputs(*id);
    }
    match flow.node(sink) {
        TickNode::Sink(unit) => assert_eq!(unit.input.incoming, Some(16)),
        _ => unreachable!(),
    }
}

#[test]
fn splitter_defaults_to_no_outputs() {
    let splitter: OneToManySplitter<bool, i32> = Default::default();
    assert!(splitter.input().incoming.is_none());
    let sink: DebugPrinterSink<bool, i32> = Default::default();
    let _ = sink;
}
