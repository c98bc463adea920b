use flowcalc::flow::{Flow, NodeId, Socket};
use flowcalc::node::OneToManySplitter;
use flowcalc::port::PortIndex;

type TestFlow = Flow<OneToManySplitter<bool, i32>, bool, i32>;

fn socket(node_id: NodeId, port: usize) -> Socket {
    Socket { node_id, port_index: PortIndex::new(port) }
}

fn position(order: &[NodeId], node_id: NodeId) -> usize {
    order
        .iter()
        .position(|id| *id == node_id)
        .expect("every node appears in a topological order")
}

#[test]
fn empty_flow_has_empty_order() {
    let flow: TestFlow = Flow::new();
    let order = flow.topological_nodes().expect("no cycle in an empty flow");
    assert!(order.is_empty());
}

#[test]
fn single_node_order() {
    let mut flow: TestFlow = Flow::new();
    let only = flow.add_node(OneToManySplitter::new(1));
    let order = flow.topological_nodes().expect("no cycle");
    assert_eq!(order, vec![only]);
}

#[test]
fn node_ids_are_assigned_sequentially() {
    let mut flow: TestFlow = Flow::new();
    let first = flow.add_node(OneToManySplitter::new(1));
    let second = flow.add_node(OneToManySplitter::new(1));
    assert_eq!(usize::from(first), 0);
    assert_eq!(usize::from(second), 1);
    assert_ne!(first, second);
}

#[test]
fn chain_is_ordered_source_to_sink() {
    let mut flow: TestFlow = Flow::new();
    let head = flow.add_node(OneToManySplitter::new(1));
    let middle = flow.add_node(OneToManySplitter::new(1));
    let tail = flow.add_node(OneToManySplitter::new(1));
    // wire tail-first so the order cannot simply mirror insertion order
    flow.connect(socket(middle, 0), socket(tail, 0));
    flow.connect(socket(head, 0), socket(middle, 0));
    let order = flow.topological_nodes().expect("a chain is acyclic");
    assert_eq!(order.len(), 3);
    assert!(position(&order, head) < position(&order, middle));
    assert!(position(&order, middle) < position(&order, tail));
}

#[test]
fn diamond_orders_every_edge() {
    let mut flow: TestFlow = Flow::new();
    let top = flow.add_node(OneToManySplitter::new(2));
    let left = flow.add_node(OneToManySplitter::new(1));
    let right = flow.add_node(OneToManySplitter::new(1));
    // connection bookkeeping is purely structural, so the join of the
    // diamond can be recorded on two distinct input indexes
    let collector = flow.add_node(OneToManySplitter::new(0));
    flow.connect(socket(top, 0), socket(left, 0));
    flow.connect(socket(top, 1), socket(right, 0));
    flow.connect(socket(left, 0), socket(collector, 0));
    flow.connect(socket(right, 0), socket(collector, 1));
    let order = flow.topological_nodes().expect("a diamond is acyclic");
    assert_eq!(order.len(), 4);
    assert!(position(&order, top) < position(&order, left));
    assert!(position(&order, top) < position(&order, right));
    assert!(position(&order, left) < position(&order, collector));
    assert!(position(&order, right) < position(&order, collector));
}

#[test]
fn two_cycle_is_reported() {
    let mut flow: TestFlow = Flow::new();
    let a = flow.add_node(OneToManySplitter::new(1));
    let b = flow.add_node(OneToManySplitter::new(1));
    flow.connect(socket(a, 0), socket(b, 0));
    flow.connect(socket(b, 0), socket(a, 0));
    let cycle = flow.topological_nodes().expect_err("a two-cycle must be reported");
    let offender = cycle.node();
    assert!(offender == a || offender == b);
}

#[test]
fn cycle_behind_a_tail_names_a_node_on_the_cycle() {
    let mut flow: TestFlow = Flow::new();
    // `tail` hangs off the cycle a -> b -> a; the certificate must name
    // a node of the cycle itself, never the dangling tail
    let tail = flow.add_node(OneToManySplitter::new(0));
    let a = flow.add_node(OneToManySplitter::new(2));
    let b = flow.add_node(OneToManySplitter::new(1));
    flow.connect(socket(a, 0), socket(b, 0));
    flow.connect(socket(b, 0), socket(a, 0));
    flow.connect(socket(a, 1), socket(tail, 0));
    let cycle = flow.topological_nodes().expect_err("the graph has a cycle");
    let offender = cycle.node();
    assert!(offender == a || offender == b);
    assert_ne!(offender, tail);
}

#[test]
fn disconnect_output_returns_the_far_end() {
    let mut flow: TestFlow = Flow::new();
    let a = flow.add_node(OneToManySplitter::new(1));
    let b = flow.add_node(OneToManySplitter::new(1));
    flow.connect(socket(a, 0), socket(b, 0));
    let far = flow.disconnect_output(socket(a, 0));
    assert_eq!(far, Some(socket(b, 0)));
    // the edge is gone from both halves of the index
    assert_eq!(flow.disconnect_output(socket(a, 0)), None);
    assert_eq!(flow.disconnect_input(socket(b, 0)), None);
}

#[test]
fn disconnect_input_returns_the_far_end() {
    let mut flow: TestFlow = Flow::new();
    let a = flow.add_node(OneToManySplitter::new(1));
    let b = flow.add_node(OneToManySplitter::new(1));
    flow.connect(socket(a, 0), socket(b, 0));
    let far = flow.disconnect_input(socket(b, 0));
    assert_eq!(far, Some(socket(a, 0)));
    assert_eq!(flow.disconnect_input(socket(b, 0)), None);
    assert_eq!(flow.disconnect_output(socket(a, 0)), None);
}

#[test]
fn disconnect_unconnected_port_returns_nothing() {
    let mut flow: TestFlow = Flow::new();
    let a = flow.add_node(OneToManySplitter::new(1));
    assert_eq!(flow.disconnect_output(socket(a, 0)), None);
    assert_eq!(flow.disconnect_input(socket(a, 0)), None);
}

#[test]
fn reconnect_moves_both_endpoints() {
    let mut flow: TestFlow = Flow::new();
    let a = flow.add_node(OneToManySplitter::new(2));
    let b = flow.add_node(OneToManySplitter::new(1));
    let c = flow.add_node(OneToManySplitter::new(1));
    flow.connect(socket(a, 0), socket(b, 0));
    flow.connect(socket(a, 1), socket(c, 0));
    // move the first output of `a` over to the input of `c`
    flow.reconnect(socket(a, 0), socket(c, 0));
    assert_eq!(flow.disconnect_output(socket(a, 0)), Some(socket(c, 0)));
    // the stale records of both displaced edges are gone
    assert_eq!(flow.disconnect_output(socket(a, 1)), None);
    assert_eq!(flow.disconnect_input(socket(b, 0)), None);
}

#[test]
fn topology_edits_change_the_order() {
    let mut flow: TestFlow = Flow::new();
    let a = flow.add_node(OneToManySplitter::new(1));
    let b = flow.add_node(OneToManySplitter::new(1));
    flow.connect(socket(a, 0), socket(b, 0));
    let order = flow.topological_nodes().expect("acyclic");
    assert!(position(&order, a) < position(&order, b));
    flow.disconnect_output(socket(a, 0));
    flow.connect(socket(b, 0), socket(a, 0));
    let order = flow.topological_nodes().expect("still acyclic");
    assert!(position(&order, b) < position(&order, a));
}

#[test]
fn node_access_reaches_the_stored_node() {
    let mut flow: TestFlow = Flow::new();
    let id = flow.add_node(OneToManySplitter::new(3));
    {
        let node = flow.node_mut(id);
        node.input_mut().incoming = Some(42);
    }
    assert_eq!(flow.node(id).input().incoming, Some(42));
}

#[test]
fn with_capacity_and_default_start_empty() {
    let flow: TestFlow = Flow::with_capacity(8);
    assert!(flow.topological_nodes().expect("empty").is_empty());
    let flow: TestFlow = Default::default();
    assert!(flow.topological_nodes().expect("empty").is_empty());
}
