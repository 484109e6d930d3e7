use vulcano::analyzer::analyses::component_validity::component_validity;
use vulcano::analyzer::analyses::connected_components::ConnectedComponents;
use vulcano::analyzer::analyses::element_reachability::ElementReachability;
use vulcano::analyzer::analyses::ownership_issues::{OwnershipIssue, OwnershipIssues};
use vulcano::analyzer::analyses::register_allocation::RegisterAllocation;
use vulcano::analyzer::analyses::scheduled_order::ScheduledOrder;
use vulcano::analyzer::analyses::topological_order::TopologicalOrder;
use vulcano::analyzer::analyses::value_liveness::{LiveRange, ValueLiveness};
use vulcano::analyzer::priority::Priority;
use vulcano::circuit::operations::gate::{GateId, GateOp};
use vulcano::circuit::operations::input::InputId;
use vulcano::circuit::operations::output::OutputId;
use vulcano::circuit::operations::{Consumer, Operation, PortId};
use vulcano::circuit::subcircuit::CircuitId;
use vulcano::circuit::value::{Ownership, ValueId};
use vulcano::circuit::Circuit;
use vulcano::error::{Error, Result};
use vulcano::gate::Gate;

#[derive(Clone, Copy, Debug, PartialEq, Eq)]
enum TestGate {
    Not,
    And,
}

impl Gate for TestGate {
    type Operand = u8;

    fn input_count(&self) -> usize {
        match self {
            TestGate::Not => 1,
            TestGate::And => 2,
        }
    }

    fn output_count(&self) -> usize {
        1
    }

    fn input_type(&self, idx: usize) -> Result<u8> {
        if idx < self.input_count() {
            Ok(0)
        } else {
            Err(Error::PortOutOfRange(idx))
        }
    }

    fn output_type(&self, idx: usize) -> Result<u8> {
        if idx < 1 {
            Ok(0)
        } else {
            Err(Error::PortOutOfRange(idx))
        }
    }

    fn access_mode(&self, idx: usize) -> Result<Ownership> {
        if idx < self.input_count() {
            Ok(Ownership::Move)
        } else {
            Err(Error::PortOutOfRange(idx))
        }
    }

    fn spec_input_count(&self) -> usize {
        self.input_count()
    }

    fn spec_output_count(&self) -> usize {
        self.output_count()
    }

    fn spec_input_type(&self, idx: usize) -> Result<u8> {
        self.input_type(idx)
    }

    fn spec_output_type(&self, idx: usize) -> Result<u8> {
        self.output_type(idx)
    }

    fn spec_access_mode(&self, idx: usize) -> Result<Ownership> {
        self.access_mode(idx)
    }
}

struct Chain {
    input: InputId,
    gate: GateId,
    output: OutputId,
    input_value: ValueId,
    gate_value: ValueId,
}

fn chain_circuit() -> (Circuit<TestGate>, CircuitId, Chain) {
    let mut circuit: Circuit<TestGate> = Circuit::new();
    let id = circuit.add_subcircuit().unwrap();
    let sub = circuit.get_mut(id).unwrap();
    let (input, v0) = sub.add_input(0).unwrap();
    let (gate, outs) = sub.add_gate(&[v0], TestGate::Not).unwrap();
    let output = sub.add_output(outs[0]).unwrap();
    let chain = Chain { input, gate, output, input_value: v0, gate_value: outs[0] };
    (circuit, id, chain)
}

fn two_chains() -> (Circuit<TestGate>, CircuitId, Chain, Chain) {
    let mut circuit: Circuit<TestGate> = Circuit::new();
    let id = circuit.add_subcircuit().unwrap();
    let sub = circuit.get_mut(id).unwrap();
    let (i0, v0) = sub.add_input(0).unwrap();
    let (i1, v1) = sub.add_input(0).unwrap();
    let (g0, o0v) = sub.add_gate(&[v0], TestGate::Not).unwrap();
    let (g1, o1v) = sub.add_gate(&[v1], TestGate::Not).unwrap();
    let o0 = sub.add_output(o0v[0]).unwrap();
    let o1 = sub.add_output(o1v[0]).unwrap();
    let a = Chain { input: i0, gate: g0, output: o0, input_value: v0, gate_value: o0v[0] };
    let b = Chain { input: i1, gate: g1, output: o1, input_value: v1, gate_value: o1v[0] };
    (circuit, id, a, b)
}

#[test]
fn chain_topological_order() {
    let (circuit, id, c) = chain_circuit();
    let order = TopologicalOrder::run(&circuit).unwrap();
    let sub = order.for_subcircuit(id).unwrap();
    assert_eq!(
        sub.operations(),
        &[Operation::Input(c.input), Operation::Gate(c.gate), Operation::Output(c.output)]
    );
    assert_eq!(order.iter().len(), 1);
}

#[test]
fn kahn_order_is_first_in_first_out() {
    let (circuit, id, a, b) = two_chains();
    let order = TopologicalOrder::run(&circuit).unwrap();
    assert_eq!(
        order.for_subcircuit(id).unwrap().iter(),
        vec![
            Operation::Input(a.input),
            Operation::Input(b.input),
            Operation::Gate(a.gate),
            Operation::Gate(b.gate),
            Operation::Output(a.output),
            Operation::Output(b.output),
        ]
    );
}

#[test]
fn scheduled_order_frees_values_early() {
    let (circuit, id, a, b) = two_chains();
    let schedule = ScheduledOrder::run(&circuit).unwrap();
    let sub = schedule.for_subcircuit(id).unwrap();
    assert_eq!(
        sub.operations(),
        &[
            Operation::Input(a.input),
            Operation::Gate(a.gate),
            Operation::Output(a.output),
            Operation::Input(b.input),
            Operation::Gate(b.gate),
            Operation::Output(b.output),
        ]
    );
    assert_eq!(sub.position(Operation::Output(a.output)), Some(2));
    assert_eq!(sub.position(Operation::Gate(b.gate)), Some(4));
}

#[test]
fn priorities_of_operations() {
    let (_, _, c) = chain_circuit();
    assert_eq!(Priority::for_operation(&Operation::Output(c.output)).rank(), 2);
    assert_eq!(Priority::for_operation(&Operation::Gate(c.gate)).rank(), 1);
    assert_eq!(Priority::for_operation(&Operation::Input(c.input)).rank(), 0);
}

#[test]
fn cycle_is_reported() {
    let mut circuit: Circuit<TestGate> = Circuit::new();
    let id = circuit.add_subcircuit().unwrap();
    let sub = circuit.get_mut(id).unwrap();
    let (_i0, v0) = sub.add_input(0).unwrap();
    let (g0, v1) = sub.add_gate(&[v0], TestGate::Not).unwrap();
    let (g1, v2) = sub.add_gate(&[v1[0]], TestGate::Not).unwrap();
    let o0 = sub.add_output(v2[0]).unwrap();
    sub.rewire_destination(v0, v2[0], Consumer::Gate(g0), PortId::new(0)).unwrap();
    let expected = vec![Operation::Gate(g0), Operation::Gate(g1), Operation::Output(o0)];
    match TopologicalOrder::run(&circuit) {
        Err(Error::CycleDetected(ops)) => assert_eq!(ops, expected),
        _ => panic!("expected a cycle"),
    }
    match ScheduledOrder::run(&circuit) {
        Err(Error::CycleDetected(ops)) => assert_eq!(ops, expected),
        _ => panic!("expected a cycle"),
    }
    assert!(ValueLiveness::run(&circuit).is_err());
}

#[test]
fn live_ranges_follow_schedule() {
    let (circuit, id, a, b) = two_chains();
    let liveness = ValueLiveness::run(&circuit).unwrap();
    let sub = liveness.for_subcircuit(id).unwrap();
    assert_eq!(sub.get(a.input_value), Some(&LiveRange { birth: 0, death: 2 }));
    assert_eq!(sub.get(a.gate_value), Some(&LiveRange { birth: 1, death: 3 }));
    assert_eq!(sub.get(b.input_value), Some(&LiveRange { birth: 3, death: 5 }));
    assert_eq!(sub.get(b.gate_value), Some(&LiveRange { birth: 4, death: 6 }));
    assert_eq!(sub.live_at(1), vec![a.input_value, a.gate_value]);
    assert_eq!(sub.all_ranges().len(), 4);
}

#[test]
fn live_range_arithmetic() {
    let r = LiveRange { birth: 2, death: 5 };
    let s = LiveRange { birth: 5, death: 7 };
    let t = LiveRange { birth: 4, death: 6 };
    assert_eq!(r.len(), 3);
    assert!(!r.is_empty());
    assert!(!r.overlaps(&s));
    assert!(r.overlaps(&t));
    assert!(LiveRange { birth: 3, death: 3 }.is_empty());
    assert_eq!(LiveRange { birth: 4, death: 1 }.len(), 0);
}

#[test]
fn registers_reused_after_death() {
    let (circuit, id, a, b) = two_chains();
    let alloc = RegisterAllocation::run(&circuit).unwrap();
    let sub = alloc.for_subcircuit(id).unwrap();
    assert_eq!(sub.get(a.input_value), Some(0));
    assert_eq!(sub.get(a.gate_value), Some(1));
    assert_eq!(sub.get(b.input_value), Some(0));
    assert_eq!(sub.get(b.gate_value), Some(1));
    assert_eq!(sub.peak_for_type(0), 2);
    assert_eq!(sub.peak_for_type(9), 0);
    assert_eq!(sub.peak_usage(), &[(0u8, 2usize)]);
}

#[test]
fn components_of_two_chains() {
    let (circuit, id, a, b) = two_chains();
    let comps = ConnectedComponents::run(&circuit);
    let sub = comps.for_subcircuit(id).unwrap();
    assert_eq!(sub.count(), 2);
    assert!(sub.is_disjoint());
    assert_eq!(sub.component_of(Operation::Input(a.input)), Some(0));
    assert_eq!(sub.component_of(Operation::Input(b.input)), Some(1));
    assert_eq!(sub.component_of(Operation::Gate(a.gate)), Some(0));
    assert_eq!(sub.component_of(Operation::Output(b.output)), Some(1));
    assert_eq!(sub.component_size(0), 3);
    assert_eq!(sub.component_size(1), 3);
    assert_eq!(sub.component_size(2), 0);
    assert_eq!(sub.largest_component(), 1);
    assert_eq!(
        sub.operations_in(1),
        vec![Operation::Input(b.input), Operation::Gate(b.gate), Operation::Output(b.output)]
    );
    assert_eq!(sub.component_ids(), vec![0, 1]);
    assert!(comps.has_disjoint_subcircuits());
}

#[test]
fn components_of_one_chain() {
    let (circuit, id, c) = chain_circuit();
    let comps = ConnectedComponents::run(&circuit);
    let sub = comps.for_subcircuit(id).unwrap();
    assert_eq!(sub.count(), 1);
    assert!(!sub.is_disjoint());
    assert_eq!(sub.component_of(Operation::Output(c.output)), Some(0));
    assert_eq!(sub.largest_component(), 0);
    assert!(!comps.has_disjoint_subcircuits());
}

#[test]
fn ownership_issues_found() {
    let mut circuit: Circuit<TestGate> = Circuit::new();
    let id = circuit.add_subcircuit().unwrap();
    let sub = circuit.get_mut(id).unwrap();
    let (_i0, v0) = sub.add_input(0).unwrap();
    let (_g0, v1) = sub.add_gate(&[v0], TestGate::Not).unwrap();
    let (_g1, v2) = sub.add_gate(&[v0], TestGate::Not).unwrap();
    sub.add_output(v1[0]).unwrap();
    let issues = OwnershipIssues::run(&circuit);
    let own = issues.for_subcircuit(id).unwrap();
    assert!(!own.is_valid());
    assert_eq!(
        own.issues(),
        &[
            OwnershipIssue::Overconsumed { value: v0, move_count: 2 },
            OwnershipIssue::Leaked { value: v2[0] },
        ]
    );
    assert_eq!(own.overconsumed(), vec![(v0, 2)]);
    assert_eq!(own.leaked(), vec![v2[0]]);
    assert!(!issues.is_all_valid());
}

#[test]
fn ownership_valid_chain() {
    let (circuit, id, _) = chain_circuit();
    let issues = OwnershipIssues::run(&circuit);
    assert!(issues.for_subcircuit(id).unwrap().is_valid());
    assert!(issues.is_all_valid());
}

#[test]
fn unreachable_branch() {
    let mut circuit: Circuit<TestGate> = Circuit::new();
    let id = circuit.add_subcircuit().unwrap();
    let sub = circuit.get_mut(id).unwrap();
    let (i0, v0) = sub.add_input(0).unwrap();
    let (i1, v1) = sub.add_input(0).unwrap();
    let (g0, v2) = sub.add_gate(&[v0], TestGate::Not).unwrap();
    let (g1, v3) = sub.add_gate(&[v1], TestGate::Not).unwrap();
    sub.add_output(v2[0]).unwrap();
    let reach = ElementReachability::run(&circuit).unwrap();
    let r = reach.for_subcircuit(id).unwrap();
    assert!(r.is_value_reachable(v0));
    assert!(r.is_value_reachable(v2[0]));
    assert!(!r.is_value_reachable(v1));
    assert!(!r.is_value_reachable(v3[0]));
    assert!(r.is_operation_reachable(Operation::Gate(g0)));
    assert!(r.is_operation_reachable(Operation::Input(i0)));
    assert!(!r.is_operation_reachable(Operation::Gate(g1)));
    assert!(!r.is_operation_reachable(Operation::Input(i1)));
    assert_eq!(r.reachable_values().len(), 2);
}

#[test]
fn and_gate_joins_components() {
    let mut circuit: Circuit<TestGate> = Circuit::new();
    let id = circuit.add_subcircuit().unwrap();
    let sub = circuit.get_mut(id).unwrap();
    let (_i0, v0) = sub.add_input(0).unwrap();
    let (_i1, v1) = sub.add_input(0).unwrap();
    let (_g, v2) = sub.add_gate(&[v0, v1], TestGate::And).unwrap();
    sub.add_output(v2[0]).unwrap();
    let comps = ConnectedComponents::run(&circuit);
    let c = comps.for_subcircuit(id).unwrap();
    assert_eq!(c.count(), 1);
    assert_eq!(c.component_size(0), 4);
}

#[test]
fn split_moves_a_chain() {
    let (mut circuit, id, a, b) = two_chains();
    let new_id = circuit
        .split_subcircuit(id, &[Operation::Input(b.input), Operation::Gate(b.gate), Operation::Output(b.output)])
        .unwrap();
    let source = circuit.get(id).unwrap();
    assert_eq!(
        source.all_operations(),
        vec![Operation::Input(a.input), Operation::Gate(a.gate), Operation::Output(a.output)]
    );
    let extracted = circuit.get(new_id).unwrap();
    assert_eq!(extracted.id(), new_id);
    assert_eq!(extracted.all_inputs().len(), 1);
    assert_eq!(extracted.all_gates().len(), 1);
    assert_eq!(extracted.all_outputs().len(), 1);
    assert_eq!(extracted.all_values().len(), 2);
    let comps = ConnectedComponents::run(&circuit);
    assert!(!comps.has_disjoint_subcircuits());
    assert_eq!(comps.iter().len(), 2);
}

#[test]
fn split_unknown_subcircuit() {
    let (mut circuit, id, _, _) = two_chains();
    circuit.remove_subcircuit(id);
    match circuit.split_subcircuit(id, &[]) {
        Err(Error::CircuitNotFound(missing)) => assert_eq!(missing, id),
        _ => panic!("expected CircuitNotFound"),
    }
}

#[test]
fn component_validity_flags_incomplete_workflows() {
    let mut circuit: Circuit<TestGate> = Circuit::new();
    let id = circuit.add_subcircuit().unwrap();
    let sub = circuit.get_mut(id).unwrap();
    let (_i0, v0) = sub.add_input(0).unwrap();
    let (_i1, v1) = sub.add_input(0).unwrap();
    let (_g0, v2) = sub.add_gate(&[v0], TestGate::Not).unwrap();
    let (_g1, _v3) = sub.add_gate(&[v1], TestGate::Not).unwrap();
    sub.add_output(v2[0]).unwrap();
    let validity = component_validity(&circuit);
    assert_eq!(validity.len(), 1);
    assert_eq!(validity[0].0, id);
    assert_eq!(validity[0].1.get_invalid(), vec![1]);
    assert_eq!(validity[0].1.get_valid(), vec![0]);
}

#[test]
fn component_validity_complete_chains() {
    let (circuit, _, _, _) = two_chains();
    let validity = component_validity(&circuit);
    assert_eq!(validity[0].1.get_invalid(), Vec::<usize>::new());
    assert_eq!(validity[0].1.get_valid(), vec![0, 1]);
}

#[test]
fn diamond_orders_respect_every_use() {
    let mut circuit: Circuit<TestGate> = Circuit::new();
    let id = circuit.add_subcircuit().unwrap();
    let sub = circuit.get_mut(id).unwrap();
    let (i0, v0) = sub.add_input(0).unwrap();
    let (c0, copies) = sub.add_clone(v0, 2).unwrap();
    let (g0, a) = sub.add_gate(&[copies[0]], TestGate::Not).unwrap();
    let (g1, b) = sub.add_gate(&[copies[1]], TestGate::Not).unwrap();
    let (g2, out) = sub.add_gate(&[a[0], b[0]], TestGate::And).unwrap();
    let d0 = sub.add_drop(v0).unwrap();
    let o0 = sub.add_output(out[0]).unwrap();
    let uses = [
        (Operation::Input(i0), Operation::Clone(c0)),
        (Operation::Input(i0), Operation::Drop(d0)),
        (Operation::Clone(c0), Operation::Gate(g0)),
        (Operation::Clone(c0), Operation::Gate(g1)),
        (Operation::Gate(g0), Operation::Gate(g2)),
        (Operation::Gate(g1), Operation::Gate(g2)),
        (Operation::Gate(g2), Operation::Output(o0)),
    ];
    let topo = TopologicalOrder::run(&circuit).unwrap();
    let sched = ScheduledOrder::run(&circuit).unwrap();
    for order in [topo.for_subcircuit(id).unwrap().iter(), sched.for_subcircuit(id).unwrap().iter()] {
        assert_eq!(order.len(), 7);
        for (k, op) in order.iter().enumerate() {
            assert_eq!(order.iter().position(|x| x == op), Some(k));
        }
        for (p, c) in uses.iter() {
            let pp = order.iter().position(|x| x == p).unwrap();
            let cp = order.iter().position(|x| x == c).unwrap();
            assert!(pp < cp);
        }
    }
    let schedule = sched.for_subcircuit(id).unwrap();
    assert_eq!(schedule.position(Operation::Drop(d0)), Some(1));
    assert_eq!(schedule.position(Operation::Clone(c0)), Some(2));
    let liveness = ValueLiveness::run(&circuit).unwrap();
    let ranges = liveness.for_subcircuit(id).unwrap();
    let r0 = ranges.get(v0).unwrap();
    assert_eq!(r0.birth, 0);
    assert_eq!(r0.death, 3);
    for (vid, range) in ranges.iter() {
        assert!(range.birth < range.death);
        let _ = vid;
    }
    let comps = ConnectedComponents::run(&circuit);
    let c = comps.for_subcircuit(id).unwrap();
    assert_eq!(c.count(), 1);
    assert_eq!(c.component_size(0), 7);
    let issues = OwnershipIssues::run(&circuit);
    assert!(issues.for_subcircuit(id).unwrap().is_valid());
}

#[test]
fn component_sizes_add_up() {
    let (circuit, id, _, _) = two_chains();
    let comps = ConnectedComponents::run(&circuit);
    let c = comps.for_subcircuit(id).unwrap();
    let total: usize = c.component_ids().iter().map(|&k| c.component_size(k)).sum();
    assert_eq!(total, 6);
    for k in c.component_ids() {
        assert!(c.component_size(k) >= 1);
    }
}

#[test]
fn gate_port_lists_follow_port_methods() {
    assert_eq!(TestGate::And.input_types().unwrap(), vec![0u8, 0u8]);
    assert_eq!(TestGate::Not.output_types().unwrap(), vec![0u8]);
    let modes = TestGate::And.access_modes().unwrap();
    assert_eq!(modes.len(), 2);
    assert!(matches!(modes[0], Ownership::Move));
    assert!(matches!(modes[1], Ownership::Move));
}

#[test]
fn add_gate_reports_gate_input_count() {
    let mut circuit: Circuit<TestGate> = Circuit::new();
    let id = circuit.add_subcircuit().unwrap();
    let sub = circuit.get_mut(id).unwrap();
    let (_, v0) = sub.add_input(0).unwrap();
    let before = sub.all_operations().len();
    match sub.add_gate(&[v0], TestGate::And) {
        Err(Error::InvalidInputCount(expected, got)) => {
            assert_eq!(expected, 2);
            assert_eq!(got, 1);
        }
        _ => panic!("expected InvalidInputCount"),
    }
    assert_eq!(sub.all_operations().len(), before);
    let (_, outs) = sub.add_gate(&[v0, v0], TestGate::And).unwrap();
    assert_eq!(outs.len(), 1);
    assert_eq!(sub.value(outs[0]).unwrap().get_type(), 0u8);
}

#[test]
fn gate_op_new_checks_counts_in_order() {
    let (_, _, c) = chain_circuit();
    let v = c.input_value;
    assert!(matches!(GateOp::new(TestGate::And, vec![v], vec![]), Err(Error::InvalidInputCount(2, 1))));
    assert!(matches!(GateOp::new(TestGate::Not, vec![v], vec![]), Err(Error::InvalidOutputCount(1, 0))));
    let op = GateOp::new(TestGate::Not, vec![v], vec![v]).unwrap();
    assert_eq!(op.get_inputs(), &[v]);
    assert_eq!(op.get_outputs(), &[v]);
}

#[test]
fn circuit_ids_reach_every_subcircuit() {
    let (mut circuit, id, _, _) = two_chains();
    let other = circuit.add_subcircuit().unwrap();
    let ids = circuit.ids();
    assert_eq!(ids, vec![id, other]);
    for i in ids {
        assert!(circuit.get_mut(i).is_some());
    }
}

#[test]
fn split_moves_a_gate_chain_and_its_drop() {
    let mut circuit: Circuit<TestGate> = Circuit::new();
    let id = circuit.add_subcircuit().unwrap();
    let sub = circuit.get_mut(id).unwrap();
    let (i0, v0) = sub.add_input(0).unwrap();
    let (g1, o1) = sub.add_gate(&[v0], TestGate::Not).unwrap();
    let (g2, o2) = sub.add_gate(&[o1[0]], TestGate::Not).unwrap();
    let (c, copies) = sub.add_clone(o2[0], 2).unwrap();
    let d = sub.add_drop(copies[0]).unwrap();
    let out = sub.add_output(copies[1]).unwrap();
    let (_, v3) = sub.add_input(0).unwrap();
    let kept_drop = sub.add_drop(v3).unwrap();
    let new_id = circuit
        .split_subcircuit(
            id,
            &[
                Operation::Gate(g2),
                Operation::Gate(g1),
                Operation::Input(i0),
                Operation::Clone(c),
                Operation::Drop(d),
                Operation::Output(out),
            ],
        )
        .unwrap();
    let source = circuit.get(id).unwrap();
    assert_eq!(source.all_inputs().len(), 1);
    assert_eq!(source.all_gates().len(), 0);
    assert_eq!(source.all_drops().len(), 1);
    assert_eq!(source.all_drops()[0].0, kept_drop);
    let moved = circuit.get(new_id).unwrap();
    assert_eq!(moved.all_inputs().len(), 1);
    assert_eq!(moved.all_gates().len(), 2);
    assert_eq!(moved.all_clones().len(), 1);
    assert_eq!(moved.all_drops().len(), 1);
    assert_eq!(moved.all_outputs().len(), 1);
    assert_eq!(moved.all_values().len(), 5);
}
