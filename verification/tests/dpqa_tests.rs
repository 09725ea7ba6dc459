use dpqa_rs::circuit::Circuit;
use dpqa_rs::dpqa::DPQA;
use dpqa_rs::gates::TwoQubitGate;
use dpqa_rs::gates::TwoQubitGateType::CX;
use dpqa_rs::gates::TwoQubitGateType::CZ;
use dpqa_rs::instruction::DPQAInstruction;
use dpqa_rs::result::DPQAResult;

#[test]
fn dpqa_one_gate() {
    let mut circuit = Circuit::new();
    circuit.append(TwoQubitGate::new(CZ, 0, 1));

    let dpqa = DPQA::new(2, 1);
    assert!(matches!(dpqa.solve(&circuit), DPQAResult::Succeeded(_)));
}

#[test]
/// Circuit requiring one move
fn dpqa_two_gates() {
    let mut circuit = Circuit::new();
    circuit.append(TwoQubitGate::new(CZ, 0, 1));
    circuit.append(TwoQubitGate::new(CZ, 1, 2));

    let dpqa = DPQA::new(2, 1);
    let result = dpqa.solve(&circuit);

    if let DPQAResult::Succeeded(instructions) = result {
        assert!(instructions.len() > 0);
    } else {
        assert!(false)
    }
}

#[test]
/// Circuit requiring one row/column move
fn four_gates() {
    let mut circuit = Circuit::new();

    circuit.append(TwoQubitGate::new(CZ, 0, 2));
    circuit.append(TwoQubitGate::new(CZ, 1, 3));
    circuit.append(TwoQubitGate::new(CZ, 2, 4));
    circuit.append(TwoQubitGate::new(CZ, 3, 5));
    circuit.recalculate_stages();

    let dpqa = DPQA::new(2, 2);
    let result = dpqa.solve(&circuit);

    if let DPQAResult::Succeeded(instructions) = result {
        assert!(instructions.len() > 0);
    } else {
        assert!(false)
    }
}

#[test]
/// Circuit requiring two row/column moves
fn six_gates() {
    let mut circuit = Circuit::new();

    circuit.append(TwoQubitGate::new(CZ, 0, 2));
    circuit.append(TwoQubitGate::new(CZ, 1, 3));
    circuit.append(TwoQubitGate::new(CZ, 0, 4));
    circuit.append(TwoQubitGate::new(CZ, 1, 5));
    circuit.append(TwoQubitGate::new(CZ, 0, 6));
    circuit.append(TwoQubitGate::new(CZ, 1, 7));
    circuit.recalculate_stages();

    let dpqa = DPQA::new(3, 2);
    let result = dpqa.solve(&circuit);

    if let DPQAResult::Succeeded(instructions) = result {
        assert!(instructions.len() > 0);
    } else {
        assert!(false)
    }
}

#[test]
/// Circuit with three rounds of entangling pairs over six qubits
fn fig_2_circuit() {
    let mut circuit = Circuit::new();
    let qubit_pairs = [
        (2, 4),
        (3, 5),
        (0, 1),
        (2, 3),
        (4, 5),
        (0, 2),
        (1, 3),
        (0, 4),
        (1, 5),
    ];
    for p in qubit_pairs {
        circuit.append(TwoQubitGate::new(CZ, p.0, p.1));
    }
    assert!(!circuit.renumber_qubits());
    assert!(circuit.recalculate_stages());
    assert_eq!(circuit.get_n_stages(), 4);

    let dpqa = DPQA::new(2, 4);
    let result = dpqa.solve(&circuit);

    if let DPQAResult::Succeeded(instructions) = result {
        assert!(instructions.len() > 0);
    } else {
        assert!(false)
    }
}

#[test]
// Check that different gate types are separated into different stages
fn gate_types_separated() {
    let mut circuit = Circuit::new();

    circuit.append(TwoQubitGate::new(CZ, 0, 2));
    circuit.append(TwoQubitGate::new(CZ, 1, 3));
    circuit.append(TwoQubitGate::new(CX, 4, 5));
    circuit.append(TwoQubitGate::new(CX, 6, 7));
    circuit.recalculate_stages();

    // All four gates act on disjoint qubits, so they share one stage; the
    // kind-separation constraint then needs a second time step to place
    // the CX gates after the CZ gates.
    // We need at least 6 total sites so that we can keep qubits 4-7
    // separated when we run the gates on qubits 0-4, and vice versa.
    {
        let mut dpqa_too_small = DPQA::new(2, 2);
        dpqa_too_small.set_extra_stages(1);
        let failed = dpqa_too_small.solve(&circuit);
        assert!(failed == DPQAResult::Failed);
    }

    let mut dpqa = DPQA::new(2, 3);
    dpqa.set_extra_stages(1);
    let result = dpqa.solve(&circuit);

    if let DPQAResult::Succeeded(instructions) = result {
        assert!(instructions.len() > 0);
    } else {
        assert!(false)
    }
}

#[test]
/// A single gate fits a single stage on any grid: its two atoms may share
/// the one site, one in a stationary trap and one held by the AOD. A
/// third qubit no longer fits a single site.
fn single_gate_site_budget() {
    let mut circuit = Circuit::new();
    circuit.append(TwoQubitGate::new(CZ, 0, 1));

    let tiny = DPQA::new(1, 1);
    assert!(matches!(tiny.solve(&circuit), DPQAResult::Succeeded(_)));

    let wide = DPQA::new(1, 2);
    assert!(matches!(wide.solve(&circuit), DPQAResult::Succeeded(_)));

    let mut crowded = Circuit::new();
    crowded.append(TwoQubitGate::new(CZ, 0, 1));
    crowded.append(TwoQubitGate::new(CZ, 0, 2));
    assert!(tiny.solve(&crowded) == DPQAResult::Failed);
}

#[test]
/// Extra stages keep a solvable instance solvable while every qubit keeps
/// a site of its own
fn extra_stages_keep_success() {
    let mut circuit = Circuit::new();
    circuit.append(TwoQubitGate::new(CZ, 0, 1));

    let dpqa = DPQA::new(2, 1);
    assert!(matches!(dpqa.solve(&circuit), DPQAResult::Succeeded(_)));

    let mut relaxed = DPQA::new(2, 1);
    relaxed.set_extra_stages(1);
    assert!(matches!(relaxed.solve(&circuit), DPQAResult::Succeeded(_)));

    let mut more = DPQA::new(2, 1);
    more.set_extra_stages(2);
    assert!(matches!(more.solve(&circuit), DPQAResult::Succeeded(_)));
}

#[test]
/// An empty circuit yields an empty plan
fn empty_circuit() {
    let circuit = Circuit::new();
    let dpqa = DPQA::new(2, 2);
    if let DPQAResult::Succeeded(instructions) = dpqa.solve(&circuit) {
        assert_eq!(instructions.len(), 0);
    } else {
        assert!(false)
    }
}

#[test]
/// The minimal plan: one initialization per qubit, then the one gate
fn minimal_plan_shape() {
    let mut circuit = Circuit::new();
    circuit.append(TwoQubitGate::new(CZ, 0, 1));

    let dpqa = DPQA::new(2, 1);
    if let DPQAResult::Succeeded(instructions) = dpqa.solve(&circuit) {
        assert_eq!(instructions.len(), 3);
        assert!(matches!(instructions[0], DPQAInstruction::Init { qubit: 0, .. }));
        assert!(matches!(instructions[1], DPQAInstruction::Init { qubit: 1, .. }));
        match &instructions[2] {
            DPQAInstruction::Gate(gs) => {
                assert_eq!(*gs, vec![TwoQubitGate::new(CZ, 0, 1)]);
            },
            _ => assert!(false),
        }
        // the two atoms start at distinct sites only if their gate fires
        // later than the initial placement, or they already coincide; on a
        // 2x1 grid with one stage the pair must share the site at stage 0
        match (&instructions[0], &instructions[1]) {
            (
                DPQAInstruction::Init { x: x0, y: y0, .. },
                DPQAInstruction::Init { x: x1, y: y1, .. },
            ) => {
                assert!(x0 == x1 && y0 == y1);
            },
            _ => assert!(false),
        }
    } else {
        assert!(false)
    }
}
