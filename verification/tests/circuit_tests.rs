use dpqa_rs::circuit::Circuit;
use dpqa_rs::gates::TwoQubitGate;
use dpqa_rs::gates::TwoQubitGateType::CX;
use dpqa_rs::gates::TwoQubitGateType::CZ;

#[test]
fn circuit_one_gate() {
    let mut circuit = Circuit::new();
    circuit.append(TwoQubitGate::new(CX, 0, 1));
    assert_eq!(circuit.get_n_qubits(), 2);
}

#[test]
fn circuit_two_gates() {
    let mut circuit = Circuit::new();
    circuit.append(TwoQubitGate::new(CX, 0, 1));
    circuit.append(TwoQubitGate::new(CZ, 0, 1));
    assert_eq!(circuit.get_n_qubits(), 2);
}

#[test]
fn renumber() {
    let mut circuit = Circuit::new();
    circuit.append(TwoQubitGate::new(CX, 1, 2));
    circuit.append(TwoQubitGate::new(CZ, 2, 5));
    assert_eq!(circuit.get_n_qubits(), 6);
    assert!(circuit.renumber_qubits());
    assert_eq!(circuit.get_n_qubits(), 3);
}

#[test]
fn restage_1() {
    let mut circuit = Circuit::new();
    circuit.append(TwoQubitGate::new(CX, 0, 1));
    circuit.append(TwoQubitGate::new(CZ, 2, 3));
    assert_eq!(circuit.get_n_stages(), 2);
    assert!(circuit.recalculate_stages());
    assert_eq!(circuit.get_n_stages(), 1);
}

#[test]
fn restage_2() {
    let mut circuit = Circuit::new();
    circuit.append(TwoQubitGate::new(CX, 0, 1));
    circuit.append(TwoQubitGate::new(CX, 1, 2));
    circuit.append(TwoQubitGate::new(CX, 3, 2));
    circuit.append(TwoQubitGate::new(CX, 2, 3));
    assert_eq!(circuit.get_n_stages(), 4);
    assert!(circuit.recalculate_stages());
    assert_eq!(circuit.get_n_stages(), 3);
}

#[test]
fn renumber_rewrites_gates_by_rank() {
    let mut circuit = Circuit::new();
    circuit.append(TwoQubitGate::new(CX, 1, 2));
    circuit.append(TwoQubitGate::new(CZ, 2, 5));
    assert!(circuit.renumber_qubits());
    assert_eq!(circuit.get_gate(0), TwoQubitGate::new(CX, 0, 1));
    assert_eq!(circuit.get_gate(1), TwoQubitGate::new(CZ, 1, 2));
}

#[test]
fn renumber_is_idempotent() {
    let mut circuit = Circuit::new();
    circuit.append(TwoQubitGate::new(CX, 1, 2));
    circuit.append(TwoQubitGate::new(CZ, 2, 5));
    assert!(circuit.renumber_qubits());
    assert!(!circuit.renumber_qubits());
    assert_eq!(circuit.get_n_qubits(), 3);
}

#[test]
fn renumber_contiguous_reports_unchanged() {
    let mut circuit = Circuit::new();
    circuit.append(TwoQubitGate::new(CZ, 0, 1));
    circuit.append(TwoQubitGate::new(CZ, 1, 2));
    assert!(!circuit.renumber_qubits());
    assert_eq!(circuit.get_n_qubits(), 3);
    assert_eq!(circuit.get_gate(0), TwoQubitGate::new(CZ, 0, 1));
}

#[test]
fn restage_is_idempotent() {
    let mut circuit = Circuit::new();
    circuit.append(TwoQubitGate::new(CX, 0, 1));
    circuit.append(TwoQubitGate::new(CZ, 2, 3));
    assert!(circuit.recalculate_stages());
    assert!(!circuit.recalculate_stages());
    assert_eq!(circuit.get_n_stages(), 1);
}

#[test]
fn qubit_count_is_one_plus_max_index() {
    let mut circuit = Circuit::new();
    assert_eq!(circuit.get_n_qubits(), 0);
    circuit.append(TwoQubitGate::new(CZ, 4, 9));
    assert_eq!(circuit.get_n_qubits(), 10);
    circuit.append(TwoQubitGate::new(CZ, 0, 3));
    assert_eq!(circuit.get_n_qubits(), 10);
    circuit.append(TwoQubitGate::new(CX, 12, 2));
    assert_eq!(circuit.get_n_qubits(), 13);
}

#[test]
fn ordering_pairs_come_from_consecutive_stages() {
    let mut circuit = Circuit::new();
    circuit.append(TwoQubitGate::new(CX, 0, 1));
    circuit.append(TwoQubitGate::new(CZ, 1, 2));
    assert!(!circuit.recalculate_stages());
    let pairs = circuit.get_gate_ordering();
    assert_eq!(pairs, vec![(0, 1)]);
}

#[test]
fn iter_walks_the_gates_in_order() {
    let mut circuit = Circuit::new();
    circuit.append(TwoQubitGate::new(CX, 0, 1));
    circuit.append(TwoQubitGate::new(CZ, 1, 2));
    let gates: Vec<TwoQubitGate> = circuit.iter().to_vec();
    assert_eq!(gates.len(), 2);
    assert_eq!(gates[0], TwoQubitGate::new(CX, 0, 1));
    assert_eq!(gates[1], TwoQubitGate::new(CZ, 1, 2));
    assert_eq!(circuit.get_n_two_qubit_gates(), 2);
}
