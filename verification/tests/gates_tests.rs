use dpqa_rs::gates::TwoQubitGate;
use dpqa_rs::gates::TwoQubitGateType::CX;
use dpqa_rs::gates::TwoQubitGateType::CZ;

#[test]
fn parallel_is_symmetric() {
    let a = TwoQubitGate::new(CX, 0, 1);
    let b = TwoQubitGate::new(CZ, 2, 3);
    let c = TwoQubitGate::new(CZ, 1, 4);
    assert!(a.parallel_with(&b));
    assert!(b.parallel_with(&a));
    assert!(!a.parallel_with(&c));
    assert!(!c.parallel_with(&a));
}

#[test]
fn commutation_is_symmetric() {
    let cases = [
        (TwoQubitGate::new(CX, 0, 1), TwoQubitGate::new(CX, 0, 2)),
        (TwoQubitGate::new(CX, 0, 1), TwoQubitGate::new(CX, 1, 2)),
        (TwoQubitGate::new(CX, 0, 1), TwoQubitGate::new(CZ, 2, 1)),
        (TwoQubitGate::new(CZ, 0, 1), TwoQubitGate::new(CZ, 1, 2)),
        (TwoQubitGate::new(CZ, 0, 1), TwoQubitGate::new(CX, 3, 1)),
    ];
    for (a, b) in cases {
        assert_eq!(a.commutes_with(&b), b.commutes_with(&a));
    }
}

#[test]
fn commutation_is_reflexive_on_identical_gates() {
    let a = TwoQubitGate::new(CX, 3, 7);
    let b = TwoQubitGate::new(CZ, 2, 0);
    assert!(a.commutes_with(&a));
    assert!(b.commutes_with(&b));
}

#[test]
fn commutation_follows_the_gate_algebra() {
    // two CZs always commute, even sharing a qubit
    assert!(TwoQubitGate::new(CZ, 0, 1).commutes_with(&TwoQubitGate::new(CZ, 1, 2)));
    // two CXs commute unless one's control is the other's target
    assert!(TwoQubitGate::new(CX, 0, 1).commutes_with(&TwoQubitGate::new(CX, 0, 2)));
    assert!(!TwoQubitGate::new(CX, 0, 1).commutes_with(&TwoQubitGate::new(CX, 1, 2)));
    // a CX and a CZ commute unless their targets coincide
    assert!(TwoQubitGate::new(CX, 0, 1).commutes_with(&TwoQubitGate::new(CZ, 1, 2)));
    assert!(!TwoQubitGate::new(CX, 0, 1).commutes_with(&TwoQubitGate::new(CZ, 2, 1)));
}
