use qsim::computer::{Lcg, QuantumComputer};
use qsim::deutsch::{deutsch_algorithm, deutsch_gate, ConstantOracle, IdentityOracle, NegationOracle};
use qsim::Error;

#[test]
fn constant_one_oracle_is_constant() {
    let c = QuantumComputer::new(2);
    let mut src = Lcg::new(1);
    let r = deutsch_algorithm(c, &ConstantOracle { output: 1 }, &mut src).unwrap();
    assert_eq!(r, "constant");
}

#[test]
fn constant_zero_oracle_is_constant() {
    let c = QuantumComputer::new(2);
    let mut src = Lcg::new(2);
    let r = deutsch_algorithm(c, &ConstantOracle { output: 0 }, &mut src).unwrap();
    assert_eq!(r, "constant");
}

#[test]
fn balanced_oracle_is_balanced() {
    let c = QuantumComputer::new(2);
    let mut src = Lcg::new(3);
    let r = deutsch_algorithm(c, &IdentityOracle {}, &mut src).unwrap();
    assert_eq!(r, "balanced");
}

#[test]
fn outcome_does_not_depend_on_the_random_draws() {
    for seed in 0..10u64 {
        let c = QuantumComputer::new(2);
        let mut src = Lcg::new(seed);
        let r = deutsch_algorithm(c, &IdentityOracle {}, &mut src).unwrap();
        assert_eq!(r, "balanced");
        let c2 = QuantumComputer::new(2);
        let r2 = deutsch_algorithm(c2, &ConstantOracle { output: 1 }, &mut src).unwrap();
        assert_eq!(r2, "constant");
    }
}

#[test]
fn negated_bit_oracle_is_balanced() {
    // f(0) == 1, f(1) == 0: the exchange block sits at the top-left corner
    // only, and the oracle is balanced.
    let c = QuantumComputer::new(2);
    let mut src = Lcg::new(9);
    let r = deutsch_algorithm(c, &NegationOracle {}, &mut src).unwrap();
    assert_eq!(r, "balanced");
}

#[test]
fn deutsch_gate_is_the_expected_permutation() {
    // f(0) == 1 only: the top-left block is exchanged, the rest is identity.
    let g = deutsch_gate(true, false);
    let m = g.matrix();
    assert_eq!(m.dimension(), 4);
    assert_eq!((m.get(0, 1).re, m.get(1, 0).re), (1, 1));
    assert_eq!((m.get(0, 0).re, m.get(1, 1).re), (0, 0));
    assert_eq!((m.get(2, 2).re, m.get(3, 3).re), (1, 1));
    // f(1) == 1 only: the bottom-right block is exchanged.
    let g2 = deutsch_gate(false, true);
    let m2 = g2.matrix();
    assert_eq!((m2.get(2, 3).re, m2.get(3, 2).re), (1, 1));
    assert_eq!((m2.get(0, 0).re, m2.get(1, 1).re), (1, 1));
}

#[test]
fn deutsch_needs_a_two_qubit_register() {
    // The library rejects a gate applied to a register of another size; the
    // algorithm itself is only stated for two qubits, so a three-qubit
    // register fails on the first gate application.
    let mut c = QuantumComputer::new(3);
    c.initialize(1).unwrap();
    let g = deutsch_gate(true, true);
    assert!(matches!(c.apply(&g), Err(Error::GateSizeMismatch)));
}
