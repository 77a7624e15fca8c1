use qsim::computer::{select_outcome, Lcg, QuantumComputer, RandomSource};
use qsim::complex::Complex;
use qsim::gate::Gate;
use qsim::gates;
use qsim::matrix::Matrix;
use qsim::Error;

/// A random source that replays a fixed script of draws.
struct Scripted {
    draws: Vec<u32>,
    next: usize,
}

impl Scripted {
    fn new(draws: Vec<u32>) -> Scripted {
        Scripted { draws, next: 0 }
    }
}

impl RandomSource for Scripted {
    fn next_u32(&mut self) -> u32 {
        let d = self.draws[self.next];
        self.next += 1;
        d
    }
}

#[test]
fn initialize_then_collapse_is_deterministic() {
    // A three-qubit register initialized to five measures five, whatever the
    // random draw.
    for draw in [0u32, 1, u32::MAX / 2, u32::MAX] {
        let mut c = QuantumComputer::new(3);
        c.initialize(5).unwrap();
        let mut src = Scripted::new(vec![draw]);
        let m = c.collapse(&mut src).unwrap();
        assert_eq!(m, 5);
        assert_eq!(c.value().unwrap(), 5);
    }
}

#[test]
fn initialize_rejects_out_of_range_basis_value() {
    let mut c = QuantumComputer::new(2);
    assert!(matches!(c.initialize(4), Err(Error::InvalidBasisState)));
    assert!(matches!(c.initialize(3), Ok(())));
}

#[test]
fn lifecycle_errors() {
    let mut c = QuantumComputer::new(1);
    // collapse before initialize
    let mut src = Lcg::new(7);
    assert!(matches!(c.collapse(&mut src), Err(Error::InvalidState)));
    // value before collapse
    assert!(matches!(c.value(), Err(Error::NotYetMeasured)));
    // apply before initialize
    let g = gates::identity(1);
    assert!(matches!(c.apply(&g), Err(Error::InvalidState)));
    // gate of the wrong size
    c.initialize(0).unwrap();
    let g2 = gates::identity(2);
    assert!(matches!(c.apply(&g2), Err(Error::GateSizeMismatch)));
    // double initialize
    assert!(matches!(c.initialize(0), Err(Error::InvalidState)));
}

#[test]
fn identity_gate_leaves_amplitudes_unchanged() {
    let mut c = QuantumComputer::new(2);
    c.initialize(2).unwrap();
    let before: Vec<Complex> = (0..4).map(|i| c.amplitude(i)).collect();
    let scale_before = c.scale();
    c.apply(&gates::identity(2)).unwrap();
    for (i, b) in before.iter().enumerate() {
        assert_eq!(c.amplitude(i), *b);
    }
    assert_eq!(c.scale(), scale_before);
}

#[test]
fn hadamard_twice_restores_the_state() {
    // H * H = I: after two applications every amplitude is doubled and the
    // scale is two higher, which denotes the original state exactly.
    let mut c = QuantumComputer::new(1);
    c.initialize(1).unwrap();
    let h = gates::hadamard(1);
    c.apply(&h).unwrap();
    c.apply(&h).unwrap();
    assert_eq!(c.scale(), 2);
    let a0 = c.amplitude(0);
    let a1 = c.amplitude(1);
    assert_eq!((a0.re, a0.im), (0, 0));
    assert_eq!((a1.re, a1.im), (2, 0));
}

#[test]
fn hadamard_matrix_has_unit_entries_and_scale() {
    let h = gates::hadamard(1);
    let m = h.matrix();
    assert_eq!(m.dimension(), 2);
    assert_eq!(m.scale(), 1);
    assert_eq!((m.get(0, 0).re, m.get(0, 1).re), (1, 1));
    assert_eq!((m.get(1, 0).re, m.get(1, 1).re), (1, -1));
    let h2 = gates::hadamard(2);
    assert_eq!(h2.matrix().dimension(), 4);
    assert_eq!(h2.matrix().scale(), 2);
    assert_eq!(h2.matrix().get(3, 3).re, 1);
    assert_eq!(h2.matrix().get(1, 1).re, -1);
}

#[test]
fn collapse_returns_an_index_in_range() {
    let mut seed = 1u64;
    for _ in 0..20 {
        let mut c = QuantumComputer::new(2);
        c.initialize(0).unwrap();
        c.apply(&gates::hadamard(2)).unwrap();
        let mut src = Lcg::new(seed);
        let m = c.collapse(&mut src).unwrap();
        assert!(m < 4);
        assert_eq!(c.value().unwrap(), m);
        seed = seed.wrapping_mul(31).wrapping_add(11);
    }
}

#[test]
fn collapse_follows_the_cumulative_weights() {
    // A one-qubit register after one Hadamard holds weight one on each basis
    // index, total two: draws below half pick zero, the rest pick one.
    let mut c = QuantumComputer::new(1);
    c.initialize(0).unwrap();
    c.apply(&gates::hadamard(1)).unwrap();
    let amps = vec![c.amplitude(0), c.amplitude(1)];
    assert_eq!(select_outcome(&amps, 0), 0);
    assert_eq!(select_outcome(&amps, (1u64 << 31) as u32 - 1), 0);
    assert_eq!(select_outcome(&amps, (1u64 << 31) as u32), 1);
    assert_eq!(select_outcome(&amps, u32::MAX), 1);
}

#[test]
fn collapse_never_picks_a_zero_weight_index() {
    // Weights (0, 1): every draw picks index one.
    let amps = vec![Complex::new(0, 0), Complex::new(1, 0)];
    for draw in [0u32, 1, 1 << 16, u32::MAX] {
        assert_eq!(select_outcome(&amps, draw), 1);
    }
}

#[test]
fn collapse_frequencies_match_the_weights() {
    // Weights 1 and 2 (amplitudes 1 and 1 + i), total 3: a third of the draw
    // space picks index zero.
    let amps = vec![Complex::new(1, 0), Complex::new(1, 1)];
    let trials = 3000u64;
    let mut zeros = 0u64;
    for t in 0..trials {
        let draw = ((t * ((1u64 << 32) / trials)) & 0xFFFF_FFFF) as u32;
        if select_outcome(&amps, draw) == 0 {
            zeros += 1;
        }
    }
    let frac = zeros as f64 / trials as f64;
    assert!((frac - 1.0 / 3.0).abs() < 0.01);
}

#[test]
fn second_collapse_is_refused() {
    let mut c = QuantumComputer::new(1);
    c.initialize(0).unwrap();
    let mut src = Lcg::new(3);
    c.collapse(&mut src).unwrap();
    assert!(matches!(c.collapse(&mut src), Err(Error::InvalidState)));
}

#[test]
fn lcg_is_reproducible() {
    let mut a = Lcg::new(42);
    let mut b = Lcg::new(42);
    for _ in 0..5 {
        assert_eq!(a.next_u32(), b.next_u32());
    }
}

#[test]
fn gate_construction_checks_the_dimension() {
    let m = Matrix::identity(4);
    assert!(matches!(Gate::new(1, m), Err(Error::GateSizeMismatch)));
    let m2 = Matrix::identity(4);
    let g = Gate::new(2, m2).unwrap();
    assert_eq!(g.num_qubits(), 2);
    assert_eq!(g.matrix().dimension(), 4);
}
