//! The quantum register: an `n`-qubit state machine over an exact amplitude
//! vector, with initialize / apply / collapse / value.
//!
//! The register stores Gaussian-integer amplitudes and a `sqrt(2)`-power
//! scale: amplitude `i` denotes `amplitudes[i] / sqrt(2)^scale`.  Measurement
//! uses inverse-CDF sampling over the exact integer weights `|amplitudes[i]|^2`,
//! so the scale cancels and no approximation enters.

use vstd::prelude::*;

use crate::complex::{c_mag2, c_one, c_zero, Complex, GaussInt};
use crate::gate::{pow2, Gate};
use crate::matrix::{bounded_seq, gauss_seq, mat_vec, MAX_DIM, MAX_ENTRY, MAX_SCALE};
use crate::Error;

verus! {

/// Largest accepted magnitude of an amplitude component (`2^31`): keeps every
/// weight and cumulative sum inside 128 bits during sampling.
pub const MAX_AMP: i64 = 2147483648;

/// The basis vector with a one at index `k` and zeros elsewhere.
pub open spec fn basis(len: int, k: int) -> Seq<GaussInt> {
    Seq::new(
        len as nat,
        |i: int|
            if i == k {
                c_one()
            } else {
                c_zero()
            },
    )
}

/// The all-zero amplitude vector.
pub open spec fn zero_vec(len: int) -> Seq<GaussInt> {
    Seq::new(len as nat, |i: int| c_zero())
}

/// Sum of the squared magnitudes of the first `n` amplitudes.
pub open spec fn cum(v: Seq<GaussInt>, n: int) -> int
    decreases n,
{
    if n <= 0 {
        0
    } else {
        cum(v, n - 1) + c_mag2(v[n - 1])
    }
}

/// The total weight of a state: `sum_i |v[i]|^2`.  For a state of scale `s`
/// this is `2^s` times the total probability; sampling uses only the ratios,
/// so the scale cancels.
pub open spec fn total_weight(v: Seq<GaussInt>) -> int {
    cum(v, v.len() as int)
}

/// The first index at or after `i` whose cumulative weight exceeds
/// `threshold / 2^32`, falling back to the last index.
pub open spec fn pick_from(v: Seq<GaussInt>, threshold: int, i: int) -> int
    decreases v.len() - i,
{
    if i >= v.len() - 1 {
        v.len() - 1
    } else if cum(v, i + 1) * 4294967296 > threshold {
        i
    } else {
        pick_from(v, threshold, i + 1)
    }
}

/// The measured outcome for a draw `r` (uniform in `[0, 2^32)`, denoting the
/// fraction `r / 2^32` of the total weight): the smallest index `i` with
/// `cum(v, i + 1) > (r / 2^32) * total_weight(v)`, exactly the inverse-CDF
/// sample.  Indices of weight zero are never picked.
pub open spec fn pick(v: Seq<GaussInt>, r: int) -> int {
    pick_from(v, r * total_weight(v), 0)
}

pub proof fn lemma_mag2_nonneg(g: GaussInt)
    by (nonlinear_arith)
    ensures
        c_mag2(g) >= 0,
{
}

pub proof fn lemma_cum_monotonic(v: Seq<GaussInt>, a: int, b: int)
    requires
        a <= b,
    ensures
        cum(v, a) <= cum(v, b),
    decreases b - a,
{
    if a < b {
        lemma_cum_monotonic(v, a, b - 1);
        lemma_mag2_nonneg(v[b - 1]);
    }
}

/// With every component in `[-MAX_AMP, MAX_AMP]`, each weight is at most
/// `2^63` and a cumulative sum of `n` of them at most `n * 2^63`.
pub proof fn lemma_cum_bound(v: Seq<GaussInt>, n: int)
    requires
        bounded_seq(v, MAX_AMP as int),
        0 <= n <= v.len(),
    ensures
        0 <= cum(v, n) <= n * 9223372036854775808,
    decreases n,
{
    if n <= 0 {
    } else {
        lemma_cum_bound(v, n - 1);
        crate::complex::lemma_mul_bound(v[n - 1].re, v[n - 1].re, MAX_AMP as int, MAX_AMP as int);
        crate::complex::lemma_mul_bound(v[n - 1].im, v[n - 1].im, MAX_AMP as int, MAX_AMP as int);
        lemma_mag2_nonneg(v[n - 1]);
        assert((MAX_AMP as int) * (MAX_AMP as int) == 4611686018427387904);
    }
}

/// Properties of the sampling scan: starting below the threshold, it lands on
/// an index whose cumulative weight first exceeds the threshold.
proof fn lemma_pick_from_props(v: Seq<GaussInt>, t: int, i: int)
    requires
        0 <= i < v.len(),
        cum(v, i) * 4294967296 <= t,
        t < total_weight(v) * 4294967296,
    ensures
        i <= pick_from(v, t, i) < v.len(),
        cum(v, pick_from(v, t, i)) * 4294967296 <= t,
        cum(v, pick_from(v, t, i) + 1) * 4294967296 > t,
    decreases v.len() - i,
{
    if i >= v.len() - 1 {
    } else if cum(v, i + 1) * 4294967296 > t {
    } else {
        lemma_pick_from_props(v, t, i + 1);
    }
}

/// The picked index always exists, lies in range, and carries positive
/// weight: a basis index with amplitude zero is never the outcome.
pub proof fn lemma_pick_props(v: Seq<GaussInt>, r: int)
    requires
        v.len() >= 1,
        0 <= r < 4294967296,
        total_weight(v) > 0,
    ensures
        0 <= pick(v, r) < v.len(),
        c_mag2(v[pick(v, r)]) > 0,
{
    let t = r * total_weight(v);
    assert(0 <= t && t < total_weight(v) * 4294967296) by (nonlinear_arith)
        requires
            0 <= r < 4294967296,
            total_weight(v) > 0,
            t == r * total_weight(v),
    {
    }
    lemma_pick_from_props(v, t, 0);
    let p = pick(v, r);
    assert(cum(v, p + 1) == cum(v, p) + c_mag2(v[p]));
}

/// The sampled index follows the cumulative weights exactly: the outcome is
/// `i` precisely for the draws `r` with
/// `cum(v, i) <= (r / 2^32) * total_weight(v) < cum(v, i + 1)`.  Over draws
/// uniform on `[0, 2^32)`, index `i` is therefore measured with probability
/// `|v[i]|^2 / total_weight(v)`, up to the draw's granularity.
pub proof fn lemma_pick_characterization(v: Seq<GaussInt>, r: int, i: int)
    requires
        v.len() >= 1,
        0 <= r < 4294967296,
        total_weight(v) > 0,
        0 <= i < v.len(),
    ensures
        pick(v, r) == i <==> (cum(v, i) * 4294967296 <= r * total_weight(v) && r * total_weight(v)
            < cum(v, i + 1) * 4294967296),
{
    let t = r * total_weight(v);
    assert(0 <= t && t < total_weight(v) * 4294967296) by (nonlinear_arith)
        requires
            0 <= r < 4294967296,
            total_weight(v) > 0,
            t == r * total_weight(v),
    {
    }
    lemma_pick_from_props(v, t, 0);
    let p = pick(v, r);
    if p != i && cum(v, i) * 4294967296 <= t && t < cum(v, i + 1) * 4294967296 {
        if i < p {
            lemma_cum_monotonic(v, i + 1, p);
            assert(cum(v, i + 1) * 4294967296 <= cum(v, p) * 4294967296);
        } else {
            lemma_cum_monotonic(v, p + 1, i);
            assert(cum(v, p + 1) * 4294967296 <= cum(v, i) * 4294967296);
        }
    }
}

/// Cumulative weights of a basis vector: zero up to and including `k`, one
/// beyond it.
pub proof fn lemma_basis_cum(len: int, k: int, n: int)
    requires
        0 <= k < len,
        0 <= n <= len,
    ensures
        cum(basis(len, k), n) == if n > k {
            1int
        } else {
            0int
        },
    decreases n,
{
    if n > 0 {
        lemma_basis_cum(len, k, n - 1);
    }
}

proof fn lemma_basis_pick_from(len: int, k: int, t: int, i: int)
    requires
        0 <= i <= k < len,
        0 <= t < 4294967296,
    ensures
        pick_from(basis(len, k), t, i) == k,
    decreases k - i,
{
    lemma_basis_cum(len, k, i + 1);
    if i >= len - 1 {
    } else if cum(basis(len, k), i + 1) * 4294967296 > t {
        assert(i == k) by {
            if i < k {
                assert(cum(basis(len, k), i + 1) == 0);
            }
        }
    } else {
        assert(i < k) by {
            if i == k {
                assert(cum(basis(len, k), i + 1) == 1);
            }
        }
        lemma_basis_pick_from(len, k, t, i + 1);
    }
}

/// Measuring a freshly initialized register is deterministic: whatever the
/// random draw, the outcome is the initialized basis value.
pub proof fn lemma_initialize_collapse_deterministic(len: int, k: int, r: int)
    requires
        0 <= k < len,
        0 <= r < 4294967296,
    ensures
        pick(basis(len, k), r) == k,
{
    lemma_basis_cum(len, k, len);
    assert(total_weight(basis(len, k)) == 1);
    lemma_basis_pick_from(len, k, r * 1, 0);
}

/// A source of uniform random draws for `collapse`.  It is an explicitly
/// injected capability, never an ambient global, so that a seeded or scripted
/// source makes outcomes reproducible under test.
pub trait RandomSource {
    /// The next draw, denoting the fraction `next_u32() / 2^32` in `[0, 1)`.
    fn next_u32(&mut self) -> u32;
}

/// A small deterministic linear-congruential generator, good enough for
/// demonstrations; tests may script their own `RandomSource` instead.
pub struct Lcg {
    state: u64,
}

impl Lcg {
    pub fn new(seed: u64) -> Lcg {
        Lcg { state: seed }
    }
}

impl RandomSource for Lcg {
    fn next_u32(&mut self) -> u32 {
        self.state = self.state.wrapping_mul(6364136223846793005).wrapping_add(
            1442695040888963407,
        );
        #[verifier::truncate]
        ((self.state >> 33) as u32)
    }
}

/// The lifecycle of a register.
#[derive(Clone, Copy, Debug, PartialEq, Eq, Structural)]
pub enum ComputerState {
    Uninitialized,
    Initialized,
    Collapsed,
}

/// An `n`-qubit register: `2^n` exact amplitudes, a `sqrt(2)`-power scale,
/// the lifecycle state and the measured value once collapsed.
pub struct QuantumComputer {
    num_qubits: u32,
    scale: u32,
    amplitudes: Vec<Complex>,
    state: ComputerState,
    measured_value: Option<usize>,
}

impl QuantumComputer {
    pub closed spec fn spec_num_qubits(&self) -> int {
        self.num_qubits as int
    }

    pub closed spec fn spec_scale(&self) -> int {
        self.scale as int
    }

    pub closed spec fn spec_amplitudes(&self) -> Seq<GaussInt> {
        gauss_seq(self.amplitudes@)
    }

    pub closed spec fn spec_state(&self) -> ComputerState {
        self.state
    }

    pub closed spec fn spec_measured(&self) -> Option<usize> {
        self.measured_value
    }

    pub open spec fn wf(&self) -> bool {
        &&& 1 <= self.spec_num_qubits() <= 15
        &&& self.spec_amplitudes().len() == pow2(self.spec_num_qubits() as nat)
        &&& 0 <= self.spec_scale() <= MAX_SCALE
        &&& bounded_seq(self.spec_amplitudes(), MAX_AMP as int)
        &&& (self.spec_state() is Collapsed <==> self.spec_measured() is Some)
        &&& (match self.spec_measured() {
            Some(m) => {
                &&& m < self.spec_amplitudes().len()
                &&& self.spec_amplitudes() == basis(self.spec_amplitudes().len() as int, m as int)
                &&& self.spec_scale() == 0
            },
            None => true,
        })
    }

    /// The two registers hold the same observable data.
    pub open spec fn same_register(a: &QuantumComputer, b: &QuantumComputer) -> bool {
        &&& a.spec_num_qubits() == b.spec_num_qubits()
        &&& a.spec_scale() == b.spec_scale()
        &&& a.spec_amplitudes() == b.spec_amplitudes()
        &&& a.spec_state() == b.spec_state()
        &&& a.spec_measured() == b.spec_measured()
    }

    /// A fresh register: all-zero amplitudes, not yet initialized.
    pub fn new(num_qubits: u32) -> (r: QuantumComputer)
        requires
            1 <= num_qubits <= 15,
        ensures
            r.wf(),
            r.spec_num_qubits() == num_qubits,
            r.spec_scale() == 0,
            r.spec_state() is Uninitialized,
            r.spec_measured() is None,
            r.spec_amplitudes() == zero_vec(pow2(num_qubits as nat) as int),
    {
        let dim = crate::gate::pow2_exec(num_qubits);
        let amplitudes = vec![Complex { re: 0, im: 0 };dim];
        let r = QuantumComputer {
            num_qubits,
            scale: 0,
            amplitudes,
            state: ComputerState::Uninitialized,
            measured_value: None,
        };
        proof {
            assert(r.spec_amplitudes() =~= zero_vec(pow2(num_qubits as nat) as int));
        }
        r
    }

    pub fn num_qubits(&self) -> (r: u32)
        ensures
            r == self.spec_num_qubits(),
    {
        self.num_qubits
    }

    /// The power `s` such that each stored amplitude denotes its value
    /// divided by `sqrt(2)^s`.
    pub fn scale(&self) -> (r: u32)
        ensures
            r == self.spec_scale(),
    {
        self.scale
    }

    pub fn amplitude(&self, i: usize) -> (r: Complex)
        requires
            i < self.spec_amplitudes().len(),
        ensures
            r@ == self.spec_amplitudes()[i as int],
    {
        self.amplitudes[i]
    }

    /// Sets the register to the classical basis state `basis_value`.
    ///
    /// Fails with `InvalidState` unless the register is fresh, and with
    /// `InvalidBasisState` exactly when `basis_value >= 2^num_qubits`.
    #[verifier::loop_isolation(false)]
    pub fn initialize(&mut self, basis_value: usize) -> (r: Result<(), Error>)
        requires
            old(self).wf(),
        ensures
            final(self).wf(),
            final(self).spec_num_qubits() == old(self).spec_num_qubits(),
            r == Err::<(), Error>(Error::InvalidState) <==> !(old(self).spec_state()
                is Uninitialized),
            r == Err::<(), Error>(Error::InvalidBasisState) <==> (old(self).spec_state()
                is Uninitialized && basis_value >= old(self).spec_amplitudes().len()),
            r is Err ==> Self::same_register(final(self), old(self)),
            r is Ok <==> (old(self).spec_state() is Uninitialized && basis_value < old(
                self,
            ).spec_amplitudes().len()),
            r is Ok ==> {
                &&& final(self).spec_state() is Initialized
                &&& final(self).spec_measured() is None
                &&& final(self).spec_scale() == 0
                &&& final(self).spec_amplitudes() == basis(
                    old(self).spec_amplitudes().len() as int,
                    basis_value as int,
                )
            },
    {
        match self.state {
            ComputerState::Uninitialized => {},
            _ => {
                return Err(Error::InvalidState);
            },
        }
        let len = self.amplitudes.len();
        if basis_value >= len {
            return Err(Error::InvalidBasisState);
        }
        let mut i: usize = 0;
        while i < len
            invariant
                i <= len,
                self.amplitudes@.len() == len,
                self.num_qubits == old(self).num_qubits,
                self.scale == old(self).scale,
                self.state == old(self).state,
                self.measured_value == old(self).measured_value,
                basis_value < len,
                forall|q: int| 0 <= q < i ==> gauss_seq(self.amplitudes@)[q] == basis(
                    len as int,
                    basis_value as int,
                )[q],
            decreases len - i,
        {
            let v = if i == basis_value {
                Complex { re: 1, im: 0 }
            } else {
                Complex { re: 0, im: 0 }
            };
            self.amplitudes[i] = v;
            i += 1;
        }
        self.scale = 0;
        self.state = ComputerState::Initialized;
        proof {
            assert(self.spec_amplitudes() =~= basis(len as int, basis_value as int));
            assert forall|q: int| 0 <= q < self.spec_amplitudes().len() implies
                crate::complex::c_in_bound(#[trigger] self.spec_amplitudes()[q], MAX_AMP as int) by {
                assert(self.spec_amplitudes()[q] == basis(len as int, basis_value as int)[q]);
            }
        }
        Ok(())
    }

    /// Applies a whole-register gate: replaces the amplitudes with
    /// `gate.matrix * amplitudes` and adds that matrix's scale.
    ///
    /// Fails with `InvalidState` unless the register is initialized, with
    /// `GateSizeMismatch` exactly when a gate's qubit count differs from
    /// the register's, and with `Overflow` when the exact result would leave
    /// the supported range.
    #[verifier::loop_isolation(false)]
    pub fn apply(&mut self, gate: &Gate) -> (r: Result<(), Error>)
        requires
            old(self).wf(),
            gate.wf(),
        ensures
            final(self).wf(),
            final(self).spec_num_qubits() == old(self).spec_num_qubits(),
            r == Err::<(), Error>(Error::InvalidState) <==> !(old(self).spec_state()
                is Initialized),
            r == Err::<(), Error>(Error::GateSizeMismatch) <==> (old(self).spec_state()
                is Initialized && gate.spec_num_qubits() != old(self).spec_num_qubits()),
            r == Err::<(), Error>(Error::Overflow) <==> (old(self).spec_state() is Initialized
                && gate.spec_num_qubits() == old(self).spec_num_qubits() && (old(self).spec_scale()
                + gate.spec_matrix().scale > MAX_SCALE || !bounded_seq(
                mat_vec(gate.spec_matrix(), old(self).spec_amplitudes()),
                MAX_AMP as int,
            ))),
            r is Err ==> Self::same_register(final(self), old(self)),
            r is Ok <==> (old(self).spec_state() is Initialized && gate.spec_num_qubits() == old(
                self,
            ).spec_num_qubits() && old(self).spec_scale() + gate.spec_matrix().scale <= MAX_SCALE
                && bounded_seq(
                mat_vec(gate.spec_matrix(), old(self).spec_amplitudes()),
                MAX_AMP as int,
            )),
            r is Ok ==> {
                &&& final(self).spec_state() is Initialized
                &&& final(self).spec_measured() is None
                &&& final(self).spec_amplitudes() == mat_vec(
                    gate.spec_matrix(),
                    old(self).spec_amplitudes(),
                )
                &&& final(self).spec_scale() == old(self).spec_scale()
                    + gate.spec_matrix().scale
            },
    {
        match self.state {
            ComputerState::Initialized => {},
            _ => {
                return Err(Error::InvalidState);
            },
        }
        if gate.num_qubits() != self.num_qubits {
            return Err(Error::GateSizeMismatch);
        }
        if gate.matrix().scale() > MAX_SCALE - self.scale {
            return Err(Error::Overflow);
        }
        let ghost gm = gate.spec_matrix();
        let ghost old_amps = self.spec_amplitudes();
        let ghost result_amps = mat_vec(gm, old_amps);
        proof {
            assert forall|q: int| 0 <= q < old_amps.len() implies crate::complex::c_in_bound(
                #[trigger] old_amps[q],
                MAX_ENTRY as int,
            ) by {
                assert(crate::complex::c_in_bound(old_amps[q], MAX_AMP as int));
            }
        }
        let w = match gate.matrix().multiply_vector(&self.amplitudes) {
            Ok(w) => w,
            Err(_) => {
                proof {
                    assert(!bounded_seq(result_amps, MAX_ENTRY as int));
                    let k = choose|k: int|
                        0 <= k < result_amps.len() && !crate::complex::c_in_bound(
                            result_amps[k],
                            MAX_ENTRY as int,
                        );
                    assert(!crate::complex::c_in_bound(result_amps[k], MAX_AMP as int));
                }
                return Err(Error::Overflow);
            },
        };
        let mut i: usize = 0;
        let len = w.len();
        while i < len
            invariant
                w@.len() == len,
                gauss_seq(w@) == result_amps,
                i <= len,
                forall|q: int| 0 <= q < i ==> crate::complex::c_in_bound(
                    #[trigger] result_amps[q],
                    MAX_AMP as int,
                ),
            decreases len - i,
        {
            let c = w[i];
            if c.re > MAX_AMP || c.re < -MAX_AMP || c.im > MAX_AMP || c.im < -MAX_AMP {
                proof {
                    assert(!crate::complex::c_in_bound(result_amps[i as int], MAX_AMP as int));
                }
                return Err(Error::Overflow);
            }
            i += 1;
        }
        self.amplitudes = w;
        self.scale = self.scale + gate.matrix().scale();
        Ok(())
    }

    /// Simulates measurement.  Computes the exact weight `|amplitudes[i]|^2`
    /// of every basis index, draws one value from the injected source, and
    /// collapses to the smallest index whose cumulative weight exceeds the
    /// drawn fraction of the total: exact inverse-CDF sampling.  The outcome
    /// always has positive weight, and the amplitudes become the exact basis
    /// vector for it.
    ///
    /// Fails with `InvalidState` when the register is not initialized, or
    /// when the state has zero total weight (which no unitary evolution of an
    /// initialized register produces).
    #[verifier::loop_isolation(false)]
    pub fn collapse<R: RandomSource>(&mut self, source: &mut R) -> (r: Result<usize, Error>)
        requires
            old(self).wf(),
        ensures
            final(self).wf(),
            final(self).spec_num_qubits() == old(self).spec_num_qubits(),
            r == Err::<usize, Error>(Error::InvalidState) <==> (!(old(self).spec_state()
                is Initialized) || total_weight(old(self).spec_amplitudes()) == 0),
            r is Err ==> r == Err::<usize, Error>(Error::InvalidState) && Self::same_register(
                final(self),
                old(self),
            ),
            r is Ok <==> (old(self).spec_state() is Initialized && total_weight(
                old(self).spec_amplitudes(),
            ) > 0),
            r is Ok ==> {
                let i = r->Ok_0;
                &&& i < old(self).spec_amplitudes().len()
                &&& c_mag2(old(self).spec_amplitudes()[i as int]) > 0
                &&& (exists|d: int|
                    0 <= d < 4294967296 && i == pick(old(self).spec_amplitudes(), d))
                &&& final(self).spec_state() is Collapsed
                &&& final(self).spec_measured() == Some(i)
                &&& final(self).spec_scale() == 0
                &&& final(self).spec_amplitudes() == basis(
                    old(self).spec_amplitudes().len() as int,
                    i as int,
                )
            },
    {
        match self.state {
            ComputerState::Initialized => {},
            _ => {
                return Err(Error::InvalidState);
            },
        }
        let ghost v = self.spec_amplitudes();
        proof {
            crate::gate::lemma_pow2_pos(old(self).spec_num_qubits() as nat);
            crate::gate::lemma_pow2_increases(old(self).spec_num_qubits() as nat, 15);
            crate::gate::lemma_pow2_15();
        }
        let len = self.amplitudes.len();
        let total = sum_weights(&self.amplitudes);
        if total == 0 {
            return Err(Error::InvalidState);
        }
        proof {
            lemma_cum_monotonic(v, 0, len as int);
        }
        let draw = source.next_u32();
        let idx = select_outcome(&self.amplitudes, draw);
        proof {
            lemma_pick_props(v, draw as int);
            assert(exists|d: int| 0 <= d < 4294967296 && idx == pick(v, d)) by {
                assert(0 <= (draw as int) < 4294967296 && idx == pick(v, draw as int));
            }
        }
        let mut i: usize = 0;
        while i < len
            invariant
                i <= len,
                self.amplitudes@.len() == len,
                self.num_qubits == old(self).num_qubits,
                idx < len,
                forall|q: int| 0 <= q < i ==> gauss_seq(self.amplitudes@)[q] == basis(
                    len as int,
                    idx as int,
                )[q],
            decreases len - i,
        {
            let c = if i == idx {
                Complex { re: 1, im: 0 }
            } else {
                Complex { re: 0, im: 0 }
            };
            self.amplitudes[i] = c;
            i += 1;
        }
        self.scale = 0;
        self.state = ComputerState::Collapsed;
        self.measured_value = Some(idx);
        proof {
            assert(self.spec_amplitudes() =~= basis(len as int, idx as int));
            assert forall|q: int| 0 <= q < self.spec_amplitudes().len() implies
                crate::complex::c_in_bound(#[trigger] self.spec_amplitudes()[q], MAX_AMP as int) by {
                assert(self.spec_amplitudes()[q] == basis(len as int, idx as int)[q]);
            }
        }
        Ok(idx)
    }

    /// The measured value.  Fails with `NotYetMeasured` exactly when the
    /// register has not collapsed.
    pub fn value(&self) -> (r: Result<usize, Error>)
        requires
            self.wf(),
        ensures
            r == Err::<usize, Error>(Error::NotYetMeasured) <==> !(self.spec_state() is Collapsed),
            r is Ok <==> self.spec_state() is Collapsed,
            r is Ok ==> Some(r->Ok_0) == self.spec_measured(),
    {
        match self.measured_value {
            Some(v) => Ok(v),
            None => Err(Error::NotYetMeasured),
        }
    }
}

/// The exact total weight `sum_i |amplitudes[i]|^2` of a bounded amplitude
/// vector.
#[verifier::loop_isolation(false)]
pub fn sum_weights(amplitudes: &Vec<Complex>) -> (t: i128)
    requires
        amplitudes@.len() <= MAX_DIM,
        bounded_seq(gauss_seq(amplitudes@), MAX_AMP as int),
    ensures
        t == total_weight(gauss_seq(amplitudes@)),
{
    let ghost v = gauss_seq(amplitudes@);
    let len = amplitudes.len();
    let mut t: i128 = 0;
    let mut i: usize = 0;
    while i < len
        invariant
            i <= len,
            t == cum(v, i as int),
            0 <= t <= (i as int) * 9223372036854775808,
        decreases len - i,
    {
        let c = amplitudes[i];
        proof {
            assert(c@ == v[i as int]);
            crate::complex::lemma_mul_bound(c@.re, c@.re, MAX_AMP as int, MAX_AMP as int);
            crate::complex::lemma_mul_bound(c@.im, c@.im, MAX_AMP as int, MAX_AMP as int);
            assert((MAX_AMP as int) * (MAX_AMP as int) == 4611686018427387904);
            lemma_mag2_nonneg(c@);
        }
        let w = c.magnitude_squared();
        t = t + w;
        i += 1;
    }
    t
}

/// The deterministic part of measurement: the inverse-CDF outcome for the
/// amplitude vector and a given draw.  `collapse` calls this on the value it
/// draws from its random source; a test may call it directly with a scripted
/// draw and check the outcome against `pick`.
#[verifier::loop_isolation(false)]
pub fn select_outcome(amplitudes: &Vec<Complex>, draw: u32) -> (i: usize)
    requires
        1 <= amplitudes@.len() <= MAX_DIM,
        bounded_seq(gauss_seq(amplitudes@), MAX_AMP as int),
        total_weight(gauss_seq(amplitudes@)) > 0,
    ensures
        i < amplitudes@.len(),
        i == pick(gauss_seq(amplitudes@), draw as int),
{
    let ghost v = gauss_seq(amplitudes@);
    let len = amplitudes.len();
    let total = sum_weights(amplitudes);
    proof {
        lemma_cum_bound(v, len as int);
        assert((len as int) * 9223372036854775808 <= 302231454903657293676544);
        crate::complex::lemma_mul_bound(
            draw as int,
            total as int,
            4294967296,
            302231454903657293676544,
        );
    }
    let threshold: i128 = (draw as i128) * total;
    let ghost t = threshold as int;
    proof {
        assert(0 <= t < total_weight(v) * 4294967296) by (nonlinear_arith)
            requires
                t == (draw as int) * total_weight(v),
                0 <= draw < 4294967296,
                total_weight(v) > 0,
        {
        }
    }
    let mut i: usize = 0;
    let mut acc: i128 = 0;
    while i < len - 1
        invariant
            i < len,
            acc == cum(v, i as int),
            acc * 4294967296 <= t,
            pick(v, draw as int) == pick_from(v, t, i as int),
        decreases len - i,
    {
        let c = amplitudes[i];
        proof {
            assert(c@ == v[i as int]);
            crate::complex::lemma_mul_bound(c@.re, c@.re, MAX_AMP as int, MAX_AMP as int);
            crate::complex::lemma_mul_bound(c@.im, c@.im, MAX_AMP as int, MAX_AMP as int);
            assert((MAX_AMP as int) * (MAX_AMP as int) == 4611686018427387904);
            lemma_mag2_nonneg(c@);
            lemma_cum_monotonic(v, i as int + 1, len as int);
            lemma_cum_bound(v, i as int + 1);
            assert((i as int + 1) * 9223372036854775808 <= 302231454903657293676544);
        }
        let w = c.magnitude_squared();
        acc = acc + w;
        if acc * 4294967296 > threshold {
            return i;
        }
        i += 1;
    }
    proof {
        lemma_cum_monotonic(v, i as int + 1, len as int);
    }
    len - 1
}

} // verus!
