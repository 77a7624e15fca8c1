//! Gates: named unitary operators on an `n`-qubit register, wrapping a
//! `2^n x 2^n` matrix.

use vstd::prelude::*;

use crate::matrix::{Matrix, MatrixModel, MAX_DIM};
use crate::Error;

verus! {

/// `2^n`.
pub open spec fn pow2(n: nat) -> nat
    decreases n,
{
    if n == 0 {
        1
    } else {
        2 * pow2((n - 1) as nat)
    }
}

pub proof fn lemma_pow2_pos(n: nat)
    ensures
        pow2(n) >= 1,
    decreases n,
{
    if n > 0 {
        lemma_pow2_pos((n - 1) as nat);
    }
}

pub proof fn lemma_pow2_increases(a: nat, b: nat)
    requires
        a <= b,
    ensures
        pow2(a) <= pow2(b),
    decreases b,
{
    if a < b {
        lemma_pow2_increases(a, (b - 1) as nat);
        lemma_pow2_pos((b - 1) as nat);
    }
}

pub proof fn lemma_pow2_strictly_increases(a: nat, b: nat)
    requires
        a < b,
    ensures
        pow2(a) < pow2(b),
{
    lemma_pow2_increases(a, (b - 1) as nat);
    lemma_pow2_pos((b - 1) as nat);
}

/// `2^15` is the largest register dimension the library accepts.
pub proof fn lemma_pow2_15()
    ensures
        pow2(15) == MAX_DIM,
{
    reveal_with_fuel(pow2, 16);
}

/// Computes `2^n` for a register of at most fifteen qubits.
#[verifier::loop_isolation(false)]
pub fn pow2_exec(n: u32) -> (r: usize)
    requires
        n <= 15,
    ensures
        r == pow2(n as nat),
        1 <= r <= MAX_DIM,
{
    let mut r: usize = 1;
    let mut i: u32 = 0;
    proof {
        lemma_pow2_15();
    }
    while i < n
        invariant
            i <= n <= 15,
            r == pow2(i as nat),
            r <= MAX_DIM,
        decreases n - i,
    {
        proof {
            lemma_pow2_increases(i as nat + 1, 15);
        }
        r = r * 2;
        i += 1;
    }
    proof {
        lemma_pow2_pos(n as nat);
    }
    r
}

/// A unitary operator for an `num_qubits`-qubit register.  That the wrapped
/// matrix is in fact unitary is a trust placed in the factories that build
/// gates; the structural invariant checked here is the dimension law
/// `matrix.dimension == 2^num_qubits`.
pub struct Gate {
    num_qubits: u32,
    matrix: Matrix,
}

impl Gate {
    pub closed spec fn spec_num_qubits(&self) -> int {
        self.num_qubits as int
    }

    pub closed spec fn spec_matrix(&self) -> MatrixModel {
        self.matrix@
    }

    pub open spec fn wf(&self) -> bool {
        &&& 1 <= self.spec_num_qubits() <= 15
        &&& self.spec_matrix().wf()
        &&& self.spec_matrix().dim == pow2(self.spec_num_qubits() as nat)
    }

    /// Wraps a matrix as a gate.  Fails with `GateSizeMismatch` exactly when
    /// the matrix dimension is not `2^num_qubits`.
    pub fn new(num_qubits: u32, matrix: Matrix) -> (r: Result<Gate, Error>)
        requires
            1 <= num_qubits,
            matrix.wf(),
        ensures
            r is Ok <==> matrix@.dim == pow2(num_qubits as nat),
            r is Err ==> r == Err::<Gate, Error>(Error::GateSizeMismatch),
            r is Ok ==> {
                &&& r->Ok_0.wf()
                &&& r->Ok_0.spec_num_qubits() == num_qubits
                &&& r->Ok_0.spec_matrix() == matrix@
            },
    {
        if num_qubits > 15 {
            proof {
                lemma_pow2_15();
                lemma_pow2_strictly_increases(15, num_qubits as nat);
            }
            return Err(Error::GateSizeMismatch);
        }
        let dim = pow2_exec(num_qubits);
        if matrix.dimension() != dim {
            return Err(Error::GateSizeMismatch);
        }
        Ok(Gate { num_qubits, matrix })
    }

    pub fn num_qubits(&self) -> (r: u32)
        ensures
            r == self.spec_num_qubits(),
    {
        self.num_qubits
    }

    pub fn matrix(&self) -> (r: &Matrix)
        ensures
            r@ == self.spec_matrix(),
    {
        &self.matrix
    }
}

} // verus!
