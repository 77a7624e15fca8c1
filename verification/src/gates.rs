//! Factories for common gates: the identity and the Hadamard family, built
//! by Kronecker composition of the single-qubit Hadamard matrix.

use vstd::prelude::*;

use crate::complex::{c_add, c_in_bound, c_mul, c_zero, Complex, GaussInt};
use crate::gate::{lemma_pow2_15, lemma_pow2_increases, lemma_pow2_pos, pow2, pow2_exec, Gate};
use crate::matrix::{
    identity_model, kron_model, lemma_kron_index, lemma_row_col, mat_vec, Matrix, MatrixModel,
    MAX_DIM, MAX_ENTRY,
};

verus! {

/// Model of the single-qubit Hadamard matrix: entries `[[1, 1], [1, -1]]` at
/// scale one, denoting `(1 / sqrt(2)) [[1, 1], [1, -1]]`.
pub open spec fn h1_model() -> MatrixModel {
    MatrixModel {
        dim: 2,
        scale: 1,
        entries: seq![
            GaussInt { re: 1, im: 0 },
            GaussInt { re: 1, im: 0 },
            GaussInt { re: 1, im: 0 },
            GaussInt { re: -1, im: 0 },
        ],
    }
}

/// The `n`-fold Kronecker power of the single-qubit Hadamard matrix: the
/// Hadamard gate matrix for an `n`-qubit register.
pub open spec fn hadamard_model(n: nat) -> MatrixModel
    decreases n,
{
    if n <= 1 {
        h1_model()
    } else {
        kron_model(hadamard_model((n - 1) as nat), h1_model())
    }
}

/// Every entry of `s` is `1` or `-1` (and purely real).
pub open spec fn unit_entries(s: Seq<GaussInt>) -> bool {
    forall|k: int|
        0 <= k < s.len() ==> (#[trigger] s[k]).im == 0 && (s[k].re == 1 || s[k].re == -1)
}

/// Shape of the `n`-qubit Hadamard matrix: dimension `2^n`, scale `n`, and
/// every entry `1` or `-1`.
pub proof fn lemma_hadamard_model_props(n: nat)
    requires
        1 <= n <= 15,
    ensures
        hadamard_model(n).wf(),
        hadamard_model(n).dim == pow2(n),
        hadamard_model(n).scale == n,
        unit_entries(hadamard_model(n).entries),
    decreases n,
{
    lemma_pow2_15();
    if n == 1 {
        let m = h1_model();
        assert(pow2(1) == 2) by {
            reveal_with_fuel(pow2, 2);
        }
        assert(m.entries.len() == 4);
        assert forall|k: int| 0 <= k < m.entries.len() implies (#[trigger] m.entries[k]).im == 0
            && (m.entries[k].re == 1 || m.entries[k].re == -1) by {
            if k == 0 {
            } else if k == 1 {
            } else if k == 2 {
            } else {
                assert(m.entries[3].re == -1);
            }
        }
        assert forall|k: int| 0 <= k < m.entries.len() implies c_in_bound(
            #[trigger] m.entries[k],
            MAX_ENTRY as int,
        ) by {
            assert(m.entries[k].im == 0 && (m.entries[k].re == 1 || m.entries[k].re == -1));
        }
    } else {
        lemma_hadamard_model_props((n - 1) as nat);
        lemma_pow2_increases(n, 15);
        let a = hadamard_model((n - 1) as nat);
        let b = h1_model();
        let m = kron_model(a, b);
        let d = a.dim * b.dim;
        assert(d == pow2(n)) by {
            assert(a.dim * 2 == 2 * a.dim) by (nonlinear_arith);
        }
        assert forall|k: int| 0 <= k < m.entries.len() implies (#[trigger] m.entries[k]).im == 0
            && (m.entries[k].re == 1 || m.entries[k].re == -1) by {
            crate::matrix::lemma_cell_split(k, d);
            let i = k / d;
            let j = k % d;
            lemma_kron_index(i, j, a.dim, b.dim);
            lemma_row_col(i / b.dim, j / b.dim, a.dim);
            lemma_row_col(i % b.dim, j % b.dim, b.dim);
            assert(a.entry(i / b.dim, j / b.dim).im == 0 && (a.entry(i / b.dim, j / b.dim).re == 1
                || a.entry(i / b.dim, j / b.dim).re == -1));
            assert(b.entry(i % b.dim, j % b.dim).im == 0 && (b.entry(i % b.dim, j % b.dim).re == 1
                || b.entry(i % b.dim, j % b.dim).re == -1));
        }
        assert forall|k: int| 0 <= k < m.entries.len() implies c_in_bound(
            #[trigger] m.entries[k],
            MAX_ENTRY as int,
        ) by {
            assert(m.entries[k].im == 0 && (m.entries[k].re == 1 || m.entries[k].re == -1));
        }
        assert(m.entries.len() == d * d);
    }
}

/// The identity gate for an `n`-qubit register: applying it to an
/// initialized register leaves every amplitude unchanged (see
/// `crate::matrix::lemma_identity_mat_vec`).
pub fn identity(n: u32) -> (g: Gate)
    requires
        1 <= n <= 15,
    ensures
        g.wf(),
        g.spec_num_qubits() == n,
        g.spec_matrix() == identity_model(pow2(n as nat) as int),
{
    let dim = pow2_exec(n);
    let m = Matrix::identity(dim);
    match Gate::new(n, m) {
        Ok(g) => g,
        Err(_) => {
            proof {
                assert(false);
            }
            vstd::pervasive::unreached()
        },
    }
}

/// Builds the single-qubit Hadamard matrix `[[1, 1], [1, -1]]` at scale one.
fn single_hadamard() -> (m: Matrix)
    ensures
        m.wf(),
        m@ == h1_model(),
{
    let mut elements: Vec<Complex> = Vec::new();
    elements.push(Complex::new(1, 0));
    elements.push(Complex::new(1, 0));
    elements.push(Complex::new(1, 0));
    elements.push(Complex::new(-1, 0));
    proof {
        assert(crate::matrix::gauss_seq(elements@) =~= h1_model().entries);
    }
    match Matrix::new_scaled(2, 1, elements) {
        Ok(m) => {
            proof {
                assert(m@ =~= h1_model());
            }
            m
        },
        Err(_) => {
            proof {
                assert(false);
            }
            vstd::pervasive::unreached()
        },
    }
}

/// The Hadamard gate for an `n`-qubit register: the `n`-fold Kronecker power
/// of `(1 / sqrt(2)) [[1, 1], [1, -1]]`.
pub fn hadamard(n: u32) -> (g: Gate)
    requires
        1 <= n <= 15,
    ensures
        g.wf(),
        g.spec_num_qubits() == n,
        g.spec_matrix() == hadamard_model(n as nat),
{
    let h1 = single_hadamard();
    let mut m = single_hadamard();
    let mut i: u32 = 1;
    proof {
        lemma_hadamard_model_props(1);
    }
    while i < n
        invariant
            1 <= i <= n <= 15,
            h1.wf(),
            h1@ == h1_model(),
            m.wf(),
            m@ == hadamard_model(i as nat),
        decreases n - i,
    {
        proof {
            lemma_hadamard_model_props(i as nat);
            lemma_hadamard_model_props((i + 1) as nat);
            lemma_pow2_15();
            lemma_pow2_increases((i + 1) as nat, 15);
            assert(kron_model(m@, h1@) == hadamard_model((i + 1) as nat));
        }
        let next = match m.kronecker(&h1) {
            Ok(x) => x,
            Err(_) => {
                proof {
                    assert(false);
                }
                vstd::pervasive::unreached()
            },
        };
        m = next;
        i += 1;
    }
    match Gate::new(n, m) {
        Ok(g) => g,
        Err(_) => {
            proof {
                lemma_hadamard_model_props(n as nat);
                assert(false);
            }
            vstd::pervasive::unreached()
        },
    }
}

} // verus!

verus! {

/// The amplitude vector `v` scaled pointwise by the integer `m`.
pub open spec fn scaled_amps(v: Seq<GaussInt>, m: int) -> Seq<GaussInt> {
    Seq::new(v.len(), |i: int| GaussInt { re: m * v[i].re, im: m * v[i].im })
}

/// Two (amplitudes, scale) pairs denote the same state when the pair with
/// the larger scale holds the other's amplitudes multiplied by
/// `2^((larger - smaller) / 2)`: multiplying every amplitude by two and
/// raising the scale by two both change the representation and neither the
/// denoted value, since `2 / sqrt(2)^2 == 1`.
pub open spec fn state_equiv(v1: Seq<GaussInt>, s1: int, v2: Seq<GaussInt>, s2: int) -> bool {
    if s2 >= s1 {
        (s2 - s1) % 2 == 0 && v2 == scaled_amps(v1, pow2(((s2 - s1) / 2) as nat) as int)
    } else {
        (s1 - s2) % 2 == 0 && v1 == scaled_amps(v2, pow2(((s1 - s2) / 2) as nat) as int)
    }
}

/// Applying the single-qubit Hadamard gate twice returns the original state:
/// the amplitudes come back multiplied by two while the scale rises by two,
/// which denotes exactly the starting state (H * H = I).
pub proof fn lemma_hadamard_involution(v: Seq<GaussInt>, s: int)
    requires
        v.len() == 2,
    ensures
        mat_vec(h1_model(), mat_vec(h1_model(), v)) == scaled_amps(v, 2),
        state_equiv(v, s, mat_vec(h1_model(), mat_vec(h1_model(), v)), s + 2),
{
    let h = h1_model();
    let w = mat_vec(h, v);
    let u = mat_vec(h, w);
    assert(h.entry(0, 0) == h.entries[0]);
    assert(h.entry(0, 1) == h.entries[1]);
    assert(h.entry(1, 0) == h.entries[2]);
    assert(h.entry(1, 1) == h.entries[3]);
    assert(h.entries[0] == (GaussInt { re: 1, im: 0 }));
    assert(h.entries[1] == (GaussInt { re: 1, im: 0 }));
    assert(h.entries[2] == (GaussInt { re: 1, im: 0 }));
    assert(h.entries[3] == (GaussInt { re: -1, im: 0 }));
    let one = GaussInt { re: 1, im: 0 };
    let neg = GaussInt { re: -1, im: 0 };
    assert(w[0] == c_add(c_add(c_zero(), c_mul(one, v[0])), c_mul(one, v[1]))) by {
        reveal_with_fuel(crate::matrix::mv_dot, 3);
    }
    assert(w[1] == c_add(c_add(c_zero(), c_mul(one, v[0])), c_mul(neg, v[1]))) by {
        reveal_with_fuel(crate::matrix::mv_dot, 3);
    }
    crate::complex::lemma_c_mul_unit_real(one, v[0]);
    crate::complex::lemma_c_mul_unit_real(one, v[1]);
    crate::complex::lemma_c_mul_unit_real(neg, v[1]);
    assert(w[0].re == v[0].re + v[1].re && w[0].im == v[0].im + v[1].im);
    assert(w[1].re == v[0].re - v[1].re && w[1].im == v[0].im - v[1].im);
    assert(u[0] == c_add(c_add(c_zero(), c_mul(one, w[0])), c_mul(one, w[1]))) by {
        reveal_with_fuel(crate::matrix::mv_dot, 3);
    }
    assert(u[1] == c_add(c_add(c_zero(), c_mul(one, w[0])), c_mul(neg, w[1]))) by {
        reveal_with_fuel(crate::matrix::mv_dot, 3);
    }
    crate::complex::lemma_c_mul_unit_real(one, w[0]);
    crate::complex::lemma_c_mul_unit_real(one, w[1]);
    crate::complex::lemma_c_mul_unit_real(neg, w[1]);
    assert(u[0].re == 2 * v[0].re && u[0].im == 2 * v[0].im);
    assert(u[1].re == 2 * v[1].re && u[1].im == 2 * v[1].im);
    assert(u =~= scaled_amps(v, 2));
    assert(pow2(1) == 2) by {
        reveal_with_fuel(pow2, 2);
    }
}

} // verus!
