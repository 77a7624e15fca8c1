//! The Deutsch algorithm, built from the core primitives: one oracle query
//! decides whether a function `f : {0, 1} -> {0, 1}` is constant or balanced.
//!
//! The two-qubit register starts in basis state one, passes through a
//! Hadamard gate, the oracle gate `|a, b> -> |a, b + f(a)>` (an identity with
//! exchange blocks embedded where `f` returns one), and a second Hadamard
//! gate; measuring then yields one exactly for a constant oracle.

use vstd::prelude::*;

use crate::complex::{
    c_in_bound, c_mag2, c_mul, c_one, c_zero, lemma_c_mul_basis, lemma_c_mul_unit_real,
    GaussInt,
};
use crate::computer::{basis, cum, total_weight, QuantumComputer, RandomSource, MAX_AMP};
use crate::gate::{pow2, Gate};
use crate::gates::{hadamard, hadamard_model};
use crate::matrix::{
    bounded_seq, lemma_row_col, mat_vec, mv_dot, Matrix, MatrixModel,
};
use crate::Error;

verus! {

/// The oracle capability: a caller-supplied function from classical bit to
/// classical bit, evaluated by the algorithm only at zero and one.
pub trait Oracle {
    /// The mathematical function the oracle computes.
    spec fn spec_eval(&self, x: int) -> int;

    fn evaluate(&self, x: i32) -> (r: i32)
        ensures
            r as int == self.spec_eval(x as int),
    ;
}

/// An oracle returning the same fixed output for every input.
pub struct ConstantOracle {
    pub output: i32,
}

impl Oracle for ConstantOracle {
    open spec fn spec_eval(&self, x: int) -> int {
        self.output as int
    }

    fn evaluate(&self, x: i32) -> (r: i32) {
        self.output
    }
}

/// The balanced oracle `f(x) = x`.
pub struct IdentityOracle {}

impl Oracle for IdentityOracle {
    open spec fn spec_eval(&self, x: int) -> int {
        x
    }

    fn evaluate(&self, x: i32) -> (r: i32) {
        x
    }
}

/// The balanced oracle that negates its bit: one on zero, zero elsewhere.
pub struct NegationOracle {}

impl Oracle for NegationOracle {
    open spec fn spec_eval(&self, x: int) -> int {
        if x == 0 {
            1
        } else {
            0
        }
    }

    fn evaluate(&self, x: i32) -> (r: i32) {
        if x == 0 {
            1
        } else {
            0
        }
    }
}

pub open spec fn gi(re: int) -> GaussInt {
    GaussInt { re, im: 0 }
}

/// The basis permutation performed by the oracle gate: the first pair of
/// basis states is exchanged when `f(0) == 1`, the second when `f(1) == 1`.
pub open spec fn deutsch_perm(f0: bool, f1: bool, j: int) -> int {
    if j == 0 || j == 1 {
        if f0 {
            1 - j
        } else {
            j
        }
    } else {
        if f1 {
            5 - j
        } else {
            j
        }
    }
}

/// The oracle gate `|a, b> -> |a, b + f(a)>`: a four-dimensional permutation
/// matrix, the identity with a two-by-two exchange block embedded at the
/// top-left corner when `f(0) == 1` and at the bottom-right when `f(1) == 1`.
pub open spec fn deutsch_gate_model(f0: bool, f1: bool) -> MatrixModel {
    MatrixModel {
        dim: 4,
        scale: 0,
        entries: Seq::new(
            16,
            |k: int|
                if k / 4 == deutsch_perm(f0, f1, k % 4) {
                    c_one()
                } else {
                    c_zero()
                },
        ),
    }
}

/// The register state after the first Hadamard stage: column one of the
/// two-qubit Hadamard matrix.
pub open spec fn deutsch_mid1() -> Seq<GaussInt> {
    seq![gi(1), gi(-1), gi(1), gi(-1)]
}

/// The register state after the oracle gate.
pub open spec fn deutsch_mid2(f0: bool, f1: bool) -> Seq<GaussInt> {
    seq![
        if f0 {
            gi(-1)
        } else {
            gi(1)
        },
        if f0 {
            gi(1)
        } else {
            gi(-1)
        },
        if f1 {
            gi(-1)
        } else {
            gi(1)
        },
        if f1 {
            gi(1)
        } else {
            gi(-1)
        },
    ]
}

/// The index measured by the algorithm: one for a constant oracle, three for
/// a balanced one.
pub open spec fn deutsch_outcome(f0: bool, f1: bool) -> int {
    if f0 == f1 {
        1
    } else {
        3
    }
}

/// The final register state: all weight on the outcome index.
pub open spec fn deutsch_final(f0: bool, f1: bool) -> Seq<GaussInt> {
    if f0 == f1 {
        seq![
            gi(0),
            if f0 {
                gi(-4)
            } else {
                gi(4)
            },
            gi(0),
            gi(0),
        ]
    } else {
        seq![
            gi(0),
            gi(0),
            gi(0),
            if f0 {
                gi(-4)
            } else {
                gi(4)
            },
        ]
    }
}

/// The sixteen entries of the two-qubit Hadamard matrix, written out.
pub open spec fn h2_sign(i: int, j: int) -> int {
    if i == 0 {
        1
    } else if i == 1 {
        if j == 1 || j == 3 {
            -1
        } else {
            1
        }
    } else if i == 2 {
        if j == 2 || j == 3 {
            -1
        } else {
            1
        }
    } else {
        if j == 1 || j == 2 {
            -1
        } else {
            1
        }
    }
}

proof fn lemma_h2_entries()
    ensures
        hadamard_model(2).dim == 4,
        hadamard_model(2).scale == 2,
        forall|i: int, j: int|
            0 <= i < 4 && 0 <= j < 4 ==> #[trigger] hadamard_model(2).entry(i, j) == gi(
                h2_sign(i, j),
            ),
{
    let h = crate::gates::h1_model();
    let m = hadamard_model(2);
    assert(m == crate::matrix::kron_model(hadamard_model(1), h));
    assert(hadamard_model(1) == h);
    assert(h.entries[0] == gi(1) && h.entries[1] == gi(1) && h.entries[2] == gi(1) && h.entries[3]
        == gi(-1));
    assert forall|i: int, j: int| 0 <= i < 4 && 0 <= j < 4 implies #[trigger] m.entry(i, j) == gi(
        h2_sign(i, j),
    ) by {
        lemma_row_col(i, j, 4);
        crate::matrix::lemma_kron_index(i, j, 2, 2);
        lemma_row_col(i / 2, j / 2, 2);
        lemma_row_col(i % 2, j % 2, 2);
        let a = h.entry(i / 2, j / 2);
        let b = h.entry(i % 2, j % 2);
        assert(m.entry(i, j) == c_mul(a, b));
        assert(a.im == 0 && (a.re == 1 || a.re == -1));
        assert(b.im == 0 && (b.re == 1 || b.re == -1));
        lemma_c_mul_unit_real(a, b);
    }
}

/// The whole pipeline, stage by stage: Hadamard, oracle gate, Hadamard, with
/// the concrete exact amplitudes after each stage.  All final weight sits on
/// the outcome index.
pub proof fn lemma_deutsch_pipeline(f0: bool, f1: bool)
    ensures
        mat_vec(hadamard_model(2), basis(4, 1)) == deutsch_mid1(),
        mat_vec(deutsch_gate_model(f0, f1), deutsch_mid1()) == deutsch_mid2(f0, f1),
        mat_vec(hadamard_model(2), deutsch_mid2(f0, f1)) == deutsch_final(f0, f1),
        forall|i: int|
            0 <= i < 4 ==> c_mag2(#[trigger] deutsch_final(f0, f1)[i]) == (if i == deutsch_outcome(
                f0,
                f1,
            ) {
                16int
            } else {
                0int
            }),
        total_weight(deutsch_final(f0, f1)) == 16,
{
    lemma_h2_entries();
    let h2 = hadamard_model(2);
    let e1 = basis(4, 1);
    let v1 = mat_vec(h2, e1);
    assert(e1[0] == c_zero() && e1[1] == c_one() && e1[2] == c_zero() && e1[3] == c_zero());
    assert forall|i: int| 0 <= i < 4 implies v1[i] == gi(h2_sign(i, 1)) by {
        reveal_with_fuel(mv_dot, 5);
        lemma_c_mul_basis(h2.entry(i, 0));
        lemma_c_mul_basis(h2.entry(i, 1));
        lemma_c_mul_basis(h2.entry(i, 2));
        lemma_c_mul_basis(h2.entry(i, 3));
    }
    assert(v1 =~= deutsch_mid1());

    let u = deutsch_gate_model(f0, f1);
    let v2 = mat_vec(u, deutsch_mid1());
    assert forall|i: int, j: int| 0 <= i < 4 && 0 <= j < 4 implies #[trigger] u.entry(i, j) == (
    if i == deutsch_perm(f0, f1, j) {
        c_one()
    } else {
        c_zero()
    }) by {
        lemma_row_col(i, j, 4);
    }
    assert forall|i: int| 0 <= i < 4 implies v2[i] == deutsch_mid2(f0, f1)[i] by {
        reveal_with_fuel(mv_dot, 5);
        lemma_c_mul_basis(deutsch_mid1()[0]);
        lemma_c_mul_basis(deutsch_mid1()[1]);
        lemma_c_mul_basis(deutsch_mid1()[2]);
        lemma_c_mul_basis(deutsch_mid1()[3]);
    }
    assert(v2 =~= deutsch_mid2(f0, f1));

    let v3 = mat_vec(h2, deutsch_mid2(f0, f1));
    assert forall|i: int| 0 <= i < 4 implies v3[i] == deutsch_final(f0, f1)[i] by {
        reveal_with_fuel(mv_dot, 5);
        lemma_c_mul_unit_real(h2.entry(i, 0), deutsch_mid2(f0, f1)[0]);
        lemma_c_mul_unit_real(h2.entry(i, 1), deutsch_mid2(f0, f1)[1]);
        lemma_c_mul_unit_real(h2.entry(i, 2), deutsch_mid2(f0, f1)[2]);
        lemma_c_mul_unit_real(h2.entry(i, 3), deutsch_mid2(f0, f1)[3]);
    }
    assert(v3 =~= deutsch_final(f0, f1));

    let fin = deutsch_final(f0, f1);
    assert forall|i: int| 0 <= i < 4 implies c_mag2(#[trigger] fin[i]) == (if i == deutsch_outcome(
        f0,
        f1,
    ) {
        16int
    } else {
        0int
    }) by {
        assert(c_mag2(gi(0)) == 0);
        assert(c_mag2(gi(4)) == 16);
        assert(c_mag2(gi(-4)) == 16);
    }
    reveal_with_fuel(cum, 6);
    assert(cum(fin, 1) == c_mag2(fin[0]));
    assert(cum(fin, 2) == cum(fin, 1) + c_mag2(fin[1]));
    assert(cum(fin, 3) == cum(fin, 2) + c_mag2(fin[2]));
    assert(cum(fin, 4) == cum(fin, 3) + c_mag2(fin[3]));
    assert(total_weight(fin) == 16);
}

/// Builds the oracle gate: the four-dimensional identity with the exchange
/// block `[[0, 1], [1, 0]]` embedded at the top-left corner when `f0` holds
/// and at the bottom-right when `f1` holds.
pub fn deutsch_gate(f0: bool, f1: bool) -> (g: Gate)
    ensures
        g.wf(),
        g.spec_num_qubits() == 2,
        g.spec_matrix() == deutsch_gate_model(f0, f1),
{
    let mut matrix = Matrix::identity(4);
    let mut row0: Vec<i64> = Vec::new();
    row0.push(0);
    row0.push(1);
    let mut row1: Vec<i64> = Vec::new();
    row1.push(1);
    row1.push(0);
    let mut ex_rows: Vec<Vec<i64>> = Vec::new();
    ex_rows.push(row0);
    ex_rows.push(row1);
    let ghost ex_model = seq![c_zero(), c_one(), c_one(), c_zero()];
    proof {
        assert(crate::matrix::square_rows(ex_rows@));
        assert(crate::matrix::rows_entries(ex_rows@) =~= ex_model);
    }
    let exchange = match Matrix::new_real(ex_rows) {
        Ok(m) => m,
        Err(_) => {
            proof {
                assert(false);
            }
            vstd::pervasive::unreached()
        },
    };
    if f0 {
        let r = matrix.embed(&exchange, 0, 0);
        proof {
            assert(r is Ok);
        }
    }
    if f1 {
        let r = matrix.embed(&exchange, 2, 2);
        proof {
            assert(r is Ok);
        }
    }
    proof {
        let m = matrix@;
        let u = deutsch_gate_model(f0, f1);
        assert forall|k: int| 0 <= k < 16 implies m.entries[k] == u.entries[k] by {
            crate::matrix::lemma_cell_split(k, 4);
            let i = k / 4;
            let j = k % 4;
            assert(m.entry(i, j) == m.entries[k]);
            if f0 && 0 <= i < 2 && 0 <= j < 2 {
                lemma_row_col(i, j, 2);
            }
            if f1 && 2 <= i < 4 && 2 <= j < 4 {
                lemma_row_col(i - 2, j - 2, 2);
            }
            lemma_row_col(i, j, 4);
        }
        assert(m.entries =~= u.entries);
        assert(m =~= u);
    }
    match Gate::new(2, matrix) {
        Ok(g) => g,
        Err(_) => {
            proof {
                assert(pow2(2) == 4) by {
                    reveal_with_fuel(pow2, 3);
                }
                assert(false);
            }
            vstd::pervasive::unreached()
        },
    }
}

/// Runs the Deutsch algorithm on a fresh two-qubit register with the given
/// oracle.  Returns `"constant"` exactly when the oracle returns one on both
/// inputs or on neither (for a zero-or-one valued oracle: when
/// `f(0) == f(1)`), and `"balanced"` otherwise, whatever the random source
/// draws: the final state is a basis state, so the measurement is
/// deterministic.
pub fn deutsch_algorithm<O: Oracle, R: RandomSource>(
    computer: QuantumComputer,
    f: &O,
    source: &mut R,
) -> (r: Result<String, Error>)
    requires
        computer.wf(),
        computer.spec_state() is Uninitialized,
        computer.spec_num_qubits() == 2,
    ensures
        r is Ok,
        r is Ok ==> (r->Ok_0@ == "constant"@ <==> ((f.spec_eval(0) == 1) <==> (f.spec_eval(1)
            == 1))),
        r is Ok ==> (r->Ok_0@ == "balanced"@ <==> !((f.spec_eval(0) == 1) <==> (f.spec_eval(1)
            == 1))),
{
    proof {
        assert(pow2(2) == 4) by {
            reveal_with_fuel(pow2, 3);
        }
    }
    let mut c = computer;
    let init_r = c.initialize(1);
    proof {
        assert(init_r is Ok);
    }
    let h2 = hadamard(2);
    let f0 = f.evaluate(0) == 1;
    let f1 = f.evaluate(1) == 1;
    proof {
        lemma_deutsch_pipeline(f0, f1);
        crate::gates::lemma_hadamard_model_props(2);
        assert(c.spec_amplitudes() =~= basis(4, 1));
        assert(bounded_seq(deutsch_mid1(), MAX_AMP as int)) by {
            assert forall|k: int| 0 <= k < 4 implies c_in_bound(
                #[trigger] deutsch_mid1()[k],
                MAX_AMP as int,
            ) by {
                assert(deutsch_mid1()[k].im == 0);
            }
        }
    }
    let ar = c.apply(&h2);
    proof {
        assert(ar is Ok);
    }
    let og = deutsch_gate(f0, f1);
    proof {
        assert(bounded_seq(deutsch_mid2(f0, f1), MAX_AMP as int)) by {
            assert forall|k: int| 0 <= k < 4 implies c_in_bound(
                #[trigger] deutsch_mid2(f0, f1)[k],
                MAX_AMP as int,
            ) by {
                assert(deutsch_mid2(f0, f1)[k].im == 0);
            }
        }
    }
    let ar2 = c.apply(&og);
    proof {
        assert(ar2 is Ok);
    }
    proof {
        assert(bounded_seq(deutsch_final(f0, f1), MAX_AMP as int)) by {
            assert forall|k: int| 0 <= k < 4 implies c_in_bound(
                #[trigger] deutsch_final(f0, f1)[k],
                MAX_AMP as int,
            ) by {
                assert(c_mag2(deutsch_final(f0, f1)[k]) == 16 || c_mag2(deutsch_final(f0, f1)[k])
                    == 0);
                assert(deutsch_final(f0, f1)[k] == gi(0) || deutsch_final(f0, f1)[k] == gi(4)
                    || deutsch_final(f0, f1)[k] == gi(-4));
            }
        }
    }
    let ar3 = c.apply(&h2);
    proof {
        assert(ar3 is Ok);
    }
    let cr = c.collapse(source);
    let measured = match cr {
        Ok(m) => m,
        Err(_) => {
            proof {
                assert(false);
            }
            vstd::pervasive::unreached()
        },
    };
    proof {
        assert(measured == deutsch_outcome(f0, f1)) by {
            assert(c_mag2(deutsch_final(f0, f1)[measured as int]) > 0);
        }
    }
    if measured == 1 {
        let s = "constant".to_string();
        proof {
            vstd::string::to_string_from_display_ensures_for_str("constant", s);
            assert(s@ == "constant"@);
            reveal_strlit("constant");
            reveal_strlit("balanced");
            assert("constant"@[0] == 'c' && "balanced"@[0] == 'b');
            assert(s@ != "balanced"@);
        }
        Ok(s)
    } else {
        let s = "balanced".to_string();
        proof {
            vstd::string::to_string_from_display_ensures_for_str("balanced", s);
            assert(s@ == "balanced"@);
            reveal_strlit("constant");
            reveal_strlit("balanced");
            assert("constant"@[0] == 'c' && "balanced"@[0] == 'b');
            assert(s@ != "constant"@);
        }
        Ok(s)
    }
}

} // verus!
