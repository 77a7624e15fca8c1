//! Square complex matrices with exact entries and a `sqrt(2)`-power scale.
//!
//! A matrix denotes the array of complex values `entries[i*dim + j] /
//! sqrt(2)^scale` (row-major).  Scales add under products, so exact integer
//! entries suffice for every matrix the library builds, including the
//! Hadamard family.

use vstd::arithmetic::div_mod::{lemma_fundamental_div_mod, lemma_mod_bound};
use vstd::prelude::*;

use crate::complex::{c_add, c_in_bound, c_mul, c_one, c_zero, lemma_mul_bound, Complex, GaussInt};
use crate::Error;

verus! {

/// Largest accepted matrix dimension (`2^15`, a 15-qubit register).
pub const MAX_DIM: usize = 32768;

/// Largest accepted magnitude of an entry component.
pub const MAX_ENTRY: i64 = 1099511627776;

/// Largest accepted `sqrt(2)`-power scale.
pub const MAX_SCALE: u32 = 1048576;

/// Mathematical model of a matrix: dimension, scale and the row-major
/// sequence of Gaussian-integer entries.  The denoted complex value of entry
/// `(i, j)` is `entry(i, j) / sqrt(2)^scale`.
#[verifier::ext_equal]
pub ghost struct MatrixModel {
    pub dim: int,
    pub scale: int,
    pub entries: Seq<GaussInt>,
}

impl MatrixModel {
    pub open spec fn entry(self, i: int, j: int) -> GaussInt {
        self.entries[i * self.dim + j]
    }

    pub open spec fn wf(self) -> bool {
        &&& 1 <= self.dim <= MAX_DIM
        &&& 0 <= self.scale <= MAX_SCALE
        &&& self.entries.len() == self.dim * self.dim
        &&& bounded_seq(self.entries, MAX_ENTRY as int)
    }
}

/// Every entry of `s` has both components in `[-b, b]`.
pub open spec fn bounded_seq(s: Seq<GaussInt>, b: int) -> bool {
    forall|k: int| 0 <= k < s.len() ==> c_in_bound(#[trigger] s[k], b)
}

/// The Gaussian-integer values of a vector of `Complex`.
pub open spec fn gauss_seq(v: Seq<Complex>) -> Seq<GaussInt> {
    v.map_values(|c: Complex| c@)
}

/// Every row of `rows` holds exactly `rows.len()` values.
pub open spec fn square_rows(rows: Seq<Vec<i64>>) -> bool {
    forall|i: int| 0 <= i < rows.len() ==> (#[trigger] rows[i])@.len() == rows.len()
}

/// The row-major Gaussian-integer entries denoted by nested real rows.
pub open spec fn rows_entries(rows: Seq<Vec<i64>>) -> Seq<GaussInt> {
    Seq::new(
        (rows.len() * rows.len()) as nat,
        |k: int|
            GaussInt {
                re: rows[k / rows.len() as int]@[k % rows.len() as int] as int,
                im: 0,
            },
    )
}

pub open spec fn identity_entries(d: int) -> Seq<GaussInt> {
    Seq::new((d * d) as nat, |k: int| if k / d == k % d { c_one() } else { c_zero() })
}

/// The identity matrix of dimension `d` (scale zero).
pub open spec fn identity_model(d: int) -> MatrixModel {
    MatrixModel { dim: d, scale: 0, entries: identity_entries(d) }
}

/// Partial inner product of row `i` of `a` with column `j` of `b`, over the
/// first `n` terms.
pub open spec fn dot(a: MatrixModel, b: MatrixModel, i: int, j: int, n: nat) -> GaussInt
    decreases n,
{
    if n == 0 {
        c_zero()
    } else {
        c_add(dot(a, b, i, j, (n - 1) as nat), c_mul(a.entry(i, n - 1), b.entry(n - 1, j)))
    }
}

/// Entry `(i, j)` of the matrix product `a * b`.
pub open spec fn mul_entry(a: MatrixModel, b: MatrixModel, i: int, j: int) -> GaussInt {
    dot(a, b, i, j, a.dim as nat)
}

/// The matrix product: entries multiply and accumulate, scales add.
pub open spec fn mul_model(a: MatrixModel, b: MatrixModel) -> MatrixModel {
    MatrixModel {
        dim: a.dim,
        scale: a.scale + b.scale,
        entries: Seq::new(
            (a.dim * a.dim) as nat,
            |k: int| mul_entry(a, b, k / a.dim, k % a.dim),
        ),
    }
}

/// Partial inner product of row `i` of `m` with the vector `v`, over the
/// first `n` terms.
pub open spec fn mv_dot(m: MatrixModel, v: Seq<GaussInt>, i: int, n: nat) -> GaussInt
    decreases n,
{
    if n == 0 {
        c_zero()
    } else {
        c_add(mv_dot(m, v, i, (n - 1) as nat), c_mul(m.entry(i, n - 1), v[n - 1]))
    }
}

/// The matrix applied to a column vector: `r[i] = sum_j m[i][j] * v[j]`.
pub open spec fn mat_vec(m: MatrixModel, v: Seq<GaussInt>) -> Seq<GaussInt> {
    Seq::new(m.dim as nat, |i: int| mv_dot(m, v, i, m.dim as nat))
}

/// The Kronecker (tensor) product: dimensions multiply, scales add, and
/// `r[i][j] = a[i / b.dim][j / b.dim] * b[i % b.dim][j % b.dim]`.
pub open spec fn kron_model(a: MatrixModel, b: MatrixModel) -> MatrixModel {
    MatrixModel {
        dim: a.dim * b.dim,
        scale: a.scale + b.scale,
        entries: Seq::new(
            ((a.dim * b.dim) * (a.dim * b.dim)) as nat,
            |k: int|
                {
                    let d = a.dim * b.dim;
                    let i = k / d;
                    let j = k % d;
                    c_mul(a.entry(i / b.dim, j / b.dim), b.entry(i % b.dim, j % b.dim))
                },
        ),
    }
}

/// Row-major index arithmetic: `(i, j)` with `i, j < d` addresses cell
/// `i * d + j`, and that map is a bijection onto `[0, d * d)`.
pub proof fn lemma_row_col(i: int, j: int, d: int)
    by (nonlinear_arith)
    requires
        0 <= i < d,
        0 <= j < d,
    ensures
        0 <= i * d + j < d * d,
        (i * d + j) / d == i,
        (i * d + j) % d == j,
{
}

/// Splitting a cell index `k < d * d` into its row `k / d` and column `k % d`.
pub proof fn lemma_cell_split(k: int, d: int)
    requires
        0 <= k < d * d,
        0 < d,
    ensures
        0 <= k / d < d,
        0 <= k % d < d,
        (k / d) * d + k % d == k,
{
    lemma_fundamental_div_mod(k, d);
    lemma_mod_bound(k, d);
    assert(0 <= k / d < d && (k / d) * d + k % d == k) by (nonlinear_arith)
        requires
            0 <= k < d * d,
            0 < d,
            k == d * (k / d) + k % d,
            0 <= k % d < d,
    {
    }
}

/// An exact square complex matrix.
pub struct Matrix {
    dimension: usize,
    scale: u32,
    elements: Vec<Complex>,
}

impl View for Matrix {
    type V = MatrixModel;

    closed spec fn view(&self) -> MatrixModel {
        MatrixModel {
            dim: self.dimension as int,
            scale: self.scale as int,
            entries: gauss_seq(self.elements@),
        }
    }
}

impl Matrix {
    pub open spec fn wf(&self) -> bool {
        self@.wf()
    }

    pub fn dimension(&self) -> (r: usize)
        ensures
            r == self@.dim,
    {
        self.dimension
    }

    /// The power `s` such that every entry is divided by `sqrt(2)^s`.
    pub fn scale(&self) -> (r: u32)
        ensures
            r == self@.scale,
    {
        self.scale
    }

    pub fn get(&self, i: usize, j: usize) -> (r: Complex)
        requires
            self.wf(),
            i < self@.dim,
            j < self@.dim,
        ensures
            r@ == self@.entry(i as int, j as int),
    {
        proof {
            lemma_row_col(i as int, j as int, self@.dim);
            lemma_mul_bound(self@.dim, self@.dim, MAX_DIM as int, MAX_DIM as int);
        }
        self.elements[i * self.dimension + j]
    }

    /// Builds a matrix of scale zero from a row-major element list.
    ///
    /// Fails with `DimensionMismatch` when the list does not hold exactly
    /// `dimension^2` elements (a zero dimension is rejected the same way),
    /// and with `Overflow` when the dimension or an entry leaves the exact
    /// range the library supports.
    #[verifier::loop_isolation(false)]
    pub fn new_from_elements(dimension: usize, elements: Vec<Complex>) -> (r: Result<Matrix, Error>)
        ensures
            r is Ok <==> {
                &&& 1 <= dimension <= MAX_DIM
                &&& elements@.len() == dimension * dimension
                &&& bounded_seq(gauss_seq(elements@), MAX_ENTRY as int)
            },
            r is Ok ==> {
                &&& r->Ok_0.wf()
                &&& r->Ok_0@.dim == dimension
                &&& r->Ok_0@.scale == 0
                &&& r->Ok_0@.entries == gauss_seq(elements@)
            },
            r == Err::<Matrix, Error>(Error::DimensionMismatch) <==> (dimension == 0 || (
            dimension <= MAX_DIM && elements@.len() != dimension * dimension)),
            r == Err::<Matrix, Error>(Error::Overflow) <==> (dimension > MAX_DIM || (1 <= dimension
                <= MAX_DIM && elements@.len() == dimension * dimension && !bounded_seq(
                gauss_seq(elements@),
                MAX_ENTRY as int,
            ))),
    {
        if dimension == 0 {
            return Err(Error::DimensionMismatch);
        }
        if dimension > MAX_DIM {
            return Err(Error::Overflow);
        }
        proof {
            lemma_mul_bound(dimension as int, dimension as int, MAX_DIM as int, MAX_DIM as int);
        }
        if elements.len() != dimension * dimension {
            return Err(Error::DimensionMismatch);
        }
        let mut k: usize = 0;
        while k < elements.len()
            invariant
                1 <= dimension <= MAX_DIM,
                elements@.len() == dimension * dimension,
                k <= elements@.len(),
                forall|q: int| 0 <= q < k ==> c_in_bound(#[trigger] gauss_seq(elements@)[q], MAX_ENTRY as int),
            decreases elements@.len() - k,
        {
            let c = elements[k];
            if c.re > MAX_ENTRY || c.re < -MAX_ENTRY || c.im > MAX_ENTRY || c.im < -MAX_ENTRY {
                assert(!c_in_bound(gauss_seq(elements@)[k as int], MAX_ENTRY as int));
                return Err(Error::Overflow);
            }
            k += 1;
        }
        Ok(Matrix { dimension, scale: 0, elements })
    }

    /// Builds a matrix of scale zero from nested rows of real integer values:
    /// every row must hold exactly as many values as there are rows, and each
    /// value becomes a complex entry with zero imaginary part.  Fails with
    /// `DimensionMismatch` when the structure is empty or not square.
    #[verifier::loop_isolation(false)]
    pub fn new_real(rows: Vec<Vec<i64>>) -> (r: Result<Matrix, Error>)
        ensures
            r is Ok <==> {
                &&& 1 <= rows@.len() <= MAX_DIM
                &&& square_rows(rows@)
                &&& bounded_seq(rows_entries(rows@), MAX_ENTRY as int)
            },
            r is Ok ==> {
                &&& r->Ok_0.wf()
                &&& r->Ok_0@.dim == rows@.len()
                &&& r->Ok_0@.scale == 0
                &&& r->Ok_0@.entries == rows_entries(rows@)
            },
            r == Err::<Matrix, Error>(Error::DimensionMismatch) <==> (rows@.len() == 0 || (
            rows@.len() <= MAX_DIM && !square_rows(rows@))),
            r == Err::<Matrix, Error>(Error::Overflow) <==> (rows@.len() > MAX_DIM || (1
                <= rows@.len() <= MAX_DIM && square_rows(rows@) && !bounded_seq(
                rows_entries(rows@),
                MAX_ENTRY as int,
            ))),
    {
        let d = rows.len();
        if d == 0 {
            return Err(Error::DimensionMismatch);
        }
        if d > MAX_DIM {
            return Err(Error::Overflow);
        }
        let mut i: usize = 0;
        while i < d
            invariant
                i <= d,
                forall|q: int| 0 <= q < i ==> (#[trigger] rows@[q])@.len() == d,
            decreases d - i,
        {
            if rows[i].len() != d {
                return Err(Error::DimensionMismatch);
            }
            i += 1;
        }
        proof {
            lemma_mul_bound(d as int, d as int, MAX_DIM as int, MAX_DIM as int);
        }
        let mut flat: Vec<Complex> = Vec::new();
        i = 0;
        while i < d
            invariant
                i <= d,
                flat@.len() == i * d,
                forall|q: int| 0 <= q < i * d ==> gauss_seq(flat@)[q] == rows_entries(rows@)[q],
            decreases d - i,
        {
            let mut j: usize = 0;
            proof {
                lemma_mul_bound(i as int, d as int, MAX_DIM as int, MAX_DIM as int);
            }
            while j < d
                invariant
                    i < d,
                    j <= d,
                    flat@.len() == i * d + j,
                    forall|q: int| 0 <= q < i * d + j ==> gauss_seq(flat@)[q] == rows_entries(
                        rows@,
                    )[q],
                decreases d - j,
            {
                proof {
                    lemma_row_col(i as int, j as int, d as int);
                }
                let ghost before = flat@;
                let c = Complex::new(rows[i][j], 0);
                flat.push(c);
                proof {
                    assert(gauss_seq(flat@) =~= gauss_seq(before).push(c@));
                }
                j += 1;
            }
            i += 1;
            proof {
                assert((i as int) * d == (i as int - 1) * d + d) by (nonlinear_arith);
            }
        }
        proof {
            assert(gauss_seq(flat@) =~= rows_entries(rows@));
        }
        match Matrix::new_from_elements(d, flat) {
            Ok(m) => Ok(m),
            Err(e) => {
                proof {
                    assert(e == Error::Overflow);
                }
                Err(Error::Overflow)
            },
        }
    }

    /// Builds a matrix with an explicit `sqrt(2)`-power scale: each listed
    /// entry denotes its value divided by `sqrt(2)^scale`.  The failure cases
    /// are those of `new_from_elements`, plus `Overflow` for a scale beyond
    /// `MAX_SCALE`.
    pub fn new_scaled(dimension: usize, scale: u32, elements: Vec<Complex>) -> (r: Result<
        Matrix,
        Error,
    >)
        ensures
            r is Ok <==> {
                &&& 1 <= dimension <= MAX_DIM
                &&& scale <= MAX_SCALE
                &&& elements@.len() == dimension * dimension
                &&& bounded_seq(gauss_seq(elements@), MAX_ENTRY as int)
            },
            r is Ok ==> {
                &&& r->Ok_0.wf()
                &&& r->Ok_0@.dim == dimension
                &&& r->Ok_0@.scale == scale
                &&& r->Ok_0@.entries == gauss_seq(elements@)
            },
            r is Err ==> (r == Err::<Matrix, Error>(Error::DimensionMismatch) || r == Err::<
                Matrix,
                Error,
            >(Error::Overflow)),
    {
        if scale > MAX_SCALE {
            return Err(Error::Overflow);
        }
        match Matrix::new_from_elements(dimension, elements) {
            Ok(mut m) => {
                m.scale = scale;
                Ok(m)
            },
            Err(e) => Err(e),
        }
    }

    /// The multiplicative identity matrix: one on the diagonal, zero
    /// elsewhere, scale zero.
    #[verifier::loop_isolation(false)]
    pub fn identity(dimension: usize) -> (r: Matrix)
        requires
            1 <= dimension <= MAX_DIM,
        ensures
            r.wf(),
            r@ == identity_model(dimension as int),
    {
        proof {
            lemma_mul_bound(dimension as int, dimension as int, MAX_DIM as int, MAX_DIM as int);
        }
        let total = dimension * dimension;
        let mut elements: Vec<Complex> = Vec::new();
        let mut k: usize = 0;
        while k < total
            invariant
                1 <= dimension <= MAX_DIM,
                total == dimension * dimension,
                k <= total,
                elements@.len() == k,
                forall|q: int| 0 <= q < k ==> gauss_seq(elements@)[q] == identity_entries(
                    dimension as int,
                )[q],
            decreases total - k,
        {
            let row = k / dimension;
            let col = k % dimension;
            let e = if row == col {
                Complex::one()
            } else {
                Complex::zero()
            };
            elements.push(e);
            k += 1;
        }
        let m = Matrix { dimension, scale: 0, elements };
        proof {
            assert(m@.entries =~= identity_entries(dimension as int));
            assert(m@ =~= identity_model(dimension as int));
            assert forall|q: int| 0 <= q < m@.entries.len() implies c_in_bound(
                #[trigger] m@.entries[q],
                MAX_ENTRY as int,
            ) by {
                assert(m@.entries[q] == identity_entries(dimension as int)[q]);
            }
        }
        m
    }

    /// Standard matrix product.  Fails with `DimensionMismatch` when the
    /// operand dimensions differ, and with `Overflow` when the result would
    /// leave the exact range (an entry beyond `MAX_ENTRY`, or a combined
    /// scale beyond `MAX_SCALE`).  Otherwise the result is exactly
    /// `mul_model(self@, other@)`.
    #[verifier::loop_isolation(false)]
    pub fn multiply(&self, other: &Matrix) -> (r: Result<Matrix, Error>)
        requires
            self.wf(),
            other.wf(),
        ensures
            r == Err::<Matrix, Error>(Error::DimensionMismatch) <==> self@.dim != other@.dim,
            r == Err::<Matrix, Error>(Error::Overflow) <==> (self@.dim == other@.dim && (self@.scale
                + other@.scale > MAX_SCALE || !bounded_seq(
                mul_model(self@, other@).entries,
                MAX_ENTRY as int,
            ))),
            r is Ok <==> (self@.dim == other@.dim && self@.scale + other@.scale <= MAX_SCALE
                && bounded_seq(mul_model(self@, other@).entries, MAX_ENTRY as int)),
            r is Ok ==> r->Ok_0.wf() && r->Ok_0@ == mul_model(self@, other@),
    {
        if self.dimension != other.dimension {
            return Err(Error::DimensionMismatch);
        }
        if self.scale > MAX_SCALE - other.scale {
            return Err(Error::Overflow);
        }
        let d = self.dimension;
        let ghost gm = mul_model(self@, other@);
        proof {
            lemma_mul_bound(d as int, d as int, MAX_DIM as int, MAX_DIM as int);
        }
        let mut elements: Vec<Complex> = Vec::new();
        let mut i: usize = 0;
        while i < d
            invariant
                self.wf(),
                other.wf(),
                self@.dim == d,
                other@.dim == d,
                1 <= d <= MAX_DIM,
                gm == mul_model(self@, other@),
                i <= d,
                elements@.len() == i * d,
                forall|q: int| 0 <= q < i * d ==> gauss_seq(elements@)[q] == gm.entries[q],
                forall|q: int| 0 <= q < i * d ==> c_in_bound(
                    #[trigger] gauss_seq(elements@)[q],
                    MAX_ENTRY as int,
                ),
            decreases d - i,
        {
            let mut j: usize = 0;
            proof {
                lemma_mul_bound(i as int, d as int, MAX_DIM as int, MAX_DIM as int);
            }
            while j < d
                invariant
                    self.wf(),
                    other.wf(),
                    self@.dim == d,
                    other@.dim == d,
                    1 <= d <= MAX_DIM,
                    gm == mul_model(self@, other@),
                    i < d,
                    j <= d,
                    elements@.len() == i * d + j,
                    forall|q: int| 0 <= q < i * d + j ==> gauss_seq(elements@)[q] == gm.entries[q],
                    forall|q: int| 0 <= q < i * d + j ==> c_in_bound(
                        #[trigger] gauss_seq(elements@)[q],
                        MAX_ENTRY as int,
                    ),
                decreases d - j,
            {
                let mut acc_re: i128 = 0;
                let mut acc_im: i128 = 0;
                let mut k: usize = 0;
                while k < d
                    invariant
                        self.wf(),
                        other.wf(),
                        self@.dim == d,
                        other@.dim == d,
                        1 <= d <= MAX_DIM,
                        i < d,
                        j < d,
                        k <= d,
                        acc_re == dot(self@, other@, i as int, j as int, k as nat).re,
                        acc_im == dot(self@, other@, i as int, j as int, k as nat).im,
                        -(k as int) * 2417851639229258349412352 <= acc_re
                            <= (k as int) * 2417851639229258349412352,
                        -(k as int) * 2417851639229258349412352 <= acc_im
                            <= (k as int) * 2417851639229258349412352,
                    decreases d - k,
                {
                    proof {
                        lemma_row_col(i as int, k as int, d as int);
                        lemma_row_col(k as int, j as int, d as int);
                        lemma_mul_bound(d as int, d as int, MAX_DIM as int, MAX_DIM as int);
                    }
                    let a = self.elements[i * d + k];
                    let b = other.elements[k * d + j];
                    proof {
                        assert(a@ == self@.entries[i as int * d + k as int]);
                        assert(b@ == other@.entries[k as int * d + j as int]);
                        lemma_mul_bound(a@.re, b@.re, MAX_ENTRY as int, MAX_ENTRY as int);
                        lemma_mul_bound(a@.im, b@.im, MAX_ENTRY as int, MAX_ENTRY as int);
                        lemma_mul_bound(a@.re, b@.im, MAX_ENTRY as int, MAX_ENTRY as int);
                        lemma_mul_bound(a@.im, b@.re, MAX_ENTRY as int, MAX_ENTRY as int);
                        lemma_mul_bound(
                            k as int + 1,
                            2 * (MAX_ENTRY as int) * (MAX_ENTRY as int),
                            MAX_DIM as int,
                            2 * (MAX_ENTRY as int) * (MAX_ENTRY as int),
                        );
                        lemma_mul_bound(
                            k as int,
                            2 * (MAX_ENTRY as int) * (MAX_ENTRY as int),
                            MAX_DIM as int,
                            2 * (MAX_ENTRY as int) * (MAX_ENTRY as int),
                        );
                    }
                    let t_re = a.re as i128 * b.re as i128 - a.im as i128 * b.im as i128;
                    let t_im = a.re as i128 * b.im as i128 + a.im as i128 * b.re as i128;
                    acc_re = acc_re + t_re;
                    acc_im = acc_im + t_im;
                    k += 1;
                    proof {
                        assert((k as int) * 2417851639229258349412352 == (k
                            as int - 1) * 2417851639229258349412352 + 2 * (
                        MAX_ENTRY as int) * (MAX_ENTRY as int)) by (nonlinear_arith);
                    }
                }
                proof {
                    lemma_row_col(i as int, j as int, d as int);
                    assert(gm.entries[i as int * d + j as int] == mul_entry(
                        self@,
                        other@,
                        i as int,
                        j as int,
                    ));
                }
                if acc_re > MAX_ENTRY as i128 || acc_re < -(MAX_ENTRY as i128) || acc_im
                    > MAX_ENTRY as i128 || acc_im < -(MAX_ENTRY as i128) {
                    assert(!c_in_bound(gm.entries[i as int * d + j as int], MAX_ENTRY as int));
                    return Err(Error::Overflow);
                }
                let ghost before = elements@;
                let c = Complex { re: acc_re as i64, im: acc_im as i64 };
                elements.push(c);
                proof {
                    assert(gauss_seq(elements@) =~= gauss_seq(before).push(c@));
                }
                j += 1;
            }
            i += 1;
            proof {
                assert((i as int) * d == (i as int - 1) * d + d) by (nonlinear_arith);
            }
        }
        let m = Matrix { dimension: d, scale: self.scale + other.scale, elements };
        proof {
            assert(m@.entries.len() == gm.entries.len());
            assert(m@.entries =~= gm.entries);
            assert(m@ =~= gm);
        }
        Ok(m)
    }

    /// Applies the matrix to a column vector of the same dimension:
    /// `r[i] = sum_j self[i][j] * v[j]`.  The caller tracks the vector's own
    /// scale; it grows by `self@.scale`.
    #[verifier::loop_isolation(false)]
    pub fn multiply_vector(&self, vector: &Vec<Complex>) -> (r: Result<Vec<Complex>, Error>)
        requires
            self.wf(),
            bounded_seq(gauss_seq(vector@), MAX_ENTRY as int),
        ensures
            r == Err::<Vec<Complex>, Error>(Error::DimensionMismatch) <==> vector@.len()
                != self@.dim,
            r == Err::<Vec<Complex>, Error>(Error::Overflow) <==> (vector@.len() == self@.dim
                && !bounded_seq(mat_vec(self@, gauss_seq(vector@)), MAX_ENTRY as int)),
            r is Ok <==> (vector@.len() == self@.dim && bounded_seq(
                mat_vec(self@, gauss_seq(vector@)),
                MAX_ENTRY as int,
            )),
            r is Ok ==> gauss_seq(r->Ok_0@) == mat_vec(self@, gauss_seq(vector@)),
    {
        if vector.len() != self.dimension {
            return Err(Error::DimensionMismatch);
        }
        let d = self.dimension;
        let ghost gv = gauss_seq(vector@);
        let ghost gr = mat_vec(self@, gv);
        let mut result: Vec<Complex> = Vec::new();
        let mut i: usize = 0;
        while i < d
            invariant
                self.wf(),
                self@.dim == d,
                1 <= d <= MAX_DIM,
                vector@.len() == d,
                gv == gauss_seq(vector@),
                bounded_seq(gv, MAX_ENTRY as int),
                gr == mat_vec(self@, gv),
                i <= d,
                result@.len() == i,
                forall|q: int| 0 <= q < i ==> gauss_seq(result@)[q] == gr[q],
                forall|q: int| 0 <= q < i ==> c_in_bound(
                    #[trigger] gauss_seq(result@)[q],
                    MAX_ENTRY as int,
                ),
            decreases d - i,
        {
            let mut acc_re: i128 = 0;
            let mut acc_im: i128 = 0;
            let mut k: usize = 0;
            while k < d
                invariant
                    self.wf(),
                    self@.dim == d,
                    1 <= d <= MAX_DIM,
                    vector@.len() == d,
                    gv == gauss_seq(vector@),
                    bounded_seq(gv, MAX_ENTRY as int),
                    i < d,
                    k <= d,
                    acc_re == mv_dot(self@, gv, i as int, k as nat).re,
                    acc_im == mv_dot(self@, gv, i as int, k as nat).im,
                    -(k as int) * 2417851639229258349412352 <= acc_re <= (
                    k as int) * 2417851639229258349412352,
                    -(k as int) * 2417851639229258349412352 <= acc_im <= (
                    k as int) * 2417851639229258349412352,
                decreases d - k,
            {
                proof {
                    lemma_row_col(i as int, k as int, d as int);
                    lemma_mul_bound(d as int, d as int, MAX_DIM as int, MAX_DIM as int);
                }
                let a = self.elements[i * d + k];
                let b = vector[k];
                proof {
                    assert(a@ == self@.entries[i as int * d + k as int]);
                    assert(b@ == gv[k as int]);
                    lemma_mul_bound(a@.re, b@.re, MAX_ENTRY as int, MAX_ENTRY as int);
                    lemma_mul_bound(a@.im, b@.im, MAX_ENTRY as int, MAX_ENTRY as int);
                    lemma_mul_bound(a@.re, b@.im, MAX_ENTRY as int, MAX_ENTRY as int);
                    lemma_mul_bound(a@.im, b@.re, MAX_ENTRY as int, MAX_ENTRY as int);
                    lemma_mul_bound(
                        k as int + 1,
                        2 * (MAX_ENTRY as int) * (MAX_ENTRY as int),
                        MAX_DIM as int,
                        2 * (MAX_ENTRY as int) * (MAX_ENTRY as int),
                    );
                    lemma_mul_bound(
                        k as int,
                        2 * (MAX_ENTRY as int) * (MAX_ENTRY as int),
                        MAX_DIM as int,
                        2 * (MAX_ENTRY as int) * (MAX_ENTRY as int),
                    );
                }
                let t_re = a.re as i128 * b.re as i128 - a.im as i128 * b.im as i128;
                let t_im = a.re as i128 * b.im as i128 + a.im as i128 * b.re as i128;
                acc_re = acc_re + t_re;
                acc_im = acc_im + t_im;
                k += 1;
                proof {
                    assert((k as int) * 2417851639229258349412352 == (k as int
                        - 1) * 2417851639229258349412352 + 2 * (MAX_ENTRY
                        as int) * (MAX_ENTRY as int)) by (nonlinear_arith);
                }
            }
            if acc_re > MAX_ENTRY as i128 || acc_re < -(MAX_ENTRY as i128) || acc_im > MAX_ENTRY
                as i128 || acc_im < -(MAX_ENTRY as i128) {
                assert(!c_in_bound(gr[i as int], MAX_ENTRY as int));
                return Err(Error::Overflow);
            }
            let ghost before = result@;
            let c = Complex { re: acc_re as i64, im: acc_im as i64 };
            result.push(c);
            proof {
                assert(gauss_seq(result@) =~= gauss_seq(before).push(c@));
            }
            i += 1;
        }
        proof {
            assert(gauss_seq(result@) =~= gr);
        }
        Ok(result)
    }

    /// Overwrites the `sub.dimension x sub.dimension` block whose top-left
    /// corner is `(row_offset, col_offset)` with the entries of `sub`,
    /// leaving every other entry untouched.  Fails with `OutOfBounds` when
    /// the block does not fit.  The two matrices must share a scale: the
    /// library's exact representation cannot express a block whose
    /// `sqrt(2)`-power differs from its surroundings.
    #[verifier::loop_isolation(false)]
    pub fn embed(&mut self, sub: &Matrix, row_offset: usize, col_offset: usize) -> (r: Result<
        (),
        Error,
    >)
        requires
            old(self).wf(),
            sub.wf(),
            old(self)@.scale == sub@.scale,
        ensures
            final(self).wf(),
            final(self)@.dim == old(self)@.dim,
            final(self)@.scale == old(self)@.scale,
            r == Err::<(), Error>(Error::OutOfBounds) <==> (row_offset + sub@.dim > old(self)@.dim
                || col_offset + sub@.dim > old(self)@.dim),
            r is Ok <==> (row_offset + sub@.dim <= old(self)@.dim && col_offset + sub@.dim <= old(
                self,
            )@.dim),
            r is Err ==> final(self)@ == old(self)@,
            r is Ok ==> forall|i: int, j: int|
                0 <= i < old(self)@.dim && 0 <= j < old(self)@.dim ==> final(self)@.entry(i, j) == (
                if row_offset <= i < row_offset + sub@.dim && col_offset <= j < col_offset
                    + sub@.dim {
                    sub@.entry(i - row_offset, j - col_offset)
                } else {
                    old(self)@.entry(i, j)
                }),
    {
        let d = self.dimension;
        let sd = sub.dimension;
        if sd > d || row_offset > d - sd || col_offset > d - sd {
            return Err(Error::OutOfBounds);
        }
        let mut i: usize = 0;
        while i < sd
            invariant
                sub.wf(),
                sub@.dim == sd,
                self.dimension == d,
                self.scale == old(self).scale,
                self@.entries.len() == old(self)@.entries.len(),
                old(self).wf(),
                1 <= d <= MAX_DIM,
                1 <= sd <= d,
                row_offset + sd <= d,
                col_offset + sd <= d,
                i <= sd,
                forall|q: int| 0 <= q < d * d && !block_cell(
                    q,
                    d as int,
                    row_offset as int,
                    col_offset as int,
                    sd as int,
                    i as int,
                ) ==> gauss_seq(self.elements@)[q] == gauss_seq(old(self).elements@)[q],
                forall|a: int, b: int| 0 <= a < i && 0 <= b < sd ==> gauss_seq(self.elements@)[(
                row_offset + a) * d + (col_offset + b)] == sub@.entry(a, b),
            decreases sd - i,
        {
            let mut j: usize = 0;
            while j < sd
                invariant
                    sub.wf(),
                    sub@.dim == sd,
                    self.dimension == d,
                    self.scale == old(self).scale,
                    self@.entries.len() == old(self)@.entries.len(),
                    old(self).wf(),
                    1 <= d <= MAX_DIM,
                    1 <= sd <= d,
                    row_offset + sd <= d,
                    col_offset + sd <= d,
                    i < sd,
                    j <= sd,
                    forall|q: int| 0 <= q < d * d && !block_cell_row(
                        q,
                        d as int,
                        row_offset as int,
                        col_offset as int,
                        sd as int,
                        i as int,
                        j as int,
                    ) ==> gauss_seq(self.elements@)[q] == gauss_seq(old(self).elements@)[q],
                    forall|a: int, b: int| 0 <= a < i && 0 <= b < sd ==> gauss_seq(self.elements@)[
                    (row_offset + a) * d + (col_offset + b)] == sub@.entry(a, b),
                    forall|b: int| 0 <= b < j ==> gauss_seq(self.elements@)[(row_offset + i) * d + (
                    col_offset + b)] == sub@.entry(i as int, b),
                decreases sd - j,
            {
                proof {
                    lemma_row_col(i as int, j as int, sd as int);
                    lemma_row_col(row_offset as int + i, col_offset as int + j, d as int);
                    lemma_mul_bound(sd as int, sd as int, MAX_DIM as int, MAX_DIM as int);
                    lemma_mul_bound(d as int, d as int, MAX_DIM as int, MAX_DIM as int);
                }
                let v = sub.elements[i * sd + j];
                let idx = (row_offset + i) * d + (col_offset + j);
                self.elements[idx] = v;
                proof {
                    assert forall|a: int, b: int| 0 <= a < i && 0 <= b < sd implies gauss_seq(
                        self.elements@,
                    )[(row_offset + a) * d + (col_offset + b)] == sub@.entry(a, b) by {
                        lemma_row_col(row_offset + a, col_offset + b, d as int);
                    }
                    assert forall|b: int| 0 <= b < j + 1 implies gauss_seq(self.elements@)[(
                    row_offset + i) * d + (col_offset + b)] == sub@.entry(i as int, b) by {
                        lemma_row_col(row_offset as int + i, col_offset + b, d as int);
                        lemma_row_col(i as int, b, sd as int);
                    }
                }
                j += 1;
            }
            i += 1;
        }
        proof {
            lemma_embed_post(old(self)@, sub@, self@, row_offset as int, col_offset as int);
        }
        Ok(())
    }

    /// The Kronecker (tensor) product `self (x) other`.  Fails with
    /// `Overflow` when the combined dimension, scale or an entry product
    /// leaves the exact range.  Otherwise the result is exactly
    /// `kron_model(self@, other@)`.
    #[verifier::loop_isolation(false)]
    pub fn kronecker(&self, other: &Matrix) -> (r: Result<Matrix, Error>)
        requires
            self.wf(),
            other.wf(),
        ensures
            r is Ok <==> (self@.dim * other@.dim <= MAX_DIM && self@.scale + other@.scale
                <= MAX_SCALE && bounded_seq(kron_model(self@, other@).entries, MAX_ENTRY as int)),
            r is Err ==> r == Err::<Matrix, Error>(Error::Overflow),
            r is Ok ==> r->Ok_0.wf() && r->Ok_0@ == kron_model(self@, other@),
    {
        proof {
            lemma_mul_bound(self@.dim, other@.dim, MAX_DIM as int, MAX_DIM as int);
        }
        let big = self.dimension * other.dimension;
        if big > MAX_DIM {
            return Err(Error::Overflow);
        }
        if self.scale > MAX_SCALE - other.scale {
            return Err(Error::Overflow);
        }
        let d1 = self.dimension;
        let d2 = other.dimension;
        let ghost gk = kron_model(self@, other@);
        proof {
            lemma_mul_bound(big as int, big as int, MAX_DIM as int, MAX_DIM as int);
            assert(big >= 1) by (nonlinear_arith)
                requires
                    big == d1 * d2,
                    d1 >= 1,
                    d2 >= 1,
            {
            }
        }
        let mut elements: Vec<Complex> = Vec::new();
        let mut i: usize = 0;
        while i < big
            invariant
                self.wf(),
                other.wf(),
                self@.dim == d1,
                other@.dim == d2,
                big == d1 * d2,
                1 <= big <= MAX_DIM,
                gk == kron_model(self@, other@),
                i <= big,
                elements@.len() == i * big,
                forall|q: int| 0 <= q < i * big ==> gauss_seq(elements@)[q] == gk.entries[q],
                forall|q: int| 0 <= q < i * big ==> c_in_bound(
                    #[trigger] gauss_seq(elements@)[q],
                    MAX_ENTRY as int,
                ),
            decreases big - i,
        {
            let mut j: usize = 0;
            proof {
                lemma_mul_bound(i as int, big as int, MAX_DIM as int, MAX_DIM as int);
            }
            while j < big
                invariant
                    self.wf(),
                    other.wf(),
                    self@.dim == d1,
                    other@.dim == d2,
                    big == d1 * d2,
                    1 <= big <= MAX_DIM,
                    gk == kron_model(self@, other@),
                    i < big,
                    j <= big,
                    elements@.len() == i * big + j,
                    forall|q: int| 0 <= q < i * big + j ==> gauss_seq(elements@)[q]
                        == gk.entries[q],
                    forall|q: int| 0 <= q < i * big + j ==> c_in_bound(
                        #[trigger] gauss_seq(elements@)[q],
                        MAX_ENTRY as int,
                    ),
                decreases big - j,
            {
                proof {
                    lemma_row_col(i as int, j as int, big as int);
                    lemma_kron_index(i as int, j as int, d1 as int, d2 as int);
                    lemma_row_col(i as int / d2 as int, j as int / d2 as int, d1 as int);
                    lemma_row_col(i as int % d2 as int, j as int % d2 as int, d2 as int);
                    lemma_mul_bound(d1 as int, d1 as int, MAX_DIM as int, MAX_DIM as int);
                    lemma_mul_bound(d2 as int, d2 as int, MAX_DIM as int, MAX_DIM as int);
                    lemma_mul_bound(big as int, big as int, MAX_DIM as int, MAX_DIM as int);
                }
                let a = self.elements[(i / d2) * d1 + (j / d2)];
                let b = other.elements[(i % d2) * d2 + (j % d2)];
                proof {
                    assert(a@ == self@.entries[(i as int / d2 as int) * d1 + (j as int
                        / d2 as int)]);
                    assert(b@ == other@.entries[(i as int % d2 as int) * d2 + (j as int
                        % d2 as int)]);
                    lemma_mul_bound(a@.re, b@.re, MAX_ENTRY as int, MAX_ENTRY as int);
                    lemma_mul_bound(a@.im, b@.im, MAX_ENTRY as int, MAX_ENTRY as int);
                    lemma_mul_bound(a@.re, b@.im, MAX_ENTRY as int, MAX_ENTRY as int);
                    lemma_mul_bound(a@.im, b@.re, MAX_ENTRY as int, MAX_ENTRY as int);
                }
                let t_re = a.re as i128 * b.re as i128 - a.im as i128 * b.im as i128;
                let t_im = a.re as i128 * b.im as i128 + a.im as i128 * b.re as i128;
                if t_re > MAX_ENTRY as i128 || t_re < -(MAX_ENTRY as i128) || t_im > MAX_ENTRY
                    as i128 || t_im < -(MAX_ENTRY as i128) {
                    assert(!c_in_bound(gk.entries[i as int * big + j as int], MAX_ENTRY as int));
                    return Err(Error::Overflow);
                }
                let ghost before = elements@;
                let c = Complex { re: t_re as i64, im: t_im as i64 };
                elements.push(c);
                proof {
                    assert(gauss_seq(elements@) =~= gauss_seq(before).push(c@));
                }
                j += 1;
            }
            i += 1;
            proof {
                assert((i as int) * big == (i as int - 1) * big + big) by (nonlinear_arith);
            }
        }
        let m = Matrix { dimension: big, scale: self.scale + other.scale, elements };
        proof {
            assert(m@.entries =~= gk.entries);
            assert(m@ =~= gk);
        }
        Ok(m)
    }
}

/// Cell `q` (in a matrix of dimension `d`) lies in the first `rows_done` rows
/// of the embedded block.
pub open spec fn block_cell(q: int, d: int, r0: int, c0: int, sd: int, rows_done: int) -> bool {
    let i = q / d;
    let j = q % d;
    r0 <= i < r0 + rows_done && c0 <= j < c0 + sd
}

/// Cell `q` lies in the already-written part of the block: a full row below
/// `row`, or the first `cols_done` columns of row `row`.
pub open spec fn block_cell_row(
    q: int,
    d: int,
    r0: int,
    c0: int,
    sd: int,
    row: int,
    cols_done: int,
) -> bool {
    let i = q / d;
    let j = q % d;
    (r0 <= i < r0 + row && c0 <= j < c0 + sd) || (i == r0 + row && c0 <= j < c0 + cols_done)
}

proof fn lemma_embed_post(
    old_m: MatrixModel,
    sub: MatrixModel,
    new_m: MatrixModel,
    r0: int,
    c0: int,
)
    requires
        old_m.wf(),
        sub.wf(),
        new_m.dim == old_m.dim,
        new_m.scale == old_m.scale,
        new_m.entries.len() == old_m.entries.len(),
        r0 + sub.dim <= old_m.dim,
        c0 + sub.dim <= old_m.dim,
        r0 >= 0,
        c0 >= 0,
        forall|q: int| 0 <= q < old_m.dim * old_m.dim && !block_cell(
            q,
            old_m.dim,
            r0,
            c0,
            sub.dim,
            sub.dim,
        ) ==> new_m.entries[q] == old_m.entries[q],
        forall|a: int, b: int| 0 <= a < sub.dim && 0 <= b < sub.dim ==> new_m.entries[(r0 + a)
            * old_m.dim + (c0 + b)] == sub.entry(a, b),
    ensures
        new_m.wf(),
        forall|i: int, j: int|
            0 <= i < old_m.dim && 0 <= j < old_m.dim ==> new_m.entry(i, j) == (if r0 <= i < r0
                + sub.dim && c0 <= j < c0 + sub.dim {
                sub.entry(i - r0, j - c0)
            } else {
                old_m.entry(i, j)
            }),
{
    let d = old_m.dim;
    assert forall|i: int, j: int| 0 <= i < d && 0 <= j < d implies new_m.entry(i, j) == (if r0 <= i
        < r0 + sub.dim && c0 <= j < c0 + sub.dim {
        sub.entry(i - r0, j - c0)
    } else {
        old_m.entry(i, j)
    }) by {
        lemma_row_col(i, j, d);
        if r0 <= i < r0 + sub.dim && c0 <= j < c0 + sub.dim {
            let a = i - r0;
            let b = j - c0;
            assert(new_m.entries[(r0 + a) * d + (c0 + b)] == sub.entry(a, b));
        } else {
            assert(!block_cell(i * d + j, d, r0, c0, sub.dim, sub.dim));
        }
    }
    assert forall|q: int| 0 <= q < new_m.entries.len() implies c_in_bound(
        #[trigger] new_m.entries[q],
        MAX_ENTRY as int,
    ) by {
        lemma_cell_split(q, d);
        let i = q / d;
        let j = q % d;
        assert(new_m.entry(i, j) == new_m.entries[q]);
        if r0 <= i < r0 + sub.dim && c0 <= j < c0 + sub.dim {
            lemma_row_col(i - r0, j - c0, sub.dim);
        }
    }
}

/// Index arithmetic for the Kronecker product: the row-major cell of the big
/// matrix splits consistently between the two factors.
pub proof fn lemma_kron_index(i: int, j: int, d1: int, d2: int)
    by (nonlinear_arith)
    requires
        0 < d1,
        0 < d2,
        0 <= i < d1 * d2,
        0 <= j < d1 * d2,
    ensures
        0 <= i / d2 < d1,
        0 <= j / d2 < d1,
        0 <= i % d2 < d2,
        0 <= j % d2 < d2,
{
}

} // verus!

verus! {

proof fn lemma_identity_mv_dot(d: int, v: Seq<GaussInt>, i: int, n: int)
    requires
        1 <= d,
        v.len() == d,
        0 <= i < d,
        0 <= n <= d,
    ensures
        mv_dot(identity_model(d), v, i, n as nat) == if i < n {
            v[i]
        } else {
            c_zero()
        },
    decreases n,
{
    if n > 0 {
        lemma_identity_mv_dot(d, v, i, n - 1);
        lemma_row_col(i, n - 1, d);
        if i == n - 1 {
            assert(identity_model(d).entry(i, n - 1) == c_one());
            assert(c_mul(c_one(), v[n - 1]) == v[n - 1]);
        } else {
            assert(identity_model(d).entry(i, n - 1) == c_zero());
            assert(c_mul(c_zero(), v[n - 1]) == c_zero());
        }
    }
}

/// The identity matrix is a no-op on amplitude vectors: applying the
/// `n`-qubit identity gate to any initialized state leaves every amplitude
/// (and, its scale being zero, the denoted state) unchanged.
pub proof fn lemma_identity_mat_vec(d: int, v: Seq<GaussInt>)
    requires
        1 <= d,
        v.len() == d,
    ensures
        mat_vec(identity_model(d), v) == v,
{
    assert forall|i: int| 0 <= i < d implies mat_vec(identity_model(d), v)[i] == v[i] by {
        lemma_identity_mv_dot(d, v, i, d);
    }
    assert(mat_vec(identity_model(d), v) =~= v);
}

proof fn lemma_identity_dot_right(m: MatrixModel, i: int, j: int, n: int)
    requires
        1 <= m.dim,
        0 <= j < m.dim,
        0 <= n <= m.dim,
    ensures
        dot(m, identity_model(m.dim), i, j, n as nat) == if j < n {
            m.entry(i, j)
        } else {
            c_zero()
        },
    decreases n,
{
    let d = m.dim;
    if n > 0 {
        lemma_identity_dot_right(m, i, j, n - 1);
        lemma_row_col(n - 1, j, d);
        if j == n - 1 {
            assert(identity_model(d).entry(n - 1, j) == c_one());
            assert(c_mul(m.entry(i, n - 1), c_one()) == m.entry(i, n - 1));
        } else {
            assert(identity_model(d).entry(n - 1, j) == c_zero());
            assert(c_mul(m.entry(i, n - 1), c_zero()) == c_zero());
        }
    }
}

/// Multiplying any matrix by the identity of its dimension returns the
/// matrix unchanged, scale included.
pub proof fn lemma_multiply_identity(m: MatrixModel)
    requires
        1 <= m.dim,
        m.entries.len() == m.dim * m.dim,
    ensures
        mul_model(m, identity_model(m.dim)) == m,
{
    let d = m.dim;
    let p = mul_model(m, identity_model(d));
    assert forall|k: int| 0 <= k < d * d implies p.entries[k] == m.entries[k] by {
        lemma_cell_split(k, d);
        lemma_identity_dot_right(m, k / d, k % d, d);
    }
    assert(p.entries =~= m.entries);
    assert(p =~= m);
}

} // verus!
