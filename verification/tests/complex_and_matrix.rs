use qsim::complex::Complex;
use qsim::matrix::Matrix;
use qsim::Error;

#[test]
fn complex_arithmetic_is_exact() {
    let a = Complex::new(3, -2);
    let b = Complex::new(-1, 4);
    let s = a.add(b);
    assert_eq!((s.re, s.im), (2, 2));
    let d = a.subtract(b);
    assert_eq!((d.re, d.im), (4, -6));
    // (3 - 2i)(-1 + 4i) = -3 + 12i + 2i + 8 = 5 + 14i
    let p = a.multiply(b);
    assert_eq!((p.re, p.im), (5, 14));
    let c = a.conjugate();
    assert_eq!((c.re, c.im), (3, 2));
    assert_eq!(a.magnitude_squared(), 13);
}

#[test]
fn new_from_elements_checks_dimension() {
    let elements = vec![Complex::new(1, 0), Complex::new(2, 0), Complex::new(3, 0)];
    let r = Matrix::new_from_elements(2, elements);
    assert!(matches!(r, Err(Error::DimensionMismatch)));
    let r0 = Matrix::new_from_elements(0, Vec::new());
    assert!(matches!(r0, Err(Error::DimensionMismatch)));
}

#[test]
fn multiply_by_identity_returns_the_matrix() {
    let elements = vec![
        Complex::new(1, 2),
        Complex::new(3, -1),
        Complex::new(0, 5),
        Complex::new(-7, 4),
    ];
    let m = Matrix::new_from_elements(2, elements).unwrap();
    let id = Matrix::identity(2);
    let p = m.multiply(&id).unwrap();
    assert_eq!(p.dimension(), 2);
    assert_eq!(p.scale(), 0);
    for i in 0..2 {
        for j in 0..2 {
            assert_eq!(p.get(i, j), m.get(i, j));
        }
    }
}

#[test]
fn multiply_checks_dimensions() {
    let a = Matrix::identity(2);
    let b = Matrix::identity(3);
    assert!(matches!(a.multiply(&b), Err(Error::DimensionMismatch)));
}

#[test]
fn multiply_vector_applies_rows() {
    // [[0, 1], [1, 0]] exchanges the two entries.
    let elements = vec![
        Complex::new(0, 0),
        Complex::new(1, 0),
        Complex::new(1, 0),
        Complex::new(0, 0),
    ];
    let m = Matrix::new_from_elements(2, elements).unwrap();
    let v = vec![Complex::new(5, 1), Complex::new(-3, 2)];
    let w = m.multiply_vector(&v).unwrap();
    assert_eq!((w[0].re, w[0].im), (-3, 2));
    assert_eq!((w[1].re, w[1].im), (5, 1));
    let bad = vec![Complex::new(1, 0)];
    assert!(matches!(m.multiply_vector(&bad), Err(Error::DimensionMismatch)));
}

#[test]
fn embed_overwrites_only_the_block() {
    // A 4x4 identity with the exchange block at the top-left corner: equal to
    // the identity everywhere except that block, and the bottom-right block
    // still [[1, 0], [0, 1]].
    let mut m = Matrix::identity(4);
    let exchange = Matrix::new_from_elements(
        2,
        vec![
            Complex::new(0, 0),
            Complex::new(1, 0),
            Complex::new(1, 0),
            Complex::new(0, 0),
        ],
    )
    .unwrap();
    m.embed(&exchange, 0, 0).unwrap();
    let id = Matrix::identity(4);
    for i in 0..4 {
        for j in 0..4 {
            let e = m.get(i, j);
            if i < 2 && j < 2 {
                let expected = if i != j { 1 } else { 0 };
                assert_eq!((e.re, e.im), (expected, 0));
            } else {
                assert_eq!(e, id.get(i, j));
            }
        }
    }
    // bottom-right block is still the identity
    assert_eq!((m.get(2, 2).re, m.get(3, 3).re), (1, 1));
    assert_eq!((m.get(2, 3).re, m.get(3, 2).re), (0, 0));
}

#[test]
fn embed_rejects_out_of_bounds() {
    let mut m = Matrix::identity(2);
    let sub = Matrix::identity(2);
    assert!(matches!(m.embed(&sub, 1, 0), Err(Error::OutOfBounds)));
    assert!(matches!(m.embed(&sub, 0, 1), Err(Error::OutOfBounds)));
}

#[test]
fn kronecker_combines_entries() {
    // [[2]] (x) [[0, 1], [1, 0]] doubles the exchange matrix.
    let a = Matrix::new_from_elements(1, vec![Complex::new(2, 0)]).unwrap();
    let b = Matrix::new_from_elements(
        2,
        vec![
            Complex::new(0, 0),
            Complex::new(1, 0),
            Complex::new(1, 0),
            Complex::new(0, 0),
        ],
    )
    .unwrap();
    let k = a.kronecker(&b).unwrap();
    assert_eq!(k.dimension(), 2);
    assert_eq!((k.get(0, 1).re, k.get(1, 0).re), (2, 2));
    assert_eq!((k.get(0, 0).re, k.get(1, 1).re), (0, 0));
}

#[test]
fn oversized_entries_overflow() {
    // An entry component beyond the supported exact range is rejected.
    let big = 1099511627776i64 + 1;
    let r = Matrix::new_from_elements(1, vec![Complex::new(big, 0)]);
    assert!(matches!(r, Err(Error::Overflow)));
    let ok = Matrix::new_from_elements(1, vec![Complex::new(big - 1, 0)]);
    assert!(ok.is_ok());
}

#[test]
fn multiply_overflow_is_detected() {
    // (2^40) * (2^40) leaves the exact entry range.
    let a = Matrix::new_from_elements(1, vec![Complex::new(1099511627776, 0)]).unwrap();
    let r = a.multiply(&a);
    assert!(matches!(r, Err(Error::Overflow)));
}

#[test]
fn scaled_construction_stores_the_scale() {
    let m = Matrix::new_scaled(1, 3, vec![Complex::new(2, 0)]).unwrap();
    assert_eq!(m.scale(), 3);
    assert_eq!(m.dimension(), 1);
    assert_eq!((m.get(0, 0).re, m.get(0, 0).im), (2, 0));
}

#[test]
fn rows_builder_accepts_square_structures() {
    // The exchange matrix written as nested rows of real values.
    let m = Matrix::new_real(vec![vec![0, 1], vec![1, 0]]).unwrap();
    assert_eq!(m.dimension(), 2);
    assert_eq!(m.scale(), 0);
    assert_eq!((m.get(0, 0).re, m.get(0, 1).re), (0, 1));
    assert_eq!((m.get(1, 0).re, m.get(1, 1).re), (1, 0));
    assert_eq!((m.get(0, 1).im, m.get(1, 0).im), (0, 0));
}

#[test]
fn rows_builder_rejects_ragged_or_empty_input() {
    assert!(matches!(
        Matrix::new_real(vec![vec![1, 2], vec![3]]),
        Err(Error::DimensionMismatch)
    ));
    assert!(matches!(
        Matrix::new_real(vec![vec![1, 2, 3], vec![4, 5, 6]]),
        Err(Error::DimensionMismatch)
    ));
    assert!(matches!(Matrix::new_real(Vec::new()), Err(Error::DimensionMismatch)));
}
