use sparse_complex::{Complex, ComplexMatrix, RealSystem, SolveError};

fn c(re: f64, im: f64) -> Complex<u64> {
    Complex::new(re.to_bits(), im.to_bits())
}

fn as_f64(x: u64) -> f64 {
    f64::from_bits(x)
}

/// Solves a dense real system by Gaussian elimination with partial pivoting.
fn dense_solve(mut a: Vec<Vec<f64>>, mut x: Vec<f64>) -> Vec<f64> {
    let n = x.len();
    for k in 0..n {
        let p = (k..n).max_by(|&i, &j| a[i][k].abs().partial_cmp(&a[j][k].abs()).unwrap()).unwrap();
        a.swap(k, p);
        x.swap(k, p);
        assert!(a[k][k] != 0.0, "singular system");
        for i in k + 1..n {
            let f = a[i][k] / a[k][k];
            for j in k..n {
                a[i][j] -= f * a[k][j];
            }
            x[i] -= f * x[k];
        }
    }
    for k in (0..n).rev() {
        let mut s = x[k];
        for j in k + 1..n {
            s -= a[k][j] * x[j];
        }
        x[k] = s / a[k][k];
    }
    x
}

/// Runs the real system through a dense solver and returns its real solution.
fn run(sys: &RealSystem<u64>) -> Vec<u64> {
    let n = sys.order;
    let mut a = vec![vec![0.0; n]; n];
    for i in 0..sys.values.len() {
        a[sys.rows[i]][sys.cols[i]] += as_f64(sys.values[i]);
    }
    let x: Vec<f64> = sys.rhs.iter().map(|&v| as_f64(v)).collect();
    dense_solve(a, x).iter().map(|v| v.to_bits()).collect()
}

/// Solves `m x = b` through the real system of twice the order.
fn solve(m: &ComplexMatrix<u64>, b: &[(f64, f64)]) -> Result<Vec<(f64, f64)>, SolveError> {
    let bits: Vec<Complex<u64>> = b.iter().map(|&(re, im)| c(re, im)).collect();
    let sys = m.real_system(&bits)?;
    let x = sys.solution(&run(&sys))?;
    Ok(x.iter().map(|z| (as_f64(z.re), as_f64(z.im))).collect())
}

fn assert_close(got: &[(f64, f64)], expected: &[(f64, f64)]) {
    assert_eq!(got.len(), expected.len());
    for (g, e) in got.iter().zip(expected) {
        assert!((g.0 - e.0).abs() <= 1e-6, "{:?} vs {:?}", got, expected);
        assert!((g.1 - e.1).abs() <= 1e-6, "{:?} vs {:?}", got, expected);
    }
}

#[test]
fn test_simple_matrix() {
    let mut m = ComplexMatrix::new();
    let b = vec![(1., 0.), (0., 1.)];
    m.add_element(0, 0, c(1., 1.));
    m.add_element(1, 1, c(1., 1.));
    let x = solve(&m, &b).unwrap();
    assert_close(&x, &[(0.5, -0.5), (0.5, 0.5)]);
}

#[test]
fn test_full_simple_matrix() {
    let mut m = ComplexMatrix::new();
    m.add_element(0, 0, c(5., 3.));
    m.add_element(1, 1, c(1., -9.));
    m.add_element(0, 1, c(-33., 0.));
    m.add_element(1, 0, c(0., -47.));
    let b = vec![(13.4, 7.), (3.2, -7.)];
    let expected = vec![
        (0.21852826260018543, 0.10986007256547237),
        (-0.3829375425665308, -0.1756095408900631),
    ];
    let x = solve(&m, &b).unwrap();
    assert_close(&x, &expected);
}

#[test]
fn test_only_imag_simple_matrix() {
    let mut m = ComplexMatrix::new();
    m.add_element(0, 0, c(0., 3.));
    m.add_element(0, 1, c(0., -33.));
    m.add_element(1, 0, c(0., -1.));
    m.add_element(1, 1, c(0., 9.));
    let b = vec![(0., 3.), (0., 6.)];
    let x = solve(&m, &b).unwrap();
    assert_close(&x, &[(-37.5, 0.), (-3.5, 0.)]);
}

#[test]
fn test_only_real_simple_matrix() {
    let mut m = ComplexMatrix::new();
    m.add_element(0, 0, c(3., 0.));
    m.add_element(0, 1, c(-7., 0.));
    m.add_element(1, 0, c(-1., 0.));
    m.add_element(1, 1, c(9., 0.));
    let b = vec![(3., 0.), (6., 0.)];
    let x = solve(&m, &b).unwrap();
    assert_close(&x, &[(3.4500000000000006, 0.), (1.05, 0.)]);
}

#[test]
fn test_part_real_part_imag_simple_matrix() {
    let mut m = ComplexMatrix::new();
    m.add_element(0, 0, c(3., 0.));
    m.add_element(0, 1, c(0., 1.));
    m.add_element(1, 0, c(0., -4.));
    m.add_element(1, 1, c(1., 0.));
    let b = vec![(0., 3.), (6., 0.)];
    let x = solve(&m, &b).unwrap();
    assert_close(&x, &[(0., 3.), (-6., 0.)]);
}

#[test]
fn test_b_imag_is_zero() {
    let mut m = ComplexMatrix::new();
    m.add_element(0, 0, c(3., 0.));
    m.add_element(0, 1, c(0., 1.));
    m.add_element(1, 0, c(0., -4.));
    m.add_element(1, 1, c(1., 0.));
    let b = vec![(1., 0.), (5., 0.)];
    let x = solve(&m, &b).unwrap();
    assert_close(&x, &[(-1., 5.), (-15., -4.)]);
}

#[test]
fn test_b_real_is_zero() {
    let mut m = ComplexMatrix::new();
    m.add_element(0, 0, c(3., 0.));
    m.add_element(0, 1, c(0., 1.));
    m.add_element(1, 0, c(0., -4.));
    m.add_element(1, 1, c(1., 0.));
    let b = vec![(0., 1.), (0., 5.)];
    let x = solve(&m, &b).unwrap();
    assert_close(&x, &[(-5., -1.), (4., -15.)]);
}

#[test]
fn diagonal_system_through_real_form() {
    let mut m = ComplexMatrix::new();
    m.add_element(0, 0, c(1., -1.));
    m.add_element(1, 1, c(-1., 1.));
    let x = solve(&m, &[(1., 0.), (0., 1.)]).unwrap();
    assert_close(&x, &[(0.5, 0.5), (0.5, -0.5)]);
}

#[test]
fn single_entry_augmentation() {
    let mut m = ComplexMatrix::new();
    m.add_element(0, 0, c(2., 3.));
    let sys = m.real_system(&[c(1., -1.)]).unwrap();
    assert_eq!(sys.order, 2);
    let t: Vec<(usize, usize, f64)> = (0..sys.values.len()).map(|i| (sys.rows[i], sys.cols[i], as_f64(sys.values[i]))).collect();
    assert_eq!(t, vec![(0, 0, 2.), (1, 1, 2.), (0, 1, -3.), (1, 0, 3.)]);
    let rhs: Vec<f64> = sys.rhs.iter().map(|&v| as_f64(v)).collect();
    assert_eq!(rhs, vec![1., -1.]);
}

#[test]
fn augmentation_leaves_out_zero_parts() {
    let mut m = ComplexMatrix::new();
    m.add_element(0, 0, c(2., 0.));
    let sys = m.real_system(&[c(1., 0.)]).unwrap();
    assert_eq!(sys.rows, vec![0, 1]);
    assert_eq!(sys.cols, vec![0, 1]);
    let mut m = ComplexMatrix::new();
    m.add_element(0, 0, c(-0., 5.));
    let sys = m.real_system(&[c(1., 0.)]).unwrap();
    assert_eq!(sys.rows, vec![0, 1]);
    assert_eq!(sys.cols, vec![1, 0]);
    assert_eq!(as_f64(sys.values[0]), -5.);
    assert_eq!(as_f64(sys.values[1]), 5.);
}

#[test]
fn augmentation_offsets_by_the_order() {
    let mut m = ComplexMatrix::new();
    m.add_element(2, 0, c(1., -2.));
    m.add_element(0, 1, c(0., 4.));
    let b = vec![c(0., 0.); 3];
    let sys = m.real_system(&b).unwrap();
    assert_eq!(sys.order, 6);
    let t: Vec<(usize, usize, f64)> = (0..sys.values.len()).map(|i| (sys.rows[i], sys.cols[i], as_f64(sys.values[i]))).collect();
    assert_eq!(
        t,
        vec![(2, 0, 1.), (5, 3, 1.), (2, 3, 2.), (5, 0, -2.), (0, 4, -4.), (3, 1, 4.)]
    );
}

#[test]
fn mismatched_right_hand_side_is_refused() {
    let mut m = ComplexMatrix::new();
    m.add_element(0, 0, c(1., -1.));
    m.add_element(1, 1, c(-1., 1.));
    let short = vec![c(1., 0.)];
    assert_eq!(m.real_system(&short).err(), Some(SolveError::DimensionMismatch { expected: 2, found: 1 }));
    assert_eq!(m.complex_system(&short).err(), Some(SolveError::DimensionMismatch { expected: 2, found: 1 }));
    let long = vec![c(1., 0.); 3];
    assert_eq!(m.real_system(&long).err(), Some(SolveError::DimensionMismatch { expected: 2, found: 3 }));
    let empty: ComplexMatrix<u64> = ComplexMatrix::new();
    assert!(empty.real_system(&[]).is_ok());
    assert_eq!(empty.real_system(&short).err(), Some(SolveError::DimensionMismatch { expected: 0, found: 1 }));
}

#[test]
fn real_solution_of_wrong_length_is_refused() {
    let mut m = ComplexMatrix::new();
    m.add_element(0, 0, c(1., 0.));
    let sys = m.real_system(&[c(1., 0.)]).unwrap();
    assert_eq!(sys.solution(&[1u64]).err(), Some(SolveError::DimensionMismatch { expected: 2, found: 1 }));
    assert_eq!(sys.solution(&[1u64, 2, 3]).err(), Some(SolveError::DimensionMismatch { expected: 2, found: 3 }));
    assert_eq!(sys.solution(&[1u64, 2]).unwrap(), vec![Complex::new(1, 2)]);
}

#[test]
fn real_form_round_trip() {
    let mut m = ComplexMatrix::new();
    m.add_element(1, 1, c(1., 0.));
    let b = vec![c(1.5, -2.), c(-0., 8.)];
    let sys = m.real_system(&b).unwrap();
    assert_eq!(sys.solution(&sys.rhs).unwrap(), b);
}

#[test]
fn interleaved_layout() {
    let mut m = ComplexMatrix::new();
    m.add_element(0, 1, c(2., -3.));
    m.add_element(1, 0, c(-4., 5.));
    let b = vec![c(1., 2.), c(3., 4.)];
    let sys = m.complex_system(&b).unwrap();
    assert_eq!(sys.order, 2);
    assert_eq!(sys.rows, vec![0, 1]);
    assert_eq!(sys.cols, vec![1, 0]);
    let v: Vec<f64> = sys.values.iter().map(|&x| as_f64(x)).collect();
    assert_eq!(v, vec![2., -3., -4., 5.]);
    let r: Vec<f64> = sys.rhs.iter().map(|&x| as_f64(x)).collect();
    assert_eq!(r, vec![1., 2., 3., 4.]);
    assert_eq!(sys.solution(&sys.rhs).unwrap(), b);
    assert_eq!(sys.solution(&sys.rhs[..3]).err(), Some(SolveError::DimensionMismatch { expected: 4, found: 3 }));
}

#[test]
fn single_precision_system() {
    let z = |re: f32, im: f32| Complex::new(re.to_bits(), im.to_bits());
    let mut m = ComplexMatrix::new();
    m.add_element(0, 0, z(1., -1.));
    let sys = m.real_system(&[z(2., 0.)]).unwrap();
    let v: Vec<f32> = sys.values.iter().map(|&x| f32::from_bits(x)).collect();
    assert_eq!(v, vec![1., 1., 1., -1.]);
    assert_eq!((sys.rows.clone(), sys.cols.clone()), (vec![0, 1, 0, 1], vec![0, 1, 1, 0]));
}
