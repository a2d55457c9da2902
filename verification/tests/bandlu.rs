use bandlu::matrix::BandMatrix;
use bandlu::rat::{LinError, Rat};
use bandlu::vector::Vector;

fn r(n: i64, d: i64) -> Rat {
    Rat::new(n, d).unwrap()
}

fn ri(n: i64) -> Rat {
    Rat::from_int(n)
}

/// The band matrix with diagonal 3, first off-diagonals 1, second
/// off-diagonals 3/20, bandwidths two on each side.
fn pentadiagonal(n: usize) -> BandMatrix {
    let mut a = BandMatrix::new(n, 2, 2);
    for i in 1..=n {
        a.set(i, i, ri(3)).unwrap();
    }
    for i in 1..=n - 1 {
        a.set(i, i + 1, ri(1)).unwrap();
        a.set(i + 1, i, ri(1)).unwrap();
    }
    for i in 1..=n - 2 {
        a.set(i, i + 2, r(3, 20)).unwrap();
        a.set(i + 2, i, r(3, 20)).unwrap();
    }
    a
}

/// A strongly diagonally dominant tridiagonal matrix: 10 on the
/// diagonal, 1 on the first off-diagonals.  Relaxation converges in a few
/// steps, before exact denominators outgrow the scalar representation.
fn dominant(n: usize) -> BandMatrix {
    let mut a = BandMatrix::new(n, 1, 1);
    for i in 1..=n {
        a.set(i, i, ri(10)).unwrap();
    }
    for i in 1..=n - 1 {
        a.set(i, i + 1, ri(1)).unwrap();
        a.set(i + 1, i, ri(1)).unwrap();
    }
    a
}

fn iota(n: usize) -> Vector {
    let mut b = Vector::new(n);
    for i in 1..=n {
        b.set(i, ri(i as i64));
    }
    b
}

#[test]
fn decompose() {
    let mut a = BandMatrix::new(2, 1, 1);
    a.set(1, 1, ri(4)).unwrap();
    a.set(1, 2, ri(3)).unwrap();
    a.set(2, 1, ri(6)).unwrap();
    a.set(2, 2, ri(3)).unwrap();

    let a = a.lu_decompose().unwrap();

    assert_eq!(a.get(1, 1), ri(4));
    assert_eq!(a.get(1, 2), ri(3));
    assert_eq!(a.get(2, 1), r(3, 2));
    assert_eq!(a.get(2, 2), r(-3, 2));
}

#[test]
fn determinant_two_by_two() {
    let mut a = BandMatrix::new(2, 1, 1);
    a.set(1, 1, ri(4)).unwrap();
    a.set(1, 2, ri(3)).unwrap();
    a.set(2, 1, ri(6)).unwrap();
    a.set(2, 2, ri(3)).unwrap();
    let det = a.lu_decompose().unwrap().det().unwrap();
    // matches the independent reference computation a11*a22 - a12*a21
    assert_eq!(det, ri(4 * 3 - 3 * 6));
    assert_eq!(det, ri(-6));
}

#[test]
fn out_of_band_reads_zero_and_writes_fail() {
    let mut a = BandMatrix::new(5, 1, 2);
    a.set(1, 1, ri(7)).unwrap();
    // beyond the upper band
    assert_eq!(a.get(1, 4), Rat::zero());
    assert_eq!(a.set(1, 4, ri(1)), Err(LinError::OutOfBand));
    // beyond the lower band
    assert_eq!(a.get(3, 1), Rat::zero());
    assert_eq!(a.set(3, 1, ri(1)), Err(LinError::OutOfBand));
    // zero and too-large indices are a distinct error
    assert_eq!(a.set(0, 1, ri(1)), Err(LinError::IndexOutOfRange));
    assert_eq!(a.set(1, 6, ri(1)), Err(LinError::IndexOutOfRange));
    // the rejected writes changed nothing
    assert_eq!(a.get(1, 1), ri(7));
    assert_eq!(a.get(1, 4), Rat::zero());
}

#[test]
fn banded_and_reference_decomposition_agree() {
    let n = 6;
    let fast = pentadiagonal(n).lu_decompose().unwrap();
    let slow = pentadiagonal(n).lu_decompose_slow().unwrap();
    for i in 1..=n {
        for j in 1..=n {
            assert_eq!(fast.get(i, j), slow.get(i, j));
        }
    }
}

#[test]
fn factors_rebuild_the_matrix() {
    let n = 6;
    let a = pentadiagonal(n);
    let f = pentadiagonal(n).lu_decompose().unwrap();
    for i in 1..=n {
        for j in 1..=n {
            let mut acc = Rat::zero();
            for t in 1..=n {
                acc = acc.add(f.l(i, t).mul(f.u(t, j)).unwrap()).unwrap();
            }
            assert_eq!(acc, a.get(i, j));
        }
    }
}

#[test]
fn solve_gives_exact_residual() {
    let n = 6;
    let a = pentadiagonal(n);
    let b = iota(n);
    let f = pentadiagonal(n).lu_decompose().unwrap();
    let x = f.solve(&b).unwrap();
    // A x - b is exactly zero in every row
    for i in 1..=n {
        let mut acc = Rat::zero();
        for j in 1..=n {
            acc = acc.add(a.get(i, j).mul(x.get(j)).unwrap()).unwrap();
        }
        assert_eq!(acc, b.get(i));
    }
}

#[test]
fn one_by_one_decomposition_is_a_no_op() {
    let mut a = BandMatrix::new(1, 0, 0);
    a.set(1, 1, r(7, 3)).unwrap();
    let f = a.lu_decompose().unwrap();
    assert_eq!(f.get(1, 1), r(7, 3));

    let mut b = Vector::new(1);
    b.set(1, ri(14));
    assert!(f.pivots_all_nonzero());
    let x = f.solve(&b).unwrap();
    // b(1) / a(1,1)
    assert_eq!(x.get(1), ri(14).div(r(7, 3)).unwrap());
    assert_eq!(x.get(1), ri(6));

    // the zero matrix of dimension one decomposes unchanged too: no
    // division happens, so no pivot is inspected
    let z = BandMatrix::new(1, 0, 0);
    let zf = z.lu_decompose().unwrap();
    assert_eq!(zf.get(1, 1), Rat::zero());
    assert_eq!(zf.det().unwrap(), Rat::zero());
    assert!(!zf.pivots_all_nonzero());
}

#[test]
fn zero_pivot_is_reported() {
    // singular leading minor with a row below the pivot: [[0, 1], [1, 0]]
    let mut s = BandMatrix::new(2, 1, 1);
    s.set(1, 2, ri(1)).unwrap();
    s.set(2, 1, ri(1)).unwrap();
    assert!(matches!(s.lu_decompose(), Err(LinError::ZeroPivot)));
}

#[test]
fn untouched_pivots_are_not_inspected() {
    // singular only in the last leading minor: [[1, 1], [1, 1]] admits LU
    // without pivoting; the last pivot is never a divisor
    let mut s = BandMatrix::new(2, 1, 1);
    s.set(1, 1, ri(1)).unwrap();
    s.set(1, 2, ri(1)).unwrap();
    s.set(2, 1, ri(1)).unwrap();
    s.set(2, 2, ri(1)).unwrap();
    let f = s.lu_decompose().unwrap();
    assert_eq!(f.get(2, 1), ri(1));
    assert_eq!(f.get(2, 2), Rat::zero());
    assert_eq!(f.det().unwrap(), Rat::zero());
    assert!(!f.pivots_all_nonzero());

    // with no stored rows below the diagonal there are no divisions at
    // all, so even a zero diagonal decomposes
    let mut u = BandMatrix::new(3, 0, 1);
    u.set(1, 2, ri(5)).unwrap();
    u.set(2, 2, ri(1)).unwrap();
    u.set(2, 3, ri(2)).unwrap();
    let uf = u.lu_decompose().unwrap();
    assert_eq!(uf.get(1, 1), Rat::zero());
    assert_eq!(uf.get(1, 2), ri(5));
    assert_eq!(uf.det().unwrap(), Rat::zero());
}

#[test]
fn jacobi_one_by_one_converges_in_one_step() {
    let mut a = BandMatrix::new(1, 0, 0);
    a.set(1, 1, ri(4)).unwrap();
    let mut b = Vector::new(1);
    b.set(1, ri(10));

    // a single step reaches the fixed point b(1)/a(1,1) from any start
    for start in [ri(0), ri(100), r(-7, 3)] {
        let mut x = Vector::new(1);
        x.set(1, start);
        let next = a.jacobi_iteration(&x, &b).unwrap();
        assert_eq!(next.get(1), r(5, 2));
        // the stopping rule compares successive iterates, so the driver
        // reports convergence on the second, identical step
        let mut x2 = Vector::new(1);
        x2.set(1, start);
        let got = a.jacobi(x2, &b, r(1, 1000), 2).unwrap().unwrap();
        assert_eq!(got.get(1), r(5, 2));
    }
}

fn min_iterations_to_converge(
    a: &BandMatrix,
    b: &Vector,
    eps: Rat,
    jacobi: bool,
    cap: usize,
) -> usize {
    for budget in 1..=cap {
        let x = Vector::new(b.n());
        let res = if jacobi {
            a.jacobi(x, b, eps, budget).unwrap()
        } else {
            a.gauss_seidel(x, b, eps, budget).unwrap()
        };
        if res.is_some() {
            return budget;
        }
    }
    panic!("did not converge within {cap} iterations");
}

#[test]
fn relaxation_agrees_with_direct_solve() {
    let n = 3;
    let a = dominant(n);
    let b = iota(n);
    let exact = dominant(n).lu_decompose().unwrap().solve(&b).unwrap();
    let eps = r(1, 10_000);

    let j = a.jacobi(Vector::new(n), &b, eps, 12).unwrap().unwrap();
    let g = a.gauss_seidel(Vector::new(n), &b, eps, 12).unwrap().unwrap();

    // both iterates are within a loose tolerance of the direct solution,
    // entry by entry
    let tol = r(1, 1000);
    let ntol = r(-1, 1000);
    for res in [&j, &g] {
        let d = res.sub(&exact).unwrap();
        for k in 1..=n {
            assert!(d.get(k).lt(tol) && ntol.lt(d.get(k)));
        }
    }
}

#[test]
fn gauss_seidel_needs_no_more_iterations_than_jacobi() {
    let n = 3;
    let a = dominant(n);
    let b = iota(n);
    let eps = r(1, 10_000);
    let jac = min_iterations_to_converge(&a, &b, eps, true, 12);
    let gs = min_iterations_to_converge(&a, &b, eps, false, 12);
    assert!(gs <= jac);
}

#[test]
fn exhausted_budget_reports_no_result() {
    let n = 3;
    let a = dominant(n);
    let b = iota(n);
    // one iteration from zero cannot meet an absurdly tight tolerance
    let res = a
        .jacobi(Vector::new(n), &b, r(1, 1_000_000_000), 1)
        .unwrap();
    assert!(res.is_none());

    // a zero budget exhausts immediately, whatever the tolerance
    let res0 = a.jacobi(Vector::new(n), &b, r(1, 10), 0).unwrap();
    assert!(res0.is_none());
    let res0 = a.gauss_seidel(Vector::new(n), &b, r(1, 10), 0).unwrap();
    assert!(res0.is_none());
}
