use bandlu::matrix::BandMatrix;
use bandlu::rat::{LinError, Rat};
use bandlu::vector::Vector;

fn r(n: i64, d: i64) -> Rat {
    Rat::new(n, d).unwrap()
}

fn ri(n: i64) -> Rat {
    Rat::from_int(n)
}

/// The bidiagonal matrix with 11 on the diagonal and 7 above it.
fn bidiagonal(n: usize) -> BandMatrix {
    let mut a = BandMatrix::new(n, 0, 1);
    for i in 1..=n {
        a.set(i, i, ri(11)).unwrap();
    }
    for i in 1..=n - 1 {
        a.set(i, i + 1, ri(7)).unwrap();
    }
    a
}

fn fives(n: usize) -> Vector {
    let mut b = Vector::new(n);
    for i in 1..=n {
        b.set(i, ri(5));
    }
    b
}

#[test]
fn rank_one_update_matches_explicitly_formed_system() {
    let n = 5;
    let x = bandlu::sherman::solve(bidiagonal(n), fives(n)).unwrap();

    // form A' + 1 1^T explicitly as a full-band matrix and solve directly
    let mut full = BandMatrix::new(n, n - 1, n - 1);
    let a = bidiagonal(n);
    for i in 1..=n {
        for j in 1..=n {
            full.set(i, j, a.get(i, j).add(ri(1)).unwrap()).unwrap();
        }
    }
    let direct = full.lu_decompose().unwrap().solve(&fives(n)).unwrap();

    for i in 1..=n {
        assert_eq!(x.get(i), direct.get(i));
    }
}

#[test]
fn rank_one_update_one_by_one() {
    // (a + 1) x = b exactly
    let mut a = BandMatrix::new(1, 0, 0);
    a.set(1, 1, ri(3)).unwrap();
    let mut b = Vector::new(1);
    b.set(1, ri(8));
    let x = bandlu::sherman::solve(a, b).unwrap();
    assert_eq!(x.get(1), ri(2));
}

#[test]
fn singular_update_is_reported() {
    // A' = [[-1]]: z = -1, so 1 + v^T z = 0
    let mut a = BandMatrix::new(1, 0, 0);
    a.set(1, 1, ri(-1)).unwrap();
    let mut b = Vector::new(1);
    b.set(1, ri(1));
    assert!(matches!(
        bandlu::sherman::solve(a, b),
        Err(LinError::DivisorZero)
    ));
}

#[test]
fn scalar_arithmetic_is_exact_and_reduced() {
    assert_eq!(r(1, 2).add(r(1, 3)).unwrap(), r(5, 6));
    assert_eq!(r(1, 2).sub(r(1, 3)).unwrap(), r(1, 6));
    assert_eq!(r(2, 3).mul(r(9, 4)).unwrap(), r(3, 2));
    assert_eq!(r(2, 3).div(r(4, 3)).unwrap(), r(1, 2));
    assert_eq!(r(2, 4), r(1, 2));
    assert_eq!(r(3, -6), r(-1, 2));
    assert!(r(-1, 2).lt(r(1, 3)));
    assert!(!r(1, 3).lt(r(1, 3)));
    assert_eq!(Rat::new(1, 0), Err(LinError::DivisorZero));
    assert!(matches!(
        ri(1).div(Rat::zero()),
        Err(LinError::DivisorZero)
    ));
    assert!(matches!(
        ri(i64::MAX).mul(ri(i64::MAX)),
        Err(LinError::Overflow)
    ));
}

#[test]
fn vector_operations_are_exact() {
    let v = Vector::from_vec(vec![ri(3), ri(4)]);
    assert_eq!(v.n(), 2);
    assert_eq!(v.norm_sq().unwrap(), ri(25));
    assert_eq!(v.sum().unwrap(), ri(7));

    let w = Vector::from_vec(vec![ri(1), r(1, 2)]);
    let d = v.sub(&w).unwrap();
    assert_eq!(d.get(1), ri(2));
    assert_eq!(d.get(2), r(7, 2));

    let h = v.div(ri(2)).unwrap();
    assert_eq!(h.get(1), r(3, 2));
    assert_eq!(h.get(2), ri(2));

    let items = v.iter();
    assert_eq!(items, vec![ri(3), ri(4)]);
}
