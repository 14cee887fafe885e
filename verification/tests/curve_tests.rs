use elliptic_curve::curve::{EllipticCurve, Point};
use elliptic_curve::Error;

#[test]
fn test_lhs() {
    let curve = EllipticCurve::new(9, 20, 7).unwrap();
    assert_eq!(4, curve.lhs(2).unwrap());
}

#[test]
fn test_rhs() {
    let curve = EllipticCurve::new(9, 20, 7).unwrap();
    assert_eq!(4, curve.rhs(2).unwrap());
}

#[test]
fn test_is_on() {
    let curve = EllipticCurve::new(7, 5, 13).unwrap();
    assert!(curve.is_on(Point::Inf));
    assert!(curve.is_on(Point::Affine(5, 10)));
    assert!(curve.is_on(Point::Affine(9, 2)));
    assert!(curve.is_on(Point::Affine(8, 1)));
    assert!(curve.is_on(Point::Affine(8 + 13, 1 + 13)));
    assert!(!curve.is_on(Point::Affine(9, 1)));

    let curve = EllipticCurve::new(77, 42, 97).unwrap();
    assert!(curve.is_on(Point::Inf));
    assert!(curve.is_on(Point::Affine(22, 68)));
    assert!(curve.is_on(Point::Affine(64, 48)));
    assert!(!curve.is_on(Point::Affine(35, 54)));
    assert!(!curve.is_on(Point::Affine(35, 65)));
    assert!(!curve.is_on(Point::Affine(10, 10)));
}

#[test]
fn test_represent() {
    let curve = EllipticCurve::new(7, 5, 13).unwrap();
    let pt = Point::Affine(3, 1);
    assert_eq!(pt, curve.represent(Point::Affine(3 + 13, 1 + 13)).unwrap());
    assert_eq!(
        pt,
        curve.represent(Point::Affine(3 + 13 * 2, 1 + 13 * 2)).unwrap()
    );
    assert_eq!(
        pt,
        curve
            .represent(Point::Affine(3 + 13 * -72, 1 + 13 * -25))
            .unwrap()
    );
}

#[test]
fn test_inv() {
    let curve = EllipticCurve::new(11, 3, 67).unwrap();
    assert_eq!(Point::Inf, curve.inv(Point::Inf).unwrap());
    assert_eq!(Point::Affine(22, 46), curve.inv(Point::Affine(22, 21)).unwrap());
    assert_eq!(Point::Affine(55, 32), curve.inv(Point::Affine(55, 35)).unwrap());
    assert_eq!(Point::Affine(2, 10), curve.inv(Point::Affine(2, 57)).unwrap());
    assert_eq!(
        curve.inv(Point::Affine(2, 57)).unwrap(),
        curve.inv(Point::Affine(-65, -10)).unwrap()
    );
}

#[test]
fn test_sum() {
    let curve = EllipticCurve::new(23, 9, 47).unwrap();
    assert_eq!(
        Point::Affine(15, 43),
        curve.sum(Point::Affine(13, 22), Point::Affine(6, 38)).unwrap()
    );
}

#[test]
fn test_new_rejections() {
    assert_eq!(Err(Error::NotPositive), EllipticCurve::new(1, 1, 0).map(|_| ()));
    assert_eq!(Err(Error::NotPositive), EllipticCurve::new(1, 1, -7).map(|_| ()));
    assert_eq!(Err(Error::NotAPrime), EllipticCurve::new(1, 1, 4).map(|_| ()));
    assert_eq!(Err(Error::NotAPrime), EllipticCurve::new(1, 1, 1).map(|_| ()));
    assert_eq!(Err(Error::NotNonSingular), EllipticCurve::new(0, 0, 7).map(|_| ()));
    let c = EllipticCurve::new(-1, 0, 71).unwrap();
    assert_eq!(70, c.coef1);
    assert_eq!(0, c.coef0);
    assert_eq!(71, c.prime);
}

#[test]
fn test_not_on_curve_rejections() {
    let curve = EllipticCurve::new(7, 5, 13).unwrap();
    let off = Point::Affine(9, 1);
    assert_eq!(Err(Error::NotOnCurve), curve.represent(off));
    assert_eq!(Err(Error::NotOnCurve), curve.inv(off));
    assert_eq!(Err(Error::NotOnCurve), curve.sum(off, Point::Inf));
    assert_eq!(Err(Error::NotOnCurve), curve.sum(Point::Inf, off));
}

#[test]
fn test_represent_is_on_and_idempotent() {
    let curve = EllipticCurve::new(7, 5, 13).unwrap();
    for pt in [
        Point::Inf,
        Point::Affine(5, 10),
        Point::Affine(8 + 13, 1 + 13),
        Point::Affine(3 + 13 * -72, 1 + 13 * -25),
    ] {
        let canon = curve.represent(pt).unwrap();
        assert!(curve.is_on(canon));
        assert_eq!(canon, curve.represent(canon).unwrap());
    }
}

#[test]
fn test_sum_with_inverse_is_identity() {
    let curve = EllipticCurve::new(11, 3, 67).unwrap();
    for pt in [Point::Inf, Point::Affine(22, 21), Point::Affine(55, 35)] {
        let neg = curve.inv(pt).unwrap();
        assert_eq!(Point::Inf, curve.sum(pt, neg).unwrap());
        assert_eq!(curve.represent(pt).unwrap(), curve.inv(neg).unwrap());
    }
}

#[test]
fn test_identity_law() {
    let curve = EllipticCurve::new(23, 9, 47).unwrap();
    for pt in [Point::Inf, Point::Affine(13, 22), Point::Affine(6, 38)] {
        let canon = curve.represent(pt).unwrap();
        assert_eq!(canon, curve.sum(Point::Inf, pt).unwrap());
        assert_eq!(canon, curve.sum(pt, Point::Inf).unwrap());
    }
}

#[test]
fn test_sum_commutative() {
    let curve = EllipticCurve::new(23, 9, 47).unwrap();
    let pts = [Point::Inf, Point::Affine(13, 22), Point::Affine(6, 38)];
    for a in pts {
        for b in pts {
            assert_eq!(curve.sum(a, b).unwrap(), curve.sum(b, a).unwrap());
        }
    }
}

#[test]
fn test_doubling() {
    // doubling a point keeps it on the curve and commutes with the
    // non-canonical representative of the same point
    let curve = EllipticCurve::new(7, 5, 13).unwrap();
    let g = Point::Affine(5, 10);
    let double = curve.sum(g, g).unwrap();
    assert!(curve.is_on(double));
    let shifted = Point::Affine(5 + 13, 10 - 13);
    assert_eq!(double, curve.sum(g, shifted).unwrap());
    assert_eq!(double, curve.sum(shifted, g).unwrap());
}
