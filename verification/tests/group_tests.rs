use elliptic_curve::curve::{EllipticCurve, Point};
use elliptic_curve::Error;

#[test]
fn test_order() {
    let curve = EllipticCurve::new(-1, 0, 71).unwrap();
    assert_eq!(72, curve.order().unwrap());
    let curve = EllipticCurve::new(1, 6, 11).unwrap();
    assert_eq!(13, curve.order().unwrap());
    let curve = EllipticCurve::new(57, 97, 199).unwrap();
    assert_eq!(220, curve.order().unwrap());
}

#[test]
fn test_cyclic_group() {
    let curve = EllipticCurve::new(3, 11, 53).unwrap();
    assert_eq!(57, curve.cyclic_group(Point::Affine(9, 5)).unwrap().len());
    assert_eq!(19, curve.cyclic_group(Point::Affine(38, 47)).unwrap().len());
}

#[test]
fn test_solutions() {
    let prime = 53;
    for a in 0..prime {
        for b in 0..prime {
            if a == 0 && b == 0 {
                continue;
            }
            let curve = EllipticCurve::new(a, b, prime).unwrap();
            assert_eq!(curve.order().unwrap(), curve.solutions().unwrap().len() as i32);
        }
    }
}

#[test]
fn test_cyclic_group_shape() {
    let curve = EllipticCurve::new(3, 11, 53).unwrap();
    let cycle = curve.cyclic_group(Point::Affine(9, 5)).unwrap();
    // starts at the canonical generator, ends at the identity, and every
    // element lies on the curve
    assert_eq!(Point::Affine(9, 5), cycle[0]);
    assert_eq!(Point::Inf, *cycle.last().unwrap());
    for pt in &cycle[..cycle.len() - 1] {
        assert!(!matches!(pt, Point::Inf));
        assert!(curve.is_on(*pt));
    }
    // the generator at infinity generates only itself
    assert_eq!(vec![Point::Inf], curve.cyclic_group(Point::Inf).unwrap());
    // an off-curve generator is rejected
    assert_eq!(Err(Error::NotOnCurve), curve.cyclic_group(Point::Affine(1, 1)));
}

#[test]
fn test_cyclic_group_length_divides_order() {
    let curve = EllipticCurve::new(3, 11, 53).unwrap();
    let order = curve.order().unwrap();
    for generator in curve.solutions().unwrap() {
        let len = curve.cyclic_group(generator).unwrap().len() as i32;
        assert_eq!(0, order % len);
    }
}

#[test]
fn test_decomposition() {
    let curve = EllipticCurve::new(3, 11, 53).unwrap();
    let order = curve.order().unwrap();
    let (cofactor, max_order) = curve.decomposition().unwrap();
    assert_eq!(57, max_order);
    assert_eq!(order / 57, cofactor);
    assert_eq!(order, cofactor * max_order);

    let curve = EllipticCurve::new(-1, 0, 47).unwrap();
    let order = curve.order().unwrap();
    let (cofactor, max_order) = curve.decomposition().unwrap();
    assert_eq!(order, cofactor * max_order);
}

#[test]
fn test_solutions_listing() {
    // y^2 = x^3 + 6 mod 7 has the identity and these canonical points
    let curve = EllipticCurve::new(0, 6, 7).unwrap();
    let sols = curve.solutions().unwrap();
    assert_eq!(Point::Inf, sols[0]);
    for w in sols[1..].windows(2) {
        let (Point::Affine(x0, y0), Point::Affine(x1, y1)) = (w[0], w[1]) else {
            panic!("affine points expected after the identity");
        };
        assert!(x0 < x1 || (x0 == x1 && y0 < y1));
    }
    assert_eq!(curve.order().unwrap() as usize, sols.len());
    for pt in &sols {
        assert!(curve.is_on(*pt));
    }
}
