use b3_jones::poly::Poly;

#[test]
fn literals() {
    assert_eq!(format!("{:?}", Poly::zero()), "Poly { coef_map: {} }");
    assert_eq!(format!("{:?}", Poly::number(42)), "Poly { coef_map: {0: 42} }");
    assert_eq!(format!("{:?}", Poly::identity()), "Poly { coef_map: {1: 1} }");
    assert_eq!(format!("{:?}", Poly::inverse_identity()), "Poly { coef_map: {-1: 1} }");
}

#[test]
fn coef_access() {
    let mut poly = Poly::number(15);
    assert_eq!(poly.get_coef(0), 15);
    assert_eq!(poly.get_coef(1), 0);
    poly.set_coef(1, 40);
    assert_eq!(poly.get_coef(1), 40);
    poly.set_coef(0, 0);
    assert_eq!(poly.get_coef(0), 0);
}

#[test]
fn equality() {
    let mut poly = Poly::zero();
    assert_eq!(&poly, &Poly::zero());
    poly.set_coef(-1, 1);
    assert_ne!(&poly, &Poly::zero());
    assert_eq!(&poly, &Poly::inverse_identity());
    poly.set_coef(5, 0);
    assert_eq!(&poly, &Poly::inverse_identity());
}

#[test]
fn arithmetic() {
    let mut poly1 = Poly::zero();
    poly1.add_assign(&Poly::identity());
    poly1.add_assign(&Poly::identity());
    poly1.add_assign(&Poly::inverse_identity().scale(2));
    poly1.sub_assign(&Poly::number(4));

    let mut poly2 = Poly::zero();
    poly2.set_coef(-1, -1);
    poly2.set_coef(0, 2);
    poly2.set_coef(1, -1);
    poly2.scale_assign(2);

    assert_eq!(&poly1, &poly2.neg());
}

#[test]
fn multiplication() {
    let mut poly1 = Poly::zero();
    poly1.set_coef(2, 1);
    poly1.set_coef(0, 1);

    let mut poly2 = Poly::zero();
    poly2.set_coef(2, 1);
    poly2.set_coef(0, -1);

    let mut poly3 = Poly::zero();
    poly3.set_coef(4, 1);
    poly3.set_coef(0, -1);

    assert_eq!(&poly1.mul(&poly2), &poly3);
}

#[test]
fn mirror() {
    assert_eq!(&Poly::zero().mirror(), &Poly::zero());
    assert_eq!(&Poly::identity().mirror(), &Poly::inverse_identity());

    let mut poly = Poly::zero();
    poly.set_coef(5, -7);
    poly.set_coef(-7, 5);
    let mirr = poly.mirror();
    assert_eq!(mirr.get_coef(-7), 0);
    assert_eq!(mirr.get_coef(-5), -7);
    assert_eq!(mirr.get_coef(5), 0);
    assert_eq!(mirr.get_coef(7), 5);
}

#[test]
fn equality_is_an_equivalence() {
    let mut p = Poly::number(3);
    p.set_coef(2, -1);
    let mut q = Poly::zero();
    q.set_coef(2, -1);
    q.set_coef(0, 3);
    q.set_coef(9, 0);
    let mut r = q.clone();
    r.set_coef(-4, 0);
    assert_eq!(&p, &p);
    assert_eq!(&p, &q);
    assert_eq!(&q, &p);
    assert_eq!(&q, &r);
    assert_eq!(&p, &r);
    r.set_coef(1, 1);
    assert_ne!(&p, &r);
}

#[test]
fn stored_zero_equals_absent_term() {
    let mut p = Poly::identity();
    p.set_coef(7, 0);
    assert_eq!(&p, &Poly::identity());
    assert_eq!(p.get_coef(7), 0);
}

#[test]
fn multiplication_distributes_over_addition() {
    let mut p = Poly::zero();
    p.set_coef(-1, 2);
    p.set_coef(3, -5);
    let mut q = Poly::number(7);
    q.set_coef(1, 1);
    let mut r = Poly::zero();
    r.set_coef(-1, -7);
    r.set_coef(2, 4);
    let lhs = p.mul(&q.add(&r));
    let rhs = p.mul(&q).add(&p.mul(&r));
    assert_eq!(&lhs, &rhs);
    let lhs2 = q.add(&r).mul(&p);
    let rhs2 = q.mul(&p).add(&r.mul(&p));
    assert_eq!(&lhs2, &rhs2);
    assert_eq!(lhs.get_coef(-2), 2 * -7);
    assert_eq!(lhs.get_coef(0), 2);
    assert_eq!(lhs.get_coef(5), -5 * 4);
}

#[test]
fn mirror_is_an_involution() {
    let mut p = Poly::zero();
    p.set_coef(-3, 4);
    p.set_coef(0, -2);
    p.set_coef(8, 1);
    let m = p.mirror();
    assert_eq!(m.get_coef(3), 4);
    assert_eq!(m.get_coef(-8), 1);
    assert_ne!(&m, &p);
    assert_eq!(&m.mirror(), &p);
}

#[test]
fn subtraction_and_negation() {
    let mut p = Poly::number(5);
    p.set_coef(2, 3);
    let q = Poly::identity();
    let d = p.sub(&q);
    assert_eq!(d.get_coef(0), 5);
    assert_eq!(d.get_coef(1), -1);
    assert_eq!(d.get_coef(2), 3);
    let n = p.neg();
    assert_eq!(n.get_coef(2), -3);
    assert_eq!(&n.add(&p), &Poly::zero());
    let mut m = p.clone();
    m.mul_assign(&Poly::inverse_identity());
    assert_eq!(m.get_coef(-1), 5);
    assert_eq!(m.get_coef(1), 3);
    assert_eq!(m.get_coef(2), 0);
}

#[test]
fn text_lists_nonzero_terms_by_exponent() {
    let mut p = Poly::zero();
    p.set_coef(2, -3);
    p.set_coef(-1, 5);
    p.set_coef(0, 0);
    assert_eq!(p.to_string(), "P(t) = 5 * t^-1  +  -3 * t^2");
    assert_eq!(Poly::zero().to_string(), "P(t) = ");
    assert_eq!(Poly::number(i64::MIN).to_string(), "P(t) = -9223372036854775808 * t^0");
    assert_eq!(Poly::identity().scale(120).to_string(), "P(t) = 120 * t^1");
}
