use b3_jones::braid::Twist;
use b3_jones::jones::{calc_braid_jones, calc_braid_jones_rec, calc_jones, kauffman_unknot, BraidData};
use b3_jones::poly::Poly;

fn unknot_cubed() -> Poly {
    let u = kauffman_unknot();
    u.mul(&u).mul(&u)
}

#[test]
fn unknot_bracket() {
    let u = kauffman_unknot();
    assert_eq!(u.get_coef(-2), -1);
    assert_eq!(u.get_coef(2), -1);
    assert_eq!(u.get_coef(0), 0);
    assert_eq!(&u.mirror(), &u);
}

#[test]
fn identity_braid_base_case() {
    let d = BraidData::identity_braid();
    let u = kauffman_unknot();
    let u3 = unknot_cubed();
    assert_eq!(&d.kauffman_a, &u3);
    assert_eq!(&d.kauffman_b, &u.mul(&u));
    assert_eq!(&d.kauffman_c, &u.mul(&u));
    assert_eq!(&d.kauffman_d, &u);
    assert_eq!(&d.kauffman_e, &u);
    assert_eq!(d.writhe, 0);
    assert_eq!(&d.jones, &u3);
    assert_eq!(u3.get_coef(6), -1);
    assert_eq!(u3.get_coef(2), -3);
    assert_eq!(u3.get_coef(-2), -3);
    assert_eq!(u3.get_coef(-6), -1);
    assert_eq!(u3.get_coef(0), 0);
}

#[test]
fn enumerate_two_generations() {
    let bj = calc_braid_jones(2);
    assert_eq!(bj.len(), 1 + 4 + 12);
    assert_eq!(bj[0].braid.canonical_len(), 0);
    assert_eq!(bj[0].jones.get_coef(0), 0);
    assert_eq!(&bj[0].jones, &unknot_cubed());
    assert_eq!(bj[1].braid.twists, vec![Twist::A]);
    assert_eq!(bj[16].braid.twists, vec![Twist::Binv, Twist::Binv]);
}

#[test]
fn pair_count_is_sum_of_generation_sizes() {
    let sizes = [1usize, 4, 12, 34, 92];
    let mut total = 0;
    for (k, size) in sizes.iter().enumerate() {
        total += size;
        assert_eq!(calc_braid_jones(k as u32).len(), total);
        let (pairs, frontier) = calc_braid_jones_rec(k as u32);
        assert_eq!(pairs.len(), total);
        assert_eq!(frontier.len(), *size);
    }
}

#[test]
fn writhe_correction() {
    let u3 = unknot_cubed();
    let j = calc_jones(&u3, 1);
    assert_eq!(j.get_coef(-3 - 6), 1);
    assert_eq!(j.get_coef(-3 + 2), 3);
    let j_neg = calc_jones(&u3, -1);
    assert_eq!(j_neg.get_coef(3 + 6), 1);
    assert_eq!(&j_neg, &j.mirror());
    assert_eq!(&calc_jones(&u3, 2), &{
        let mut w = Poly::zero();
        w.set_coef(-6, 1);
        w.mul(&u3)
    });
}

#[test]
fn mirror_words_get_mirror_polynomials() {
    let bj = calc_braid_jones(1);
    // A and Ainv close to mirror images; so do B and Binv.
    assert_eq!(&bj[3].jones, &bj[1].jones.mirror());
    assert_eq!(&bj[4].jones, &bj[2].jones.mirror());
    // A single twist closes to two unlinked unknots.
    let u = kauffman_unknot();
    assert_eq!(&bj[1].jones, &u.mul(&u));
}

#[test]
fn descendants_follow_the_recurrence() {
    let root = BraidData::identity_braid();
    let kids = root.descendants();
    assert_eq!(kids.len(), 4);
    let t = Poly::identity();
    let ti = Poly::inverse_identity();
    let a = &kids[0];
    assert_eq!(a.braid.twists, vec![Twist::A]);
    assert_eq!(a.writhe, 1);
    assert_eq!(&a.kauffman_a, &t.mul(&root.kauffman_a).add(&ti.mul(&root.kauffman_b)));
    let binv = &kids[3];
    assert_eq!(binv.writhe, -1);
    assert_eq!(&binv.kauffman_a, &ti.mul(&root.kauffman_a).add(&t.mul(&root.kauffman_c)));
    let u = kauffman_unknot();
    assert_eq!(&binv.kauffman_c, &ti.mul(&root.kauffman_c).add(&t.mul(&root.kauffman_c.mul(&u))));
}
