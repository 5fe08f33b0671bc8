//! Kauffman-bracket recurrence for three-strand braids, and the breadth-first
//! enumeration of canonical braid words together with their Jones polynomials.
use crate::braid::{children, level_words, next_level, words_up_to, Braid, Twist};
use crate::poly::{abs_sum, coef_at, fits, is_exponent_sum, magnitude_term, product_term, Poly};
use crate::sums::{
    lemma_count_in_range, lemma_sum_insert, lemma_sum_le_count, lemma_sum_singleton, magnitude,
};
use vstd::prelude::*;

verus! {

broadcast use crate::poly::lemma_poly_finite;

/// The longest canonical word that the enumeration reaches: up to this length
/// every coefficient that the recurrence computes provably fits in `i64`.
pub const MAX_LENGTH: u32 = 32;

/// One of the five ways of closing three strands into a link diagram.
pub enum Joining {
    A,
    B,
    C,
    D,
    E,
}

/// Coefficient of `t^e` in `U^n` (for `n >= 1`), where `U = -(t^-2 + t^2)` is the
/// bracket of the unknot.
pub open spec fn unknot_power(n: nat, e: int) -> int
    decreases n,
{
    if n <= 1 {
        if e == 2 || e == -2 {
            -1
        } else {
            0
        }
    } else {
        -unknot_power((n - 1) as nat, e + 2) - unknot_power((n - 1) as nat, e - 2)
    }
}

/// `+1` for a positive twist, `-1` for a negative one.
pub open spec fn twist_sign(g: Twist) -> int {
    match g {
        Twist::A | Twist::B => 1,
        Twist::Ainv | Twist::Binv => -1,
    }
}

/// Whether the twist crosses the first two strands.
pub open spec fn twists_first_pair(g: Twist) -> bool {
    g == Twist::A || g == Twist::Ainv
}

/// Coefficient of `t^e` in the Kauffman bracket of the `j`-type closure of the
/// braid word `w`.
///
/// With `s` the sign of the last twist, each bracket of `w` is `t^s x + t^-s y` or
/// `t^s x + t^-s (U x)` for brackets `x`, `y` of `w` without its last twist.
pub open spec fn bracket_coef(w: Seq<Twist>, j: Joining, e: int) -> int
    decreases w.len(),
{
    if w.len() == 0 {
        match j {
            Joining::A => unknot_power(3, e),
            Joining::B | Joining::C => unknot_power(2, e),
            Joining::D | Joining::E => unknot_power(1, e),
        }
    } else {
        let p = w.drop_last();
        let s = twist_sign(w.last());
        if twists_first_pair(w.last()) {
            match j {
                Joining::A => bracket_coef(p, Joining::A, e - s) + bracket_coef(p, Joining::B, e + s),
                Joining::B => bracket_coef(p, Joining::B, e - s) - bracket_coef(p, Joining::B, e + s + 2)
                    - bracket_coef(p, Joining::B, e + s - 2),
                Joining::C => bracket_coef(p, Joining::C, e - s) + bracket_coef(p, Joining::D, e + s),
                Joining::D => bracket_coef(p, Joining::D, e - s) - bracket_coef(p, Joining::D, e + s + 2)
                    - bracket_coef(p, Joining::D, e + s - 2),
                Joining::E => bracket_coef(p, Joining::E, e - s) + bracket_coef(p, Joining::B, e + s),
            }
        } else {
            match j {
                Joining::A => bracket_coef(p, Joining::A, e - s) + bracket_coef(p, Joining::C, e + s),
                Joining::B => bracket_coef(p, Joining::B, e - s) + bracket_coef(p, Joining::E, e + s),
                Joining::C => bracket_coef(p, Joining::C, e - s) - bracket_coef(p, Joining::C, e + s + 2)
                    - bracket_coef(p, Joining::C, e + s - 2),
                Joining::D => bracket_coef(p, Joining::D, e - s) + bracket_coef(p, Joining::C, e + s),
                Joining::E => bracket_coef(p, Joining::E, e - s) - bracket_coef(p, Joining::E, e + s + 2)
                    - bracket_coef(p, Joining::E, e + s - 2),
            }
        }
    }
}

/// The writhe of a braid word: positive twists count `+1`, negative ones `-1`.
pub open spec fn writhe_of(w: Seq<Twist>) -> int
    decreases w.len(),
{
    if w.len() == 0 {
        0
    } else {
        writhe_of(w.drop_last()) + twist_sign(w.last())
    }
}

/// `(-1)^w`.
pub open spec fn writhe_sign(w: int) -> int {
    if w % 2 == 0 {
        1
    } else {
        -1
    }
}

/// Coefficient of `t^e` in the Jones polynomial of the closure of `w`: the
/// `A`-type bracket times `(-1)^w t^(-3w)`, where `w` is the writhe.
pub open spec fn jones_coef(w: Seq<Twist>, e: int) -> int {
    writhe_sign(writhe_of(w)) * bracket_coef(w, Joining::A, e + 3 * writhe_of(w))
}

/// Every stored exponent of `x` lies in `[-r, r]`, every stored coefficient in `[-m, m]`.
pub open spec fn within(x: Map<i64, i64>, r: int, m: int) -> bool {
    forall|k: i64| #[trigger]
        x.contains_key(k) ==> -r <= k <= r && magnitude(x[k] as int) <= m
}

pub open spec fn pow3(n: nat) -> int
    decreases n,
{
    if n == 0 {
        1
    } else {
        3 * pow3((n - 1) as nat)
    }
}

/// Exponents of the brackets of a word of `n` twists lie within `[-radius(n), radius(n)]`.
pub open spec fn radius(n: nat) -> int {
    6 + 3 * (n as int)
}

/// Coefficients of the brackets of a word of `n` twists are at most `coef_cap(n)`.
pub open spec fn coef_cap(n: nat) -> int {
    4 * pow3(n)
}

/// `coef_cap(MAX_LENGTH)`.
pub open spec fn coef_limit() -> int {
    7412080755407364
}

/// The single term `U = -(t^-2 + t^2)`.
pub open spec fn unknot_map() -> Map<i64, i64> {
    map![-2i64 => -1i64, 2i64 => -1i64]
}

proof fn lemma_pow3_monotone(a: nat, b: nat)
    requires
        a <= b,
    ensures
        1 <= pow3(a) <= pow3(b),
    decreases b,
{
    if b > 0 {
        if a == b {
            lemma_pow3_monotone((b - 1) as nat, (b - 1) as nat);
        } else {
            lemma_pow3_monotone(a, (b - 1) as nat);
        }
    }
}

proof fn lemma_coef_cap_bound(n: nat)
    requires
        n <= MAX_LENGTH,
    ensures
        4 <= coef_cap(n) <= coef_limit(),
        n < MAX_LENGTH ==> 3 * coef_cap(n) <= coef_limit(),
{
    assert(pow3(32) == 1853020188851841) by {
        reveal_with_fuel(pow3, 33);
    }
    lemma_pow3_monotone(n, 32);
    if n < MAX_LENGTH {
        lemma_pow3_monotone(n, 31);
        assert(pow3(32) == 3 * pow3(31));
    }
}

proof fn lemma_within_coef(x: Map<i64, i64>, r: int, m: int, e: int)
    requires
        within(x, r, m),
        m >= 0,
    ensures
        magnitude(coef_at(x, e)) <= m,
{
    if fits(e) && x.contains_key(e as i64) {
    }
}

proof fn lemma_abs_sum_within(x: Map<i64, i64>, r: int, m: int)
    requires
        x.dom().finite(),
        within(x, r, m),
        r >= 0,
        m >= 0,
    ensures
        abs_sum(x) <= (2 * r + 1) * m,
{
    lemma_sum_le_count(x.dom(), magnitude_term(x), m);
    lemma_count_in_range(x.dom(), r);
    assert(x.dom().len() * m <= (2 * r + 1) * m) by (nonlinear_arith)
        requires
            x.dom().len() <= 2 * r + 1,
            m >= 0,
    ;
}

proof fn lemma_monomial(s: i64, c: i64, x: Map<i64, i64>)
    ensures
        abs_sum(map![s => c]) == magnitude(c as int),
        forall|e: int| #[trigger]
            crate::poly::product_coef(map![s => c], x, e) == c * coef_at(x, e - s),
{
    let mono = map![s => c];
    assert(mono.dom() =~= set![s]);
    lemma_sum_singleton(magnitude_term(mono), s);
    assert forall|e: int| #[trigger]
        crate::poly::product_coef(mono, x, e) == c * coef_at(x, e - s) by {
        lemma_sum_singleton(product_term(mono, x, e), s);
    }
}

proof fn lemma_unknot(x: Map<i64, i64>)
    ensures
        abs_sum(unknot_map()) == 2,
        forall|e: int| #[trigger]
            crate::poly::product_coef(unknot_map(), x, e) == -coef_at(x, e + 2) - coef_at(x, e - 2),
{
    let u = unknot_map();
    assert(u.dom() =~= set![-2i64].insert(2i64));
    lemma_sum_singleton(magnitude_term(u), -2i64);
    lemma_sum_insert(set![-2i64], magnitude_term(u), 2i64);
    assert forall|e: int| #[trigger]
        crate::poly::product_coef(u, x, e) == -coef_at(x, e + 2) - coef_at(x, e - 2) by {
        lemma_sum_singleton(product_term(u, x, e), -2i64);
        lemma_sum_insert(set![-2i64], product_term(u, x, e), 2i64);
    }
}

/// The Jones polynomial from the `A`-type bracket `kauffman` and the `writhe`:
/// `kauffman` times `(-1)^writhe t^(-3 writhe)`.
///
/// The sign is `(-1)^writhe` for negative writhes too: the closure of a word and
/// of its mirror word then get mirror polynomials, as the Jones polynomial of a
/// mirror image must be.
pub fn calc_jones(kauffman: &Poly, writhe: i64) -> (r: Poly)
    requires
        abs_sum(kauffman@) <= i64::MAX,
        fits(3 * writhe),
        forall|k: i64| #[trigger] kauffman@.contains_key(k) ==> fits(k - 3 * writhe),
    ensures
        forall|e: int| #[trigger]
            coef_at(r@, e) == writhe_sign(writhe as int) * coef_at(kauffman@, e + 3 * writhe),
        forall|k: i64| #[trigger] r@.contains_key(k) ==> kauffman@.contains_key((k + 3 * writhe) as i64),
{
    let mut writhe_poly = Poly::zero();
    let sign: i64 = if writhe % 2 == 0 {
        1
    } else {
        -1
    };
    writhe_poly.set_coef(-3 * writhe, sign);
    proof {
        assert(writhe_poly@ == map![(-3 * writhe) as i64 => sign]);
        lemma_monomial((-3 * writhe) as i64, sign, kauffman@);
        assert(sign == writhe_sign(writhe as int));
    }
    let r = writhe_poly.mul(kauffman);
    proof {
        assert forall|k: i64| #[trigger] r@.contains_key(k) implies kauffman@.contains_key(
            (k + 3 * writhe) as i64,
        ) by {
            assert(is_exponent_sum(writhe_poly@, kauffman@, k as int));
            let (k1, k2) = choose|k1: i64, k2: i64|
                writhe_poly@.contains_key(k1) && kauffman@.contains_key(k2) && k == k1 + k2;
            assert(k1 == -3 * writhe);
        }
    }
    r
}

/// The Kauffman bracket of the unknot, `U = -(t^-2 + t^2)`.
pub fn kauffman_unknot() -> (r: Poly)
    ensures
        r@ == unknot_map(),
{
    let mut res = Poly::zero();
    res.set_coef(-2, -1);
    res.set_coef(2, -1);
    res
}

/// `mono * x`, where `mono` is the single term `c t^s` with `c` a unit.
fn times_monomial(
    mono: &Poly,
    x: &Poly,
    Ghost(s): Ghost<i64>,
    Ghost(c): Ghost<i64>,
    Ghost(r): Ghost<int>,
    Ghost(m): Ghost<int>,
) -> (res: Poly)
    requires
        mono@ == map![s => c],
        c == 1 || c == -1,
        -200 <= s <= 200,
        within(x@, r, m),
        0 <= r <= 210,
        0 <= m <= coef_limit(),
    ensures
        forall|e: int| #[trigger] coef_at(res@, e) == c * coef_at(x@, e - s),
        within(res@, r + magnitude(s as int), m),
{
    proof {
        lemma_monomial(s, c, x@);
        lemma_abs_sum_within(x@, r, m);
        assert((2 * r + 1) * m <= 421 * coef_limit()) by (nonlinear_arith)
            requires
                0 <= r <= 210,
                0 <= m <= coef_limit(),
        ;
    }
    let res = mono.mul(x);
    proof {
        assert forall|k: i64| #[trigger] res@.contains_key(k) implies -(r + magnitude(s as int)) <= k
            <= r + magnitude(s as int) && magnitude(res@[k] as int) <= m by {
            assert(is_exponent_sum(mono@, x@, k as int));
            let (k1, k2) = choose|k1: i64, k2: i64|
                mono@.contains_key(k1) && x@.contains_key(k2) && k == k1 + k2;
            assert(coef_at(res@, k as int) == c * coef_at(x@, k - s));
            lemma_within_coef(x@, r, m, k - s);
        }
    }
    res
}

/// `u * x`, where `u` is the unknot bracket `U`.
fn times_unknot(u: &Poly, x: &Poly, Ghost(r): Ghost<int>, Ghost(m): Ghost<int>) -> (res: Poly)
    requires
        u@ == unknot_map(),
        within(x@, r, m),
        0 <= r <= 210,
        0 <= m <= coef_limit(),
    ensures
        forall|e: int| #[trigger] coef_at(res@, e) == -coef_at(x@, e + 2) - coef_at(x@, e - 2),
        within(res@, r + 2, 2 * m),
{
    proof {
        lemma_unknot(x@);
        lemma_abs_sum_within(x@, r, m);
        assert(2 * ((2 * r + 1) * m) <= 842 * coef_limit()) by (nonlinear_arith)
            requires
                0 <= r <= 210,
                0 <= m <= coef_limit(),
        ;
    }
    let res = u.mul(x);
    proof {
        assert forall|k: i64| #[trigger] res@.contains_key(k) implies -(r + 2) <= k <= r + 2
            && magnitude(res@[k] as int) <= 2 * m by {
            assert(is_exponent_sum(u@, x@, k as int));
            let (k1, k2) = choose|k1: i64, k2: i64|
                u@.contains_key(k1) && x@.contains_key(k2) && k == k1 + k2;
            assert(coef_at(res@, k as int) == -coef_at(x@, k + 2) - coef_at(x@, k - 2));
            lemma_within_coef(x@, r, m, k + 2);
            lemma_within_coef(x@, r, m, k - 2);
        }
    }
    res
}

/// `t^s x`, with `s = 1` when `up` holds and `s = -1` otherwise.
fn shifted(x: &Poly, up: bool, Ghost(r): Ghost<int>, Ghost(m): Ghost<int>) -> (res: Poly)
    requires
        within(x@, r, m),
        0 <= r <= 210,
        0 <= m <= coef_limit(),
    ensures
        forall|e: int| #[trigger] coef_at(res@, e) == coef_at(x@, e - (if up { 1int } else { -1int })),
        within(res@, r + 1, m),
{
    if up {
        let res = times_monomial(&Poly::identity(), x, Ghost(1i64), Ghost(1i64), Ghost(r), Ghost(m));
        res
    } else {
        let res = times_monomial(
            &Poly::inverse_identity(),
            x,
            Ghost(-1i64),
            Ghost(1i64),
            Ghost(r),
            Ghost(m),
        );
        res
    }
}

/// `t^s x + t^-s y`, with `s = 1` when `up` holds and `s = -1` otherwise.
fn mix(x: &Poly, y: &Poly, up: bool, Ghost(r): Ghost<int>, Ghost(m): Ghost<int>) -> (res: Poly)
    requires
        within(x@, r, m),
        within(y@, r, m),
        0 <= r <= 200,
        0 <= m <= coef_limit(),
    ensures
        forall|e: int| #[trigger]
            coef_at(res@, e) == coef_at(x@, e - (if up { 1int } else { -1int })) + coef_at(
                y@,
                e + (if up { 1int } else { -1int }),
            ),
        within(res@, r + 1, 2 * m),
{
    let tx = shifted(x, up, Ghost(r), Ghost(m));
    let ty = shifted(y, !up, Ghost(r), Ghost(m));
    proof {
        assert forall|e: int| #[trigger] fits(coef_at(tx@, e) + coef_at(ty@, e)) by {
            lemma_within_coef(tx@, r + 1, m, e);
            lemma_within_coef(ty@, r + 1, m, e);
        }
    }
    let res = tx.add(&ty);
    proof {
        assert forall|k: i64| #[trigger] res@.contains_key(k) implies -(r + 1) <= k <= r + 1
            && magnitude(res@[k] as int) <= 2 * m by {
            assert(coef_at(res@, k as int) == coef_at(tx@, k as int) + coef_at(ty@, k as int));
            lemma_within_coef(tx@, r + 1, m, k as int);
            lemma_within_coef(ty@, r + 1, m, k as int);
        }
    }
    res
}

/// `t^s x + t^-s (U x)`, with `s = 1` when `up` holds and `s = -1` otherwise.
fn mix_loop(x: &Poly, up: bool, Ghost(r): Ghost<int>, Ghost(m): Ghost<int>) -> (res: Poly)
    requires
        within(x@, r, m),
        0 <= r <= 200,
        0 <= 3 * m <= coef_limit(),
    ensures
        forall|e: int| #[trigger]
            coef_at(res@, e) == coef_at(x@, e - (if up { 1int } else { -1int })) - coef_at(
                x@,
                e + (if up { 1int } else { -1int }) + 2,
            ) - coef_at(x@, e + (if up { 1int } else { -1int }) - 2),
        within(res@, r + 3, 3 * m),
{
    let tx = shifted(x, up, Ghost(r), Ghost(m));
    let ux = times_unknot(&kauffman_unknot(), x, Ghost(r), Ghost(m));
    let tux = shifted(&ux, !up, Ghost(r + 2), Ghost(2 * m));
    proof {
        assert forall|e: int| #[trigger] fits(coef_at(tx@, e) + coef_at(tux@, e)) by {
            lemma_within_coef(tx@, r + 1, m, e);
            lemma_within_coef(tux@, r + 3, 2 * m, e);
        }
    }
    let res = tx.add(&tux);
    proof {
        assert forall|k: i64| #[trigger] res@.contains_key(k) implies -(r + 3) <= k <= r + 3
            && magnitude(res@[k] as int) <= 3 * m by {
            assert(coef_at(res@, k as int) == coef_at(tx@, k as int) + coef_at(tux@, k as int));
            lemma_within_coef(tx@, r + 1, m, k as int);
            lemma_within_coef(tux@, r + 3, 2 * m, k as int);
        }
    }
    res
}

/// The annotation of a canonical braid word that the recurrence carries from a
/// word to the words one twist longer.
pub struct BraidData {
    /// The element of the braid group for which data is stored.
    pub braid: Braid,
    /// Kauffman bracket for the knot obtained by A-type joining of strands.
    pub kauffman_a: Poly,
    /// Kauffman bracket for the knot obtained by B-type joining of strands.
    pub kauffman_b: Poly,
    /// Kauffman bracket for the knot obtained by C-type joining of strands.
    pub kauffman_c: Poly,
    /// Kauffman bracket for the knot obtained by D-type joining of strands.
    pub kauffman_d: Poly,
    /// Kauffman bracket for the knot obtained by E-type joining of strands.
    pub kauffman_e: Poly,
    /// Writhe of the corresponding knot (always A-type joining).
    pub writhe: i64,
    /// Jones polynomial of the corresponding knot (always A-type joining).
    pub jones: Poly,
}

/// `x` holds the `j`-type bracket of `w`, with the bounds that a word of its length allows.
pub open spec fn holds_bracket(x: Poly, w: Seq<Twist>, j: Joining) -> bool {
    &&& forall|e: int| #[trigger] coef_at(x@, e) == bracket_coef(w, j, e)
    &&& within(x@, radius(w.len()), coef_cap(w.len()))
}

impl BraidData {
    /// The record is the annotation of its word.
    pub open spec fn wf(&self) -> bool {
        let w = self.braid@;
        &&& w.len() <= MAX_LENGTH
        &&& self.writhe == writhe_of(w)
        &&& holds_bracket(self.kauffman_a, w, Joining::A)
        &&& holds_bracket(self.kauffman_b, w, Joining::B)
        &&& holds_bracket(self.kauffman_c, w, Joining::C)
        &&& holds_bracket(self.kauffman_d, w, Joining::D)
        &&& holds_bracket(self.kauffman_e, w, Joining::E)
        &&& forall|e: int| #[trigger] coef_at(self.jones@, e) == jones_coef(w, e)
    }

    /// Braid data for the identity element of the braid group.
    pub fn identity_braid() -> (r: BraidData)
        ensures
            r.wf(),
            r.braid@ == Seq::<Twist>::empty(),
    {
        let kauffman_unknot_1 = kauffman_unknot();
        proof {
            assert(within(kauffman_unknot_1@, 2, 1));
            lemma_coef_cap_bound(0);
        }
        // Kauffman bracket for unknot, squared.
        let kauffman_unknot_2 = times_unknot(&kauffman_unknot_1, &kauffman_unknot_1, Ghost(2), Ghost(1));
        // Kauffman bracket for unknot, cubed.
        let kauffman_unknot_3 = times_unknot(&kauffman_unknot_1, &kauffman_unknot_2, Ghost(4), Ghost(2));
        proof {
            assert forall|e: int| #[trigger] coef_at(kauffman_unknot_1@, e) == unknot_power(1, e) by {
                if e == 2 || e == -2 {
                } else if fits(e) {
                    assert(!kauffman_unknot_1@.contains_key(e as i64));
                }
            }
            assert forall|e: int| #[trigger] coef_at(kauffman_unknot_2@, e) == unknot_power(2, e) by {
                assert(coef_at(kauffman_unknot_1@, e + 2) == unknot_power(1, e + 2));
                assert(coef_at(kauffman_unknot_1@, e - 2) == unknot_power(1, e - 2));
            }
            assert forall|e: int| #[trigger] coef_at(kauffman_unknot_3@, e) == unknot_power(3, e) by {
                assert(coef_at(kauffman_unknot_2@, e + 2) == unknot_power(2, e + 2));
                assert(coef_at(kauffman_unknot_2@, e - 2) == unknot_power(2, e - 2));
            }
            lemma_abs_sum_within(kauffman_unknot_3@, 6, 4);
        }
        let jones = calc_jones(&kauffman_unknot_3, 0);
        let r = BraidData {
            braid: Braid::identity(),
            // A-type joining of three untwisted strands gives 3 unknots.
            kauffman_a: kauffman_unknot_3,
            // B-type joining of three untwisted strands gives 2 unknots.
            kauffman_b: kauffman_unknot_2.clone(),
            // C-type joining of three untwisted strands gives 2 unknots.
            kauffman_c: kauffman_unknot_2,
            // D-type joining of three untwisted strands gives 1 unknot.
            kauffman_d: kauffman_unknot_1.clone(),
            // E-type joining of three untwisted strands gives 1 unknot.
            kauffman_e: kauffman_unknot_1,
            writhe: 0,
            jones,
        };
        proof {
            assert forall|e: int| #[trigger] coef_at(r.jones@, e) == jones_coef(r.braid@, e) by {
                assert(writhe_sign(0) == 1);
            }
        }
        r
    }

    /// The annotation of `braid`, which is this record's word with one more twist.
    fn child(&self, braid: Braid) -> (r: BraidData)
        requires
            self.wf(),
            self.braid@.len() < MAX_LENGTH,
            braid@.len() == self.braid@.len() + 1,
            braid@.drop_last() == self.braid@,
        ensures
            r.wf(),
            r.braid@ == braid@,
    {
        let ghost w = braid@;
        let ghost n = self.braid@.len();
        let ghost r0 = radius(n);
        let ghost m0 = coef_cap(n);
        proof {
            lemma_coef_cap_bound(n);
            lemma_coef_cap_bound(n + 1);
            assert(coef_cap(n + 1) == 3 * coef_cap(n));
            lemma_writhe_bound(self.braid@);
            lemma_writhe_bound(w);
        }
        let g = braid.twists[braid.twists.len() - 1];
        assert(g == w.last());
        let (up, first_pair) = match g {
            Twist::A => (true, true),
            Twist::B => (true, false),
            Twist::Ainv => (false, true),
            Twist::Binv => (false, false),
        };
        let (kauffman_a, kauffman_b, kauffman_c, kauffman_d, kauffman_e) = if first_pair {
            (
                mix(&self.kauffman_a, &self.kauffman_b, up, Ghost(r0), Ghost(m0)),
                mix_loop(&self.kauffman_b, up, Ghost(r0), Ghost(m0)),
                mix(&self.kauffman_c, &self.kauffman_d, up, Ghost(r0), Ghost(m0)),
                mix_loop(&self.kauffman_d, up, Ghost(r0), Ghost(m0)),
                mix(&self.kauffman_e, &self.kauffman_b, up, Ghost(r0), Ghost(m0)),
            )
        } else {
            (
                mix(&self.kauffman_a, &self.kauffman_c, up, Ghost(r0), Ghost(m0)),
                mix(&self.kauffman_b, &self.kauffman_e, up, Ghost(r0), Ghost(m0)),
                mix_loop(&self.kauffman_c, up, Ghost(r0), Ghost(m0)),
                mix(&self.kauffman_d, &self.kauffman_c, up, Ghost(r0), Ghost(m0)),
                mix_loop(&self.kauffman_e, up, Ghost(r0), Ghost(m0)),
            )
        };
        let writhe = if up {
            self.writhe + 1
        } else {
            self.writhe - 1
        };
        proof {
            assert(writhe == writhe_of(w));
            lemma_abs_sum_within(kauffman_a@, r0 + 3, 3 * m0);
            assert((2 * (r0 + 3) + 1) * (3 * m0) <= 211 * coef_limit()) by (nonlinear_arith)
                requires
                    0 <= r0 + 3 <= 105,
                    0 <= 3 * m0 <= coef_limit(),
            ;
        }
        let jones = calc_jones(&kauffman_a, writhe);
        let r = BraidData {
            braid,
            kauffman_a,
            kauffman_b,
            kauffman_c,
            kauffman_d,
            kauffman_e,
            writhe,
            jones,
        };
        r
    }

    /// Calculates BraidData for descendants of the element of the braid group.
    pub fn descendants(&self) -> (r: Vec<BraidData>)
        requires
            self.wf(),
            self.braid@.len() < MAX_LENGTH,
        ensures
            r@.len() == children(self.braid@).len(),
            forall|i: int| 0 <= i < r@.len() ==> (#[trigger] r@[i]).wf() && r@[i].braid@ == children(
                self.braid@,
            )[i],
    {
        let kids = self.braid.descendants();
        proof {
            crate::braid::lemma_children_extend(self.braid@);
        }
        let mut res: Vec<BraidData> = Vec::new();
        let mut i: usize = 0;
        while i < kids.len()
            invariant
                i <= kids@.len(),
                self.wf(),
                self.braid@.len() < MAX_LENGTH,
                crate::braid::braid_views(kids@) == children(self.braid@),
                forall|j: int| 0 <= j < children(self.braid@).len() ==> (#[trigger] children(self.braid@)[j]).len()
                    == self.braid@.len() + 1 && children(self.braid@)[j].drop_last() == self.braid@,
                res@.len() == i,
                forall|j: int| 0 <= j < i ==> (#[trigger] res@[j]).wf() && res@[j].braid@ == children(
                    self.braid@,
                )[j],
            decreases kids@.len() - i,
        {
            assert(kids@[i as int]@ == children(self.braid@)[i as int]);
            let d = self.child(kids[i].clone());
            res.push(d);
            i = i + 1;
        }
        res
    }
}

proof fn lemma_writhe_bound(w: Seq<Twist>)
    ensures
        -w.len() <= writhe_of(w) <= w.len(),
    decreases w.len(),
{
    if w.len() > 0 {
        lemma_writhe_bound(w.drop_last());
    }
}

/// The number of canonical words of each length from 0 to `k`, added up.
pub open spec fn word_count_up_to(k: nat) -> nat
    decreases k,
{
    if k == 0 {
        level_words(0).len()
    } else {
        word_count_up_to((k - 1) as nat) + level_words(k).len()
    }
}

/// Reduced BraidData (with only the braid and its Jones polynomial left).
pub struct BraidJones {
    pub braid: Braid,
    pub jones: Poly,
}

/// `rs` holds the words `ws`, in order, each with its Jones polynomial.
pub open spec fn records_match(rs: Seq<BraidJones>, ws: Seq<Seq<Twist>>) -> bool {
    &&& rs.len() == ws.len()
    &&& forall|i: int| 0 <= i < rs.len() ==> (#[trigger] rs[i]).braid@ == ws[i]
    &&& forall|i: int, e: int| 0 <= i < rs.len() ==> #[trigger] coef_at(rs[i].jones@, e) == jones_coef(ws[i], e)
}

/// `ds` holds the annotations of the words `ws`, in order, each of `k` twists.
pub open spec fn frontier_matches(ds: Seq<BraidData>, ws: Seq<Seq<Twist>>, k: nat) -> bool {
    &&& ds.len() == ws.len()
    &&& forall|i: int| 0 <= i < ds.len() ==> (#[trigger] ds[i]).wf() && ds[i].braid@ == ws[i] && ws[i].len() == k
}

/// The pairs of every canonical word of at most `n` twists with its Jones
/// polynomial, length by length, and the annotations of the words of exactly `n`
/// twists. Only the newest generation keeps its full annotation.
pub fn calc_braid_jones_rec(n: u32) -> (res: (Vec<BraidJones>, Vec<BraidData>))
    requires
        n <= MAX_LENGTH,
    ensures
        records_match(res.0@, words_up_to(n as nat)),
        frontier_matches(res.1@, level_words(n as nat), n as nat),
{
    let first = BraidData::identity_braid();
    let mut bjones: Vec<BraidJones> = Vec::new();
    bjones.push(BraidJones { braid: first.braid.clone(), jones: first.jones.clone() });
    let mut bdata: Vec<BraidData> = Vec::new();
    bdata.push(first);
    let mut level: u32 = 0;
    while level < n
        invariant
            level <= n <= MAX_LENGTH,
            records_match(bjones@, words_up_to(level as nat)),
            frontier_matches(bdata@, level_words(level as nat), level as nat),
        decreases n - level,
    {
        let ghost parents = level_words(level as nat);
        let ghost done = words_up_to(level as nat);
        let mut new_bdata: Vec<BraidData> = Vec::new();
        let mut i: usize = 0;
        proof {
            assert(parents.subrange(0, 0).len() == 0);
        }
        while i < bdata.len()
            invariant
                i <= bdata@.len(),
                level < n <= MAX_LENGTH,
                parents == level_words(level as nat),
                frontier_matches(bdata@, parents, level as nat),
                frontier_matches(new_bdata@, next_level(parents.subrange(0, i as int)), (level + 1) as nat),
                records_match(bjones@, done + next_level(parents.subrange(0, i as int))),
            decreases bdata@.len() - i,
        {
            let kids = bdata[i].descendants();
            let ghost w = parents[i as int];
            let ghost before = next_level(parents.subrange(0, i as int));
            let ghost kids_v = kids@;
            proof {
                crate::braid::lemma_children_extend(w);
                assert(before + children(w).subrange(0, 0) =~= before);
            }
            for kid in it: kids.into_iter()
                invariant
                    it.seq() == kids_v,
                    kids_v.len() == children(w).len(),
                    forall|j: int| 0 <= j < kids_v.len() ==> (#[trigger] kids_v[j]).wf() && kids_v[j].braid@
                        == children(w)[j],
                    forall|j: int| 0 <= j < children(w).len() ==> (#[trigger] children(w)[j]).len() == w.len() + 1,
                    w.len() == level,
                    frontier_matches(new_bdata@, before + children(w).subrange(0, it.index() as int), (level + 1) as nat),
                    records_match(bjones@, done + (before + children(w).subrange(0, it.index() as int))),
            {
                let ghost k = it.index() as int;
                proof {
                    assert(before + children(w).subrange(0, k + 1) =~= (before + children(w).subrange(0, k)).push(children(w)[k]));
                    assert(done + (before + children(w).subrange(0, k + 1)) =~= (done + (before + children(w).subrange(0, k))).push(children(w)[k]));
                }
                bjones.push(BraidJones { braid: kid.braid.clone(), jones: kid.jones.clone() });
                new_bdata.push(kid);
            }
            proof {
                assert(parents.subrange(0, i + 1).drop_last() =~= parents.subrange(0, i as int));
                assert(children(w).subrange(0, children(w).len() as int) =~= children(w));
            }
            i = i + 1;
        }
        proof {
            assert(parents.subrange(0, parents.len() as int) =~= parents);
        }
        bdata = new_bdata;
        level = level + 1;
    }
    (bjones, bdata)
}

/// Every canonical braid word of at most `n` twists with its Jones polynomial:
/// all words of length 0, then all of length 1, and so on, each length in the
/// order in which the generator produces it.
pub fn calc_braid_jones(n: u32) -> (r: Vec<BraidJones>)
    requires
        n <= MAX_LENGTH,
    ensures
        records_match(r@, words_up_to(n as nat)),
        r@.len() == word_count_up_to(n as nat),
{
    let (res, _) = calc_braid_jones_rec(n);
    proof {
        lemma_pair_count(n as nat);
    }
    res
}

/// The pairs gathered after generation `k` are as many as the canonical words of
/// lengths 0 to `k` together.
pub proof fn lemma_pair_count(k: nat)
    ensures
        words_up_to(k).len() == word_count_up_to(k),
    decreases k,
{
    if k > 0 {
        lemma_pair_count((k - 1) as nat);
    }
}

} // verus!
