//! Sparse Laurent polynomials in one variable `t` with integer coefficients.
use crate::sums::{
    lemma_sum_add, lemma_sum_ext, lemma_sum_insert, lemma_sum_nonneg, lemma_sum_subset_le,
    lemma_sum_term_le, lemma_sum_zero_outside, magnitude, sum_over,
};
use std::collections::BTreeMap;
use vstd::prelude::*;
use vstd::std_specs::cmp::OrdSpec;
use vstd::std_specs::iter::IteratorSpec;
use vstd::string::StringExecFns;

verus! {

broadcast use vstd::std_specs::btree::group_btree_axioms, vstd::laws_cmp::group_laws_cmp;

/// Laurent polynomial in one variable `t`, with integer coefficients.
///
/// Only some exponents are stored; an absent exponent has coefficient 0, and a
/// stored 0 means the same as an absent entry.
#[derive(Debug)]
pub struct Poly {
    coef_map: BTreeMap<i64, i64>,
}

impl View for Poly {
    type V = Map<i64, i64>;

    /// The stored terms, exponent to coefficient.
    closed spec fn view(&self) -> Map<i64, i64> {
        self.coef_map@
    }
}

pub broadcast proof fn lemma_poly_finite(p: Poly)
    ensures
        #[trigger] p@.dom().finite(),
{
}

/// Whether an integer fits in `i64`.
pub open spec fn fits(x: int) -> bool {
    i64::MIN <= x <= i64::MAX
}

/// Coefficient of `t^e` in the polynomial with stored terms `m`.
pub open spec fn coef_at(m: Map<i64, i64>, e: int) -> int {
    if fits(e) && m.contains_key(e as i64) {
        m[e as i64] as int
    } else {
        0
    }
}

/// The two polynomials have the same coefficient at every exponent.
pub open spec fn same_coefs(p: Map<i64, i64>, q: Map<i64, i64>) -> bool {
    forall|e: int| #![trigger coef_at(p, e)] #![trigger coef_at(q, e)] coef_at(p, e) == coef_at(q, e)
}

/// `r` is `p + q`.
pub open spec fn is_sum(r: Map<i64, i64>, p: Map<i64, i64>, q: Map<i64, i64>) -> bool {
    forall|e: int| #[trigger] coef_at(r, e) == coef_at(p, e) + coef_at(q, e)
}

/// `r` is `p - q`.
pub open spec fn is_difference(r: Map<i64, i64>, p: Map<i64, i64>, q: Map<i64, i64>) -> bool {
    forall|e: int| #[trigger] coef_at(r, e) == coef_at(p, e) - coef_at(q, e)
}

/// `r` is `c * p` for the integer `c`.
pub open spec fn is_scaled(r: Map<i64, i64>, p: Map<i64, i64>, c: int) -> bool {
    forall|e: int| #[trigger] coef_at(r, e) == c * coef_at(p, e)
}

/// `r` is `p(t^-1)`.
pub open spec fn is_mirror(r: Map<i64, i64>, p: Map<i64, i64>) -> bool {
    forall|e: int| #[trigger] coef_at(r, e) == coef_at(p, -e)
}

/// The term contributed by the stored exponent `k` of `p` to the coefficient of
/// `t^e` in `p * q`.
pub open spec fn product_term(p: Map<i64, i64>, q: Map<i64, i64>, e: int) -> spec_fn(i64) -> int {
    |k: i64| (p[k] as int) * coef_at(q, e - k)
}

/// Coefficient of `t^e` in `p * q`: the sum over the stored exponents `k` of `p`
/// of `p_k * q_(e - k)`.
pub open spec fn product_coef(p: Map<i64, i64>, q: Map<i64, i64>, e: int) -> int {
    sum_over(p.dom(), product_term(p, q, e))
}

/// `r` is `p * q`.
pub open spec fn is_product(r: Map<i64, i64>, p: Map<i64, i64>, q: Map<i64, i64>) -> bool {
    forall|e: int| #[trigger] coef_at(r, e) == product_coef(p, q, e)
}

pub open spec fn magnitude_term(p: Map<i64, i64>) -> spec_fn(i64) -> int {
    |k: i64| magnitude(p[k] as int)
}

/// The sum of the magnitudes of the stored coefficients of `p`.
pub open spec fn abs_sum(p: Map<i64, i64>) -> int {
    sum_over(p.dom(), magnitude_term(p))
}

/// Every exponent `k1 + k2` with `k1` stored in `p` and `k2` stored in `q` fits in `i64`.
pub open spec fn exponent_sums_fit(p: Map<i64, i64>, q: Map<i64, i64>) -> bool {
    forall|k1: i64, k2: i64| p.contains_key(k1) && q.contains_key(k2) ==> #[trigger] fits(k1 + k2)
}

/// `k` is `k1 + k2` for some stored exponent `k1` of `p` and `k2` of `q`.
pub open spec fn is_exponent_sum(p: Map<i64, i64>, q: Map<i64, i64>, k: int) -> bool {
    exists|k1: i64, k2: i64| #![trigger p.contains_key(k1), q.contains_key(k2)]
        p.contains_key(k1) && q.contains_key(k2) && k == k1 + k2
}

/// `es` lists the stored terms of `m`, each exponent once.
pub open spec fn lists_terms(es: Seq<(i64, i64)>, m: Map<i64, i64>) -> bool {
    &&& forall|i: int| 0 <= i < es.len() ==> #[trigger] m.contains_key(es[i].0) && m[es[i].0] == es[i].1
    &&& forall|i: int, j: int| 0 <= i < j < es.len() ==> es[i].0 != es[j].0
    &&& forall|k: i64| #[trigger] m.contains_key(k) ==> exists|i: int| 0 <= i < es.len() && es[i].0 == k
}

/// The exponents of `es` increase strictly.
pub open spec fn increasing_keys(es: Seq<(i64, i64)>) -> bool {
    forall|i: int, j: int| 0 <= i < j < es.len() ==> es[i].0 < es[j].0
}

/// The exponents of the first `n` terms of `es`.
pub open spec fn keys_before(es: Seq<(i64, i64)>, n: int) -> Set<i64> {
    Set::new(|k: i64| exists|i: int| 0 <= i < n && es[i].0 == k)
}

/// `e` is an exponent in `s`.
pub open spec fn in_keys(s: Set<i64>, e: int) -> bool {
    fits(e) && s.contains(e as i64)
}

/// `x`, negated when `subtract` holds.
pub open spec fn signed(x: int, subtract: bool) -> int {
    if subtract {
        -x
    } else {
        x
    }
}

/// The character of the decimal digit `d`.
pub open spec fn digit_char(d: int) -> char {
    seq!['0', '1', '2', '3', '4', '5', '6', '7', '8', '9'][d]
}

/// The decimal digits of `n`, most significant first.
pub open spec fn digits_of(n: nat) -> Seq<char>
    decreases n,
{
    if n < 10 {
        seq![digit_char(n as int)]
    } else {
        digits_of(n / 10) + seq![digit_char((n % 10) as int)]
    }
}

/// The decimal form of `v`, with a leading `-` when it is negative.
pub open spec fn decimal(v: int) -> Seq<char> {
    if v < 0 {
        seq!['-'] + digits_of((-v) as nat)
    } else {
        digits_of(v as nat)
    }
}

/// The text of the term `v * t^k`.
pub open spec fn term_text(term: (i64, i64)) -> Seq<char> {
    decimal(term.1 as int) + seq![' ', '*', ' ', 't', '^'] + decimal(term.0 as int)
}

/// The texts of `ts`, joined by `  +  `.
pub open spec fn terms_text(ts: Seq<(i64, i64)>) -> Seq<char>
    decreases ts.len(),
{
    if ts.len() == 0 {
        Seq::empty()
    } else if ts.len() == 1 {
        term_text(ts[0])
    } else {
        terms_text(ts.drop_last()) + seq![' ', ' ', '+', ' ', ' '] + term_text(ts.last())
    }
}

/// The terms of `ts` whose coefficient is not 0, in their order.
pub open spec fn nonzero_terms(ts: Seq<(i64, i64)>) -> Seq<(i64, i64)>
    decreases ts.len(),
{
    if ts.len() == 0 {
        Seq::empty()
    } else if ts.last().1 != 0 {
        nonzero_terms(ts.drop_last()).push(ts.last())
    } else {
        nonzero_terms(ts.drop_last())
    }
}

/// The text `P(t) = ...` of the polynomial whose terms, by increasing exponent, are `ts`.
pub open spec fn poly_text(ts: Seq<(i64, i64)>) -> Seq<char> {
    seq!['P', '(', 't', ')', ' ', '=', ' '] + terms_text(nonzero_terms(ts))
}

fn digit_text(d: u64) -> (r: &'static str)
    requires
        d < 10,
    ensures
        r@ == seq![digit_char(d as int)],
{
    proof {
        reveal_strlit("0");
        reveal_strlit("1");
        reveal_strlit("2");
        reveal_strlit("3");
        reveal_strlit("4");
        reveal_strlit("5");
        reveal_strlit("6");
        reveal_strlit("7");
        reveal_strlit("8");
        reveal_strlit("9");
    }
    let r = match d {
        0 => "0",
        1 => "1",
        2 => "2",
        3 => "3",
        4 => "4",
        5 => "5",
        6 => "6",
        7 => "7",
        8 => "8",
        _ => "9",
    };
    assert(r@ =~= seq![digit_char(d as int)]);
    r
}

fn digits_text(n: u64) -> (r: String)
    ensures
        r@ == digits_of(n as nat),
    decreases n,
{
    if n < 10 {
        String::from_str(digit_text(n))
    } else {
        let mut s = digits_text(n / 10);
        s.append(digit_text(n % 10));
        s
    }
}

/// The decimal form of `v`.
fn decimal_text(v: i64) -> (r: String)
    ensures
        r@ == decimal(v as int),
{
    if v < 0 {
        let mag = (0 - (v as i128)) as u64;
        let mut s = String::from_str("-");
        proof {
            reveal_strlit("-");
        }
        let digits = digits_text(mag);
        s.append(digits.as_str());
        assert(s@ =~= decimal(v as int));
        s
    } else {
        digits_text(v as u64)
    }
}

/// The stored terms of `m`, listed once each.
fn entries(m: &BTreeMap<i64, i64>) -> (r: Vec<(i64, i64)>)
    ensures
        lists_terms(r@, m@),
        increasing_keys(r@),
{
    let mut r: Vec<(i64, i64)> = Vec::new();
    let ghost s = vstd::std_specs::btree::spec_btree_map_iter(m).remaining();
    for kv in it: m.iter()
        invariant
            it.seq() == s,
            r@.len() == it.index(),
            forall|i: int| 0 <= i < r@.len() ==> r@[i] == (*s[i].0, *s[i].1),
    {
        r.push((*kv.0, *kv.1));
    }
    proof {
        assert(r@.len() == s.len());
        let ks = s.map_values(|kv: (&i64, &i64)| *kv.0);
        assert(vstd::std_specs::btree::increasing_seq(ks));
        assert forall|i: int, j: int| 0 <= i < j < r@.len() implies r@[i].0 < r@[j].0 by {
            assert(ks[i].cmp_spec(&ks[j]) is Less);
        }
        assert forall|k: i64| #[trigger] m@.contains_key(k) implies exists|i: int|
            0 <= i < r@.len() && r@[i].0 == k by {
            assert(s.contains((&k, &m@[k])));
            let i = choose|i: int| 0 <= i < s.len() && s[i] == (&k, &m@[k]);
            assert(r@[i].0 == k);
        }
    }
    r
}

proof fn lemma_listing_prefix(a: Seq<(i64, i64)>, b: Seq<(i64, i64)>, m: Map<i64, i64>, i: int)
    requires
        lists_terms(a, m),
        increasing_keys(a),
        lists_terms(b, m),
        increasing_keys(b),
        0 <= i <= a.len(),
        i <= b.len(),
    ensures
        forall|j: int| 0 <= j < i ==> a[j] == b[j],
    decreases i,
{
    if i > 0 {
        let k = i - 1;
        lemma_listing_prefix(a, b, m, k);
        assert(m.contains_key(a[k].0) && m.contains_key(b[k].0));
        if a[k].0 < b[k].0 {
            let j = choose|j: int| 0 <= j < b.len() && b[j].0 == a[k].0;
            if j < k {
                assert(a[j] == b[j]);
            }
        } else if b[k].0 < a[k].0 {
            let j = choose|j: int| 0 <= j < a.len() && a[j].0 == b[k].0;
            if j < k {
                assert(a[j] == b[j]);
            }
        }
    }
}

/// The terms of a polynomial can be listed by strictly increasing exponent in one way only.
pub proof fn lemma_listing_unique(a: Seq<(i64, i64)>, b: Seq<(i64, i64)>, m: Map<i64, i64>)
    requires
        lists_terms(a, m),
        increasing_keys(a),
        lists_terms(b, m),
        increasing_keys(b),
    ensures
        a == b,
{
    if a.len() <= b.len() {
        lemma_listing_prefix(a, b, m, a.len() as int);
        if a.len() < b.len() {
            let k = a.len() as int;
            assert(m.contains_key(b[k].0));
            let j = choose|j: int| 0 <= j < a.len() && a[j].0 == b[k].0;
            assert(a[j] == b[j]);
        }
    } else {
        lemma_listing_prefix(a, b, m, b.len() as int);
        let k = b.len() as int;
        assert(m.contains_key(a[k].0));
        let j = choose|j: int| 0 <= j < b.len() && b[j].0 == a[k].0;
        assert(a[j] == b[j]);
    }
    assert(a =~= b);
}

proof fn lemma_keys_before_step(es: Seq<(i64, i64)>, n: int)
    requires
        0 <= n < es.len(),
        forall|i: int, j: int| 0 <= i < j < es.len() ==> es[i].0 != es[j].0,
    ensures
        keys_before(es, n + 1) == keys_before(es, n).insert(es[n].0),
        !keys_before(es, n).contains(es[n].0),
{
    assert(keys_before(es, n + 1) =~= keys_before(es, n).insert(es[n].0));
}

proof fn lemma_keys_before_all(es: Seq<(i64, i64)>, m: Map<i64, i64>)
    requires
        lists_terms(es, m),
    ensures
        keys_before(es, es.len() as int) == m.dom(),
{
    assert(keys_before(es, es.len() as int) =~= m.dom());
}

impl Clone for Poly {
    fn clone(&self) -> (r: Poly)
        ensures
            r@ == self@,
    {
        Poly { coef_map: self.coef_map.clone() }
    }
}

impl PartialEq for Poly {
    /// Two polynomials are equal when their coefficients agree at every exponent;
    /// a stored 0 counts as an absent term.
    fn eq(&self, rhs: &Poly) -> (r: bool)
        ensures
            r == same_coefs(self@, rhs@),
    {
        let forward = self.agrees_on_own_terms(rhs);
        let backward = rhs.agrees_on_own_terms(self);
        proof {
            if forward && backward {
                assert forall|e: int| #![trigger coef_at(self@, e)] #![trigger coef_at(rhs@, e)]
                    coef_at(self@, e) == coef_at(rhs@, e) by {
                    if fits(e) && self@.contains_key(e as i64) {
                        assert(coef_at(rhs@, (e as i64) as int) == self@[e as i64]);
                    } else if fits(e) && rhs@.contains_key(e as i64) {
                        assert(coef_at(self@, (e as i64) as int) == rhs@[e as i64]);
                    }
                }
            } else if !forward {
                let k = choose|k: i64| self@.contains_key(k) && coef_at(rhs@, k as int) != self@[k];
                assert(coef_at(self@, k as int) != coef_at(rhs@, k as int));
            } else {
                let k = choose|k: i64| rhs@.contains_key(k) && coef_at(self@, k as int) != rhs@[k];
                assert(coef_at(self@, k as int) != coef_at(rhs@, k as int));
            }
        }
        forward && backward
    }
}

impl vstd::std_specs::cmp::PartialEqSpecImpl for Poly {
    open spec fn obeys_eq_spec() -> bool {
        true
    }

    open spec fn eq_spec(&self, rhs: &Poly) -> bool {
        same_coefs(self@, rhs@)
    }
}

impl Eq for Poly {
}

impl Poly {
    /// Gives the P(t) = 0 polynomial.
    pub fn zero() -> (r: Poly)
        ensures
            r@ == Map::<i64, i64>::empty(),
    {
        Poly { coef_map: BTreeMap::new() }
    }

    /// Gives the P(t) = `num` polynomial.
    pub fn number(num: i64) -> (r: Poly)
        ensures
            r@ == map![0i64 => num],
    {
        let mut coef_map = BTreeMap::new();
        coef_map.insert(0, num);
        Poly { coef_map }
    }

    /// Gives the P(t) = t polynomial.
    pub fn identity() -> (r: Poly)
        ensures
            r@ == map![1i64 => 1i64],
    {
        let mut coef_map = BTreeMap::new();
        coef_map.insert(1, 1);
        Poly { coef_map }
    }

    /// Gives the P(t) = t^-1 polynomial.
    pub fn inverse_identity() -> (r: Poly)
        ensures
            r@ == map![-1i64 => 1i64],
    {
        let mut coef_map = BTreeMap::new();
        coef_map.insert(-1, 1);
        Poly { coef_map }
    }

    /// Whether every stored term of `self` has the same coefficient in `rhs`.
    fn agrees_on_own_terms(&self, rhs: &Poly) -> (r: bool)
        ensures
            r == forall|k: i64| #[trigger] self@.contains_key(k) ==> coef_at(rhs@, k as int) == self@[k],
    {
        let es = entries(&self.coef_map);
        let mut i: usize = 0;
        while i < es.len()
            invariant
                i <= es@.len(),
                lists_terms(es@, self@),
                forall|j: int| 0 <= j < i ==> #[trigger] coef_at(rhs@, es@[j].0 as int) == es@[j].1,
            decreases es@.len() - i,
        {
            let (k, v) = es[i];
            if rhs.get_coef(k) != v {
                assert(self@.contains_key(es@[i as int].0));
                return false;
            }
            i = i + 1;
        }
        proof {
            assert forall|k: i64| #[trigger] self@.contains_key(k) implies coef_at(rhs@, k as int)
                == self@[k] by {
                let j = choose|j: int| 0 <= j < es@.len() && es@[j].0 == k;
                assert(coef_at(rhs@, es@[j].0 as int) == es@[j].1);
            }
        }
        true
    }

    /// Gets the coefficient in front of the t^`exp` power.
    pub fn get_coef(&self, exp: i64) -> (r: i64)
        ensures
            r == coef_at(self@, exp as int),
    {
        match self.coef_map.get(&exp) {
            Some(v) => *v,
            None => 0,
        }
    }

    /// Sets the coefficient in front of the t^`exp` power to `coef`.
    pub fn set_coef(&mut self, exp: i64, coef: i64)
        ensures
            final(self)@ == old(self)@.insert(exp, coef),
    {
        self.coef_map.insert(exp, coef);
    }

    /// Adds `rhs`, or subtracts it when `subtract` holds, in place.
    fn accumulate(&mut self, rhs: &Poly, subtract: bool)
        requires
            forall|e: int| #[trigger] fits(coef_at(old(self)@, e) + signed(coef_at(rhs@, e), subtract)),
        ensures
            forall|e: int| #[trigger] coef_at(final(self)@, e) == coef_at(old(self)@, e) + signed(
                coef_at(rhs@, e), subtract),
            final(self)@.dom() == old(self)@.dom().union(rhs@.dom()),
    {
        let ghost start = self@;
        let es = entries(&rhs.coef_map);
        let mut i: usize = 0;
        while i < es.len()
            invariant
                i <= es@.len(),
                lists_terms(es@, rhs@),
                forall|e: int| #[trigger] fits(coef_at(start, e) + signed(coef_at(rhs@, e), subtract)),
                forall|e: int| #[trigger] coef_at(self@, e) == coef_at(start, e) + (if in_keys(keys_before(es@, i as int), e) {
                    signed(coef_at(rhs@, e), subtract)
                } else {
                    0
                }),
                self@.dom() == start.dom().union(keys_before(es@, i as int)),
            decreases es@.len() - i,
        {
            let (k, v) = es[i];
            proof {
                lemma_keys_before_step(es@, i as int);
                assert(rhs@.contains_key(es@[i as int].0));
                assert(fits(coef_at(start, k as int) + signed(coef_at(rhs@, k as int), subtract)));
                assert(coef_at(self@, k as int) == coef_at(start, k as int));
            }
            let current = match self.coef_map.get(&k) {
                Some(c) => *c,
                None => 0,
            };
            let next = if subtract {
                current - v
            } else {
                current + v
            };
            let ghost before = self@;
            self.coef_map.insert(k, next);
            proof {
                assert forall|e: int| #[trigger] coef_at(self@, e) == coef_at(start, e) + (if in_keys(
                    keys_before(es@, i + 1),
                    e,
                ) {
                    signed(coef_at(rhs@, e), subtract)
                } else {
                    0
                }) by {
                    if e != k as int {
                        assert(coef_at(self@, e) == coef_at(before, e));
                    }
                }
                assert(self@.dom() =~= start.dom().union(keys_before(es@, i + 1)));
            }
            i = i + 1;
        }
        proof {
            lemma_keys_before_all(es@, rhs@);
        }
    }

    /// Adds `rhs` to this polynomial.
    pub fn add_assign(&mut self, rhs: &Poly)
        requires
            forall|e: int| #[trigger] fits(coef_at(old(self)@, e) + coef_at(rhs@, e)),
        ensures
            is_sum(final(self)@, old(self)@, rhs@),
            final(self)@.dom() == old(self)@.dom().union(rhs@.dom()),
    {
        self.accumulate(rhs, false);
    }

    /// Subtracts `rhs` from this polynomial.
    pub fn sub_assign(&mut self, rhs: &Poly)
        requires
            forall|e: int| #[trigger] fits(coef_at(old(self)@, e) - coef_at(rhs@, e)),
        ensures
            is_difference(final(self)@, old(self)@, rhs@),
            final(self)@.dom() == old(self)@.dom().union(rhs@.dom()),
    {
        proof {
            assert forall|e: int| #[trigger] fits(coef_at(old(self)@, e) + signed(coef_at(rhs@, e), true)) by {
                assert(fits(coef_at(old(self)@, e) - coef_at(rhs@, e)));
            }
        }
        self.accumulate(rhs, true);
    }

    /// The sum `self + rhs`.
    pub fn add(&self, rhs: &Poly) -> (r: Poly)
        requires
            forall|e: int| #[trigger] fits(coef_at(self@, e) + coef_at(rhs@, e)),
        ensures
            is_sum(r@, self@, rhs@),
            r@.dom() == self@.dom().union(rhs@.dom()),
    {
        let mut res = self.clone();
        res.add_assign(rhs);
        res
    }

    /// The difference `self - rhs`.
    pub fn sub(&self, rhs: &Poly) -> (r: Poly)
        requires
            forall|e: int| #[trigger] fits(coef_at(self@, e) - coef_at(rhs@, e)),
        ensures
            is_difference(r@, self@, rhs@),
            r@.dom() == self@.dom().union(rhs@.dom()),
    {
        let mut res = self.clone();
        res.sub_assign(rhs);
        res
    }

    /// Multiplies every coefficient by `c`.
    pub fn scale_assign(&mut self, c: i64)
        requires
            forall|k: i64| #[trigger] old(self)@.contains_key(k) ==> fits(c * old(self)@[k]),
        ensures
            is_scaled(final(self)@, old(self)@, c as int),
            final(self)@.dom() == old(self)@.dom(),
    {
        let ghost start = self@;
        let es = entries(&self.coef_map);
        let mut i: usize = 0;
        while i < es.len()
            invariant
                i <= es@.len(),
                lists_terms(es@, start),
                forall|k: i64| #[trigger] start.contains_key(k) ==> fits(c * start[k]),
                forall|e: int| #[trigger] coef_at(self@, e) == (if in_keys(keys_before(es@, i as int), e) {
                    c * coef_at(start, e)
                } else {
                    coef_at(start, e)
                }),
                self@.dom() == start.dom(),
            decreases es@.len() - i,
        {
            let (k, v) = es[i];
            proof {
                lemma_keys_before_step(es@, i as int);
                assert(start.contains_key(es@[i as int].0));
            }
            let ghost before = self@;
            self.coef_map.insert(k, c * v);
            proof {
                assert forall|e: int| #[trigger] coef_at(self@, e) == (if in_keys(keys_before(es@, i + 1), e) {
                    c * coef_at(start, e)
                } else {
                    coef_at(start, e)
                }) by {
                    if e != k as int {
                        assert(coef_at(self@, e) == coef_at(before, e));
                    }
                }
                assert(self@.dom() =~= start.dom());
            }
            i = i + 1;
        }
        proof {
            lemma_keys_before_all(es@, start);
        }
    }

    /// The polynomial `c * self`.
    pub fn scale(&self, c: i64) -> (r: Poly)
        requires
            forall|k: i64| #[trigger] self@.contains_key(k) ==> fits(c * self@[k]),
        ensures
            is_scaled(r@, self@, c as int),
            r@.dom() == self@.dom(),
    {
        let mut res = self.clone();
        res.scale_assign(c);
        res
    }

    /// The polynomial `-self`.
    pub fn neg(&self) -> (r: Poly)
        requires
            forall|k: i64| #[trigger] self@.contains_key(k) ==> self@[k] != i64::MIN,
        ensures
            is_scaled(r@, self@, -1),
            r@.dom() == self@.dom(),
    {
        self.scale(-1)
    }

    /// The product `self * rhs`: for every stored exponent `k1` of `self` and `k2`
    /// of `rhs`, the product of their coefficients is added at `k1 + k2`.
    ///
    /// The bound on the magnitude sums keeps every intermediate coefficient in `i64`.
    pub fn mul(&self, rhs: &Poly) -> (r: Poly)
        requires
            abs_sum(self@) * abs_sum(rhs@) <= i64::MAX,
            exponent_sums_fit(self@, rhs@),
        ensures
            is_product(r@, self@, rhs@),
            forall|k: i64| #[trigger] r@.contains_key(k) ==> is_exponent_sum(self@, rhs@, k as int),
    {
        let ps = entries(&self.coef_map);
        let qs = entries(&rhs.coef_map);
        let ghost p = self@;
        let ghost q = rhs@;
        let ghost ap = abs_sum(p);
        let ghost aq = abs_sum(q);
        proof {
            lemma_sum_nonneg(p.dom(), magnitude_term(p));
            lemma_sum_nonneg(q.dom(), magnitude_term(q));
            assert(keys_before(ps@, 0) =~= Set::empty());
            crate::sums::lemma_sum_empty(magnitude_term(p));
            assert forall|e: int| sum_over(keys_before(ps@, 0), product_term(p, q, e)) == 0 by {
                crate::sums::lemma_sum_empty(product_term(p, q, e));
            }
            assert(0 * aq == 0);
        }
        let mut res: BTreeMap<i64, i64> = BTreeMap::new();
        let mut i: usize = 0;
        while i < ps.len()
            invariant
                i <= ps@.len(),
                p == self@,
                q == rhs@,
                ap == abs_sum(p),
                aq == abs_sum(q),
                ap >= 0,
                aq >= 0,
                ap * aq <= i64::MAX,
                lists_terms(ps@, p),
                lists_terms(qs@, q),
                exponent_sums_fit(p, q),
                forall|e: int| #[trigger] coef_at(res@, e) == sum_over(
                    keys_before(ps@, i as int),
                    product_term(p, q, e),
                ),
                forall|e: int| #[trigger] magnitude(coef_at(res@, e)) <= sum_over(
                    keys_before(ps@, i as int),
                    magnitude_term(p),
                ) * aq,
                forall|k: i64| #[trigger] res@.contains_key(k) ==> is_exponent_sum(p, q, k as int),
            decreases ps@.len() - i,
        {
            let (k1, v1) = ps[i];
            let ghost done = keys_before(ps@, i as int);
            let ghost sp = sum_over(done, magnitude_term(p));
            proof {
                lemma_keys_before_step(ps@, i as int);
                assert(p.contains_key(k1));
                assert(done.subset_of(p.dom()));
                vstd::set_lib::lemma_set_subset_finite(p.dom(), done);
                lemma_sum_nonneg(done, magnitude_term(p));
                lemma_sum_insert(done, magnitude_term(p), k1);
                lemma_sum_subset_le(done.insert(k1), p.dom(), magnitude_term(p));
                assert((sp + magnitude(v1 as int)) * aq <= ap * aq) by (nonlinear_arith)
                    requires
                        sp + magnitude(v1 as int) <= ap,
                        aq >= 0,
                ;
            }
            let ghost base = res@;
            let mut j: usize = 0;
            while j < qs.len()
                invariant
                    j <= qs@.len(),
                    p.contains_key(k1),
                    p[k1] == v1,
                    q == rhs@,
                    aq == abs_sum(q),
                    aq >= 0,
                    sp >= 0,
                    (sp + magnitude(v1 as int)) * aq <= i64::MAX,
                    lists_terms(qs@, q),
                    exponent_sums_fit(p, q),
                    forall|e: int| #[trigger] magnitude(coef_at(base, e)) <= sp * aq,
                    forall|e: int| #[trigger] coef_at(res@, e) == coef_at(base, e) + (if in_keys(
                        keys_before(qs@, j as int),
                        e - k1,
                    ) {
                        v1 * coef_at(q, e - k1)
                    } else {
                        0
                    }),
                    forall|e: int| #[trigger] magnitude(coef_at(res@, e)) <= sp * aq + magnitude(
                        v1 as int,
                    ) * aq,
                    forall|k: i64| #[trigger] res@.contains_key(k) ==> is_exponent_sum(p, q, k as int),
                decreases qs@.len() - j,
            {
                let (k2, v2) = qs[j];
                proof {
                    lemma_keys_before_step(qs@, j as int);
                    assert(q.contains_key(k2));
                    assert(fits(k1 + k2));
                    lemma_sum_term_le(q.dom(), magnitude_term(q), k2);
                    assert(coef_at(res@, k1 + k2) == coef_at(base, k1 + k2));
                    assert(magnitude(v1 * v2) <= magnitude(v1 as int) * aq) by (nonlinear_arith)
                        requires
                            magnitude(v2 as int) <= aq,
                    ;
                    assert((sp + magnitude(v1 as int)) * aq == sp * aq + magnitude(v1 as int) * aq)
                        by (nonlinear_arith);
                    assert(0 <= magnitude(v1 as int) * aq) by (nonlinear_arith)
                        requires
                            aq >= 0,
                    ;
                }
                let ind: i64 = k1 + k2;
                let current = match res.get(&ind) {
                    Some(c) => *c,
                    None => 0,
                };
                proof {
                    assert(magnitude(coef_at(base, ind as int)) <= sp * aq);
                    assert(current as int == coef_at(base, ind as int));
                    assert(magnitude(current + v1 * v2) <= sp * aq + magnitude(v1 as int) * aq);
                }
                let next = current + v1 * v2;
                let ghost before = res@;
                res.insert(ind, next);
                proof {
                    assert forall|e: int| #[trigger] coef_at(res@, e) == coef_at(base, e) + (if in_keys(
                        keys_before(qs@, j + 1),
                        e - k1,
                    ) {
                        v1 * coef_at(q, e - k1)
                    } else {
                        0
                    }) by {
                        if e != ind as int {
                            assert(coef_at(res@, e) == coef_at(before, e));
                        }
                    }
                    assert forall|e: int| #[trigger] magnitude(coef_at(res@, e)) <= sp * aq + magnitude(
                        v1 as int,
                    ) * aq by {
                        if e != ind as int {
                            assert(coef_at(res@, e) == coef_at(before, e));
                        } else {
                            assert(coef_at(res@, e) == next);
                        }
                    }
                    assert forall|k: i64| #[trigger] res@.contains_key(k) implies is_exponent_sum(
                        p,
                        q,
                        k as int,
                    ) by {
                        if k == ind {
                            assert(p.contains_key(k1) && q.contains_key(k2));
                        } else {
                            assert(before.contains_key(k));
                        }
                    }
                }
                j = j + 1;
            }
            proof {
                lemma_keys_before_all(qs@, q);
                assert forall|e: int| #[trigger] coef_at(res@, e) == sum_over(
                    keys_before(ps@, i + 1),
                    product_term(p, q, e),
                ) by {
                    lemma_sum_insert(done, product_term(p, q, e), k1);
                }
                assert forall|e: int| #[trigger] magnitude(coef_at(res@, e)) <= sum_over(
                    keys_before(ps@, i + 1),
                    magnitude_term(p),
                ) * aq by {
                    assert((sp + magnitude(v1 as int)) * aq == sp * aq + magnitude(v1 as int) * aq)
                        by (nonlinear_arith);
                }
            }
            i = i + 1;
        }
        proof {
            lemma_keys_before_all(ps@, p);
        }
        Poly { coef_map: res }
    }

    /// Multiplies this polynomial by `rhs`.
    pub fn mul_assign(&mut self, rhs: &Poly)
        requires
            abs_sum(old(self)@) * abs_sum(rhs@) <= i64::MAX,
            exponent_sums_fit(old(self)@, rhs@),
        ensures
            is_product(final(self)@, old(self)@, rhs@),
            forall|k: i64| #[trigger] final(self)@.contains_key(k) ==> is_exponent_sum(
                old(self)@,
                rhs@,
                k as int,
            ),
    {
        let product = self.mul(rhs);
        *self = product;
    }

    /// The text `P(t) = c1 * t^e1  +  c2 * t^e2 ...` of the terms whose coefficient
    /// is not 0, by increasing exponent.
    pub fn to_string(&self) -> (r: String)
        ensures
            exists|ts: Seq<(i64, i64)>| lists_terms(ts, self@) && increasing_keys(ts),
            forall|ts: Seq<(i64, i64)>| lists_terms(ts, self@) && increasing_keys(ts) ==> r@ == poly_text(ts),
    {
        let es = entries(&self.coef_map);
        let mut res = String::from_str("P(t) = ");
        proof {
            reveal_strlit("P(t) = ");
            reveal_strlit("  +  ");
            reveal_strlit(" * t^");
            assert(es@.subrange(0, 0) =~= Seq::<(i64, i64)>::empty());
            assert(res@ =~= poly_text(es@.subrange(0, 0)));
        }
        let mut first = true;
        let mut i: usize = 0;
        while i < es.len()
            invariant
                i <= es@.len(),
                res@ == poly_text(es@.subrange(0, i as int)),
                first == (nonzero_terms(es@.subrange(0, i as int)).len() == 0),
            decreases es@.len() - i,
        {
            let (k, v) = es[i];
            let ghost before = es@.subrange(0, i as int);
            proof {
                assert(es@.subrange(0, i + 1).drop_last() =~= before);
                reveal_strlit("  +  ");
                reveal_strlit(" * t^");
                assert("  +  "@ =~= seq![' ', ' ', '+', ' ', ' ']);
                assert(" * t^"@ =~= seq![' ', '*', ' ', 't', '^']);
            }
            if v != 0 {
                let ghost shown = nonzero_terms(before);
                let ghost start = res@;
                if !first {
                    res.append("  +  ");
                }
                let coef = decimal_text(v);
                res.append(coef.as_str());
                res.append(" * t^");
                let exp = decimal_text(k);
                res.append(exp.as_str());
                proof {
                    let grown = shown.push((k, v));
                    assert(grown.drop_last() =~= shown);
                    assert(es@.subrange(0, i + 1).last() == (k, v));
                    assert(nonzero_terms(es@.subrange(0, i + 1)) == grown);
                    let head = seq!['P', '(', 't', ')', ' ', '=', ' '];
                    assert(start == head + terms_text(shown));
                    if first {
                        assert(terms_text(grown) == term_text(grown[0]));
                        assert(terms_text(shown) =~= Seq::<char>::empty());
                        assert(res@ =~= start + term_text((k, v)));
                    } else {
                        assert(terms_text(grown) == terms_text(shown) + seq![' ', ' ', '+', ' ', ' ']
                            + term_text((k, v)));
                        assert(res@ =~= start + seq![' ', ' ', '+', ' ', ' '] + term_text((k, v)));
                    }
                    assert(res@ =~= poly_text(es@.subrange(0, i + 1)));
                }
                first = false;
            }
            i = i + 1;
        }
        proof {
            assert(es@.subrange(0, es@.len() as int) =~= es@);
            assert forall|ts: Seq<(i64, i64)>| lists_terms(ts, self@) && increasing_keys(ts) implies res@
                == poly_text(ts) by {
                lemma_listing_unique(ts, es@, self@);
            }
        }
        res
    }

    /// Gets the mirror polynomial for P(t): M(t) = P(t^-1).
    pub fn mirror(&self) -> (r: Poly)
        requires
            !self@.contains_key(i64::MIN),
        ensures
            is_mirror(r@, self@),
            !r@.contains_key(i64::MIN),
    {
        let es = entries(&self.coef_map);
        let mut coef_map: BTreeMap<i64, i64> = BTreeMap::new();
        let mut i: usize = 0;
        while i < es.len()
            invariant
                i <= es@.len(),
                lists_terms(es@, self@),
                !self@.contains_key(i64::MIN),
                forall|j: int| 0 <= j < i ==> #[trigger] coef_at(coef_map@, -es@[j].0) == es@[j].1,
                forall|k: i64| #[trigger] coef_map@.contains_key(k) ==> k != i64::MIN && exists|j: int|
                    0 <= j < i && es@[j].0 == -k,
            decreases es@.len() - i,
        {
            let (k, v) = es[i];
            assert(self@.contains_key(es@[i as int].0));
            proof {
                assert forall|j: int| 0 <= j < i implies es@[j].0 != k by {}
            }
            let ghost before = coef_map@;
            coef_map.insert(-k, v);
            proof {
                assert forall|j: int| 0 <= j <= i implies #[trigger] coef_at(coef_map@, -es@[j].0)
                    == es@[j].1 by {
                    if j < i {
                        assert(coef_at(before, -es@[j].0) == es@[j].1);
                    }
                }
            }
            i = i + 1;
        }
        proof {
            assert forall|e: int| #[trigger] coef_at(coef_map@, e) == coef_at(self@, -e) by {
                if fits(-e) && self@.contains_key((-e) as i64) {
                    let j = choose|j: int| 0 <= j < es@.len() && es@[j].0 == (-e) as i64;
                    assert(coef_at(coef_map@, -es@[j].0) == es@[j].1);
                } else if fits(e) && coef_map@.contains_key(e as i64) {
                    let j = choose|j: int| 0 <= j < es@.len() && es@[j].0 == -(e as i64);
                    assert(self@.contains_key(es@[j].0));
                }
            }
        }
        Poly { coef_map }
    }
}

/// Polynomial equality is reflexive, symmetric and transitive.
pub proof fn lemma_equality_is_equivalence(p: Poly, q: Poly, r: Poly)
    ensures
        same_coefs(p@, p@),
        same_coefs(p@, q@) ==> same_coefs(q@, p@),
        same_coefs(p@, q@) && same_coefs(q@, r@) ==> same_coefs(p@, r@),
{
    if same_coefs(p@, q@) && same_coefs(q@, r@) {
        assert forall|e: int| #![trigger coef_at(p@, e)] #![trigger coef_at(r@, e)]
            coef_at(p@, e) == coef_at(r@, e) by {
            assert(coef_at(q@, e) == coef_at(r@, e));
        }
    }
}

/// Storing a zero coefficient at an exponent that had none leaves the polynomial equal
/// to what it was.
pub proof fn lemma_stored_zero(p: Poly, e: i64)
    requires
        !p@.contains_key(e),
    ensures
        same_coefs(p@.insert(e, 0), p@),
{
}

/// The term of `p * r` at exponent `e` contributed by `k`, with `p`'s coefficient
/// read as 0 where nothing is stored.
spec fn product_term_everywhere(p: Map<i64, i64>, r: Map<i64, i64>, e: int) -> spec_fn(i64) -> int {
    |k: i64| coef_at(p, k as int) * coef_at(r, e - k)
}

/// A product coefficient is the same sum over any finite set of exponents that
/// holds the stored ones.
proof fn lemma_product_over_superset(p: Map<i64, i64>, r: Map<i64, i64>, e: int, t: Set<i64>)
    requires
        p.dom().finite(),
        t.finite(),
        p.dom().subset_of(t),
    ensures
        product_coef(p, r, e) == sum_over(t, product_term_everywhere(p, r, e)),
{
    lemma_sum_ext(p.dom(), product_term(p, r, e), product_term_everywhere(p, r, e));
    assert forall|k: i64| t.contains(k) && !p.dom().contains(k) implies product_term_everywhere(
        p,
        r,
        e,
    )(k) == 0 by {
        assert(coef_at(p, k as int) == 0);
    }
    lemma_sum_zero_outside(p.dom(), t, product_term_everywhere(p, r, e));
}

/// Multiplication distributes over addition, on either side:
/// `p * (q + r) == p * q + p * r` and `(q + r) * p == q * p + r * p`.
pub proof fn lemma_mul_distributes_over_add(p: Poly, q: Poly, r: Poly, s: Poly)
    requires
        is_sum(s@, q@, r@),
    ensures
        forall|e: int| #[trigger]
            product_coef(p@, s@, e) == product_coef(p@, q@, e) + product_coef(p@, r@, e),
        forall|e: int| #[trigger]
            product_coef(s@, p@, e) == product_coef(q@, p@, e) + product_coef(r@, p@, e),
{
    assert forall|e: int| #[trigger]
        product_coef(p@, s@, e) == product_coef(p@, q@, e) + product_coef(p@, r@, e) by {
        assert forall|k: i64| p@.dom().contains(k) implies product_term(p@, s@, e)(k) == product_term(
            p@,
            q@,
            e,
        )(k) + product_term(p@, r@, e)(k) by {
            assert(coef_at(s@, e - k) == coef_at(q@, e - k) + coef_at(r@, e - k));
            assert((p@[k] as int) * (coef_at(q@, e - k) + coef_at(r@, e - k)) == (p@[k] as int)
                * coef_at(q@, e - k) + (p@[k] as int) * coef_at(r@, e - k)) by (nonlinear_arith);
        }
        lemma_sum_add(p@.dom(), product_term(p@, q@, e), product_term(p@, r@, e), product_term(p@, s@, e));
    }
    assert forall|e: int| #[trigger]
        product_coef(s@, p@, e) == product_coef(q@, p@, e) + product_coef(r@, p@, e) by {
        let t = s@.dom().union(q@.dom()).union(r@.dom());
        lemma_product_over_superset(s@, p@, e, t);
        lemma_product_over_superset(q@, p@, e, t);
        lemma_product_over_superset(r@, p@, e, t);
        assert forall|k: i64| t.contains(k) implies product_term_everywhere(s@, p@, e)(k)
            == product_term_everywhere(q@, p@, e)(k) + product_term_everywhere(r@, p@, e)(k) by {
            assert(coef_at(s@, k as int) == coef_at(q@, k as int) + coef_at(r@, k as int));
            assert((coef_at(q@, k as int) + coef_at(r@, k as int)) * coef_at(p@, e - k) == coef_at(
                q@,
                k as int,
            ) * coef_at(p@, e - k) + coef_at(r@, k as int) * coef_at(p@, e - k)) by (nonlinear_arith);
        }
        lemma_sum_add(
            t,
            product_term_everywhere(q@, p@, e),
            product_term_everywhere(r@, p@, e),
            product_term_everywhere(s@, p@, e),
        );
    }
}

/// Mirroring twice gives back the polynomial: `mirror(mirror(p)) == p`.
pub proof fn lemma_mirror_involution(p: Poly, q: Poly, r: Poly)
    requires
        is_mirror(q@, p@),
        is_mirror(r@, q@),
    ensures
        same_coefs(r@, p@),
{
    assert forall|e: int| #![trigger coef_at(r@, e)] #![trigger coef_at(p@, e)]
        coef_at(r@, e) == coef_at(p@, e) by {
        assert(coef_at(q@, -e) == coef_at(p@, -(-e)));
    }
}

} // verus!
