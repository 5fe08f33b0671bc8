//! Finite sums of integer terms over sets of exponents.
use vstd::prelude::*;
use vstd::set::fold::{is_fun_commutative, lemma_fold_empty, lemma_fold_insert};
use vstd::set_lib::{lemma_len_subset, lemma_set_empty_equivalency_len};

verus! {

/// Absolute value of an integer.
pub open spec fn magnitude(x: int) -> int {
    if x < 0 {
        -x
    } else {
        x
    }
}

/// The sum of `f(k)` over every `k` of the finite set `s`.
pub open spec fn sum_over(s: Set<i64>, f: spec_fn(i64) -> int) -> int {
    s.fold(0int, |acc: int, k: i64| acc + f(k))
}

pub proof fn lemma_sum_empty(f: spec_fn(i64) -> int)
    ensures
        sum_over(Set::empty(), f) == 0,
{
    lemma_fold_empty(0int, |acc: int, k: i64| acc + f(k));
}

pub proof fn lemma_sum_insert(s: Set<i64>, f: spec_fn(i64) -> int, a: i64)
    requires
        s.finite(),
        !s.contains(a),
    ensures
        sum_over(s.insert(a), f) == sum_over(s, f) + f(a),
{
    let g = |acc: int, k: i64| acc + f(k);
    assert(is_fun_commutative(g)) by {
        assert forall|a1: i64, a2: i64, b: int| #[trigger] g(g(b, a2), a1) == g(g(b, a1), a2) by {}
    }
    lemma_fold_insert(s, 0int, g, a);
}

pub proof fn lemma_sum_remove(s: Set<i64>, f: spec_fn(i64) -> int, a: i64)
    requires
        s.finite(),
        s.contains(a),
    ensures
        sum_over(s, f) == sum_over(s.remove(a), f) + f(a),
{
    lemma_sum_insert(s.remove(a), f, a);
    assert(s.remove(a).insert(a) =~= s);
}

/// A sum over a single element.
pub proof fn lemma_sum_singleton(f: spec_fn(i64) -> int, a: i64)
    ensures
        sum_over(set![a], f) == f(a),
{
    lemma_sum_empty(f);
    lemma_sum_insert(Set::empty(), f, a);
}

/// Sums of pointwise equal terms are equal.
pub proof fn lemma_sum_ext(s: Set<i64>, f: spec_fn(i64) -> int, g: spec_fn(i64) -> int)
    requires
        s.finite(),
        forall|k: i64| s.contains(k) ==> f(k) == g(k),
    ensures
        sum_over(s, f) == sum_over(s, g),
    decreases s.len(),
{
    lemma_set_empty_equivalency_len(s);
    if s.len() == 0 {
        lemma_sum_empty(f);
        lemma_sum_empty(g);
    } else {
        let a = s.choose();
        lemma_sum_ext(s.remove(a), f, g);
        lemma_sum_remove(s, f, a);
        lemma_sum_remove(s, g, a);
    }
}

/// The sum of pointwise sums is the sum of the two sums.
pub proof fn lemma_sum_add(
    s: Set<i64>,
    f: spec_fn(i64) -> int,
    g: spec_fn(i64) -> int,
    h: spec_fn(i64) -> int,
)
    requires
        s.finite(),
        forall|k: i64| s.contains(k) ==> h(k) == f(k) + g(k),
    ensures
        sum_over(s, h) == sum_over(s, f) + sum_over(s, g),
    decreases s.len(),
{
    lemma_set_empty_equivalency_len(s);
    if s.len() == 0 {
        lemma_sum_empty(f);
        lemma_sum_empty(g);
        lemma_sum_empty(h);
    } else {
        let a = s.choose();
        lemma_sum_add(s.remove(a), f, g, h);
        lemma_sum_remove(s, f, a);
        lemma_sum_remove(s, g, a);
        lemma_sum_remove(s, h, a);
    }
}

/// Terms that vanish outside `s` sum over a larger set `t` to what they sum over `s`.
pub proof fn lemma_sum_zero_outside(s: Set<i64>, t: Set<i64>, f: spec_fn(i64) -> int)
    requires
        t.finite(),
        s.subset_of(t),
        forall|k: i64| t.contains(k) && !s.contains(k) ==> f(k) == 0,
    ensures
        sum_over(t, f) == sum_over(s, f),
    decreases t.len(),
{
    lemma_len_subset(s, t);
    lemma_set_empty_equivalency_len(t);
    if t.len() == 0 {
        assert(s =~= t);
    } else {
        let a = t.choose();
        lemma_sum_remove(t, f, a);
        if s.contains(a) {
            lemma_sum_zero_outside(s.remove(a), t.remove(a), f);
            lemma_sum_remove(s, f, a);
        } else {
            lemma_sum_zero_outside(s, t.remove(a), f);
        }
    }
}

/// A sum of non-negative terms is non-negative.
pub proof fn lemma_sum_nonneg(s: Set<i64>, f: spec_fn(i64) -> int)
    requires
        s.finite(),
        forall|k: i64| s.contains(k) ==> f(k) >= 0,
    ensures
        sum_over(s, f) >= 0,
    decreases s.len(),
{
    lemma_set_empty_equivalency_len(s);
    if s.len() == 0 {
        lemma_sum_empty(f);
    } else {
        let a = s.choose();
        lemma_sum_nonneg(s.remove(a), f);
        lemma_sum_remove(s, f, a);
    }
}

/// Over non-negative terms, a sum over a subset is at most the sum over the whole set.
pub proof fn lemma_sum_subset_le(s: Set<i64>, t: Set<i64>, f: spec_fn(i64) -> int)
    requires
        t.finite(),
        s.subset_of(t),
        forall|k: i64| t.contains(k) ==> f(k) >= 0,
    ensures
        sum_over(s, f) <= sum_over(t, f),
    decreases t.len(),
{
    lemma_len_subset(s, t);
    lemma_set_empty_equivalency_len(t);
    if t.len() == 0 {
        assert(s =~= t);
    } else {
        let a = t.choose();
        lemma_sum_remove(t, f, a);
        if s.contains(a) {
            lemma_sum_subset_le(s.remove(a), t.remove(a), f);
            lemma_sum_remove(s, f, a);
        } else {
            lemma_sum_subset_le(s, t.remove(a), f);
            assert(f(a) >= 0);
        }
    }
}

/// Each term of a sum of non-negative terms is at most the sum.
pub proof fn lemma_sum_term_le(s: Set<i64>, f: spec_fn(i64) -> int, a: i64)
    requires
        s.finite(),
        s.contains(a),
        forall|k: i64| s.contains(k) ==> f(k) >= 0,
    ensures
        f(a) <= sum_over(s, f),
{
    lemma_sum_singleton(f, a);
    lemma_sum_subset_le(set![a], s, f);
}

/// Terms bounded by `b` sum to at most `b` times the number of terms.
pub proof fn lemma_sum_le_count(s: Set<i64>, f: spec_fn(i64) -> int, b: int)
    requires
        s.finite(),
        forall|k: i64| s.contains(k) ==> f(k) <= b,
    ensures
        sum_over(s, f) <= s.len() * b,
    decreases s.len(),
{
    lemma_set_empty_equivalency_len(s);
    if s.len() == 0 {
        lemma_sum_empty(f);
    } else {
        let a = s.choose();
        lemma_sum_le_count(s.remove(a), f, b);
        lemma_sum_remove(s, f, a);
        assert(s.len() * b == s.remove(a).len() * b + b) by (nonlinear_arith)
            requires
                s.len() == s.remove(a).len() + 1,
        ;
    }
}

/// A finite set of exponents within `[-r, r]` has at most `2r + 1` members.
pub proof fn lemma_count_in_range(s: Set<i64>, r: int)
    requires
        s.finite(),
        r >= 0,
        forall|k: i64| s.contains(k) ==> -r <= k <= r,
    ensures
        s.len() <= 2 * r + 1,
{
    let ints = vstd::set_lib::set_int_range(-r, r + 1);
    vstd::set_lib::lemma_int_range(-r, r + 1);
    let to_int = |k: i64| k as int;
    let as_int = s.map(to_int);
    assert(vstd::relations::injective_on(to_int, s));
    vstd::set_lib::lemma_map_size(s, as_int, to_int);
    assert forall|x: int| as_int.contains(x) implies ints.contains(x) by {
        let k = choose|k: i64| s.contains(k) && to_int(k) == x;
    }
    lemma_len_subset(as_int, ints);
}

} // verus!
