//! Words in the braid group on three strands, and their canonical extensions.
use vstd::prelude::*;

verus! {

/// Represents a twist (an atom of braiding) on the set of three strands.
/// `A` stands for forward-slash twisting of the first two strands.
/// `B` stands for forward-slash twisting of the last two strands.
/// `Ainv` and `Binv` stand for inversed `A` and `B` respectively.
#[derive(Eq, Clone, Copy, Debug, PartialEq, Structural)]
pub enum Twist {
    A,
    B,
    Ainv,
    Binv,
}

/// Represents a braid (a sequence of twists) on the set of three strands.
#[derive(Debug, PartialEq)]
pub struct Braid {
    pub twists: Vec<Twist>,
}

impl View for Braid {
    type V = Seq<Twist>;

    open spec fn view(&self) -> Seq<Twist> {
        self.twists@
    }
}

/// The last `s.len()` twists of `w` are exactly `s`.
pub open spec fn ends_with_seq(w: Seq<Twist>, s: Seq<Twist>) -> bool {
    s.len() <= w.len() && w.subrange(w.len() - s.len(), w.len() as int) == s
}

/// Whether the canonical form allows appending `g` to the canonical word `w`.
///
/// An appended twist is refused where it would cancel the last twist, or where the
/// word would end in a form that the braid relation `A B A == B A B` rewrites to
/// a shorter or preferred one.
pub open spec fn may_append(w: Seq<Twist>, g: Twist) -> bool {
    match g {
        Twist::A => !ends_with_seq(w, seq![Twist::Ainv]) && !ends_with_seq(
            w,
            seq![Twist::Binv, Twist::A, Twist::B],
        ),
        Twist::B => !ends_with_seq(w, seq![Twist::Binv]) && !ends_with_seq(
            w,
            seq![Twist::B, Twist::A],
        ) && !ends_with_seq(w, seq![Twist::Ainv, Twist::Binv, Twist::Ainv]),
        Twist::Ainv => !ends_with_seq(w, seq![Twist::A]) && !ends_with_seq(
            w,
            seq![Twist::B, Twist::Ainv, Twist::Binv],
        ),
        Twist::Binv => !ends_with_seq(w, seq![Twist::B]) && !ends_with_seq(
            w,
            seq![Twist::Binv, Twist::Ainv],
        ) && !ends_with_seq(w, seq![Twist::A, Twist::B, Twist::A]),
    }
}

/// `seq![w.push(g)]` where `g` may be appended to `w`, else nothing.
pub open spec fn child_if_allowed(w: Seq<Twist>, g: Twist) -> Seq<Seq<Twist>> {
    if may_append(w, g) {
        seq![w.push(g)]
    } else {
        Seq::empty()
    }
}

/// The canonical words one twist longer than `w`, in the order `A`, `B`, `Ainv`, `Binv`.
pub open spec fn children(w: Seq<Twist>) -> Seq<Seq<Twist>> {
    child_if_allowed(w, Twist::A) + child_if_allowed(w, Twist::B) + child_if_allowed(w, Twist::Ainv)
        + child_if_allowed(w, Twist::Binv)
}

/// The views of a list of braids.
pub open spec fn braid_views(bs: Seq<Braid>) -> Seq<Seq<Twist>> {
    bs.map_values(|b: Braid| b@)
}

/// Every twist of `w` was allowed after the twists before it.
pub open spec fn is_canonical(w: Seq<Twist>) -> bool {
    forall|n: int| 0 < n <= w.len() ==> #[trigger] may_append(w.subrange(0, n - 1), w[n - 1])
}

/// Each canonical extension of `w` is `w` with one allowed twist appended.
pub proof fn lemma_children_extend(w: Seq<Twist>)
    ensures
        forall|j: int| 0 <= j < children(w).len() ==> (#[trigger] children(w)[j]).len() == w.len() + 1
            && children(w)[j].drop_last() == w && may_append(w, children(w)[j].last()),
{
    let parts = seq![
        child_if_allowed(w, Twist::A),
        child_if_allowed(w, Twist::B),
        child_if_allowed(w, Twist::Ainv),
        child_if_allowed(w, Twist::Binv),
    ];
    assert forall|g: Twist| forall|j: int| 0 <= j < (#[trigger] child_if_allowed(w, g)).len() ==> child_if_allowed(w, g)[j].len()
        == w.len() + 1 && child_if_allowed(w, g)[j].drop_last() == w && may_append(w, child_if_allowed(w, g)[j].last()) by {
        if may_append(w, g) {
            assert(w.push(g).drop_last() =~= w);
        }
    }
}

/// The canonical extensions of a word are pairwise distinct: each appends a
/// different twist.
pub proof fn lemma_children_distinct(w: Seq<Twist>)
    ensures
        forall|i: int, j: int|
            0 <= i < j < children(w).len() ==> children(w)[i] != children(w)[j],
{
    let c = children(w);
    assert forall|i: int, j: int| 0 <= i < j < c.len() implies c[i] != c[j] by {
        assert(c[i].last() != c[j].last());
    }
}

/// The canonical words one twist longer than those of `ws`: the children of the
/// first word of `ws`, then those of the second, and so on.
pub open spec fn next_level(ws: Seq<Seq<Twist>>) -> Seq<Seq<Twist>>
    decreases ws.len(),
{
    if ws.len() == 0 {
        Seq::empty()
    } else {
        next_level(ws.drop_last()) + children(ws.last())
    }
}

/// The canonical words of `k` twists, in the order in which the generator reaches them.
pub open spec fn level_words(k: nat) -> Seq<Seq<Twist>>
    decreases k,
{
    if k == 0 {
        seq![Seq::<Twist>::empty()]
    } else {
        next_level(level_words((k - 1) as nat))
    }
}

/// The canonical words of at most `k` twists: all of length 0, then all of length 1, and so on.
pub open spec fn words_up_to(k: nat) -> Seq<Seq<Twist>>
    decreases k,
{
    if k == 0 {
        level_words(0)
    } else {
        words_up_to((k - 1) as nat) + level_words(k)
    }
}

/// Every word one level down is a word of `ws` with one twist appended.
proof fn lemma_next_level_parents(ws: Seq<Seq<Twist>>)
    ensures
        forall|i: int| 0 <= i < next_level(ws).len() ==> exists|p: int|
            0 <= p < ws.len() && (#[trigger] next_level(ws)[i]).drop_last() == ws[p],
    decreases ws.len(),
{
    if ws.len() > 0 {
        let rest = ws.drop_last();
        lemma_next_level_parents(rest);
        lemma_children_extend(ws.last());
        let n1 = next_level(rest);
        assert forall|i: int| 0 <= i < next_level(ws).len() implies exists|p: int|
            0 <= p < ws.len() && (#[trigger] next_level(ws)[i]).drop_last() == ws[p] by {
            if i < n1.len() {
                assert(next_level(ws)[i] == n1[i]);
                let p = choose|p: int| 0 <= p < rest.len() && n1[i].drop_last() == rest[p];
                assert(ws[p] == rest[p]);
            } else {
                assert(next_level(ws)[i] == children(ws.last())[i - n1.len()]);
                assert(ws[ws.len() - 1] == ws.last());
            }
        }
    }
}

/// Extending a list of distinct words one level down gives distinct words.
pub proof fn lemma_next_level_distinct(ws: Seq<Seq<Twist>>)
    requires
        forall|i: int, j: int| 0 <= i < j < ws.len() ==> ws[i] != ws[j],
    ensures
        forall|i: int, j: int|
            0 <= i < j < next_level(ws).len() ==> next_level(ws)[i] != next_level(ws)[j],
    decreases ws.len(),
{
    if ws.len() > 0 {
        let rest = ws.drop_last();
        let n = next_level(ws);
        let n1 = next_level(rest);
        let c = children(ws.last());
        lemma_next_level_distinct(rest);
        lemma_next_level_parents(rest);
        lemma_children_distinct(ws.last());
        lemma_children_extend(ws.last());
        assert forall|i: int, j: int| 0 <= i < j < n.len() implies n[i] != n[j] by {
            if j < n1.len() {
                assert(n[i] == n1[i] && n[j] == n1[j]);
            } else if i >= n1.len() {
                assert(n[i] == c[i - n1.len()] && n[j] == c[j - n1.len()]);
            } else {
                assert(n[i] == n1[i] && n[j] == c[j - n1.len()]);
                let q = choose|q: int| 0 <= q < rest.len() && n1[i].drop_last() == rest[q];
                assert(rest[q] == ws[q]);
                assert(ws[ws.len() - 1] == ws.last());
            }
        }
    }
}

/// The generator reaches no word twice: the canonical words of each length are
/// pairwise distinct as lists of twists.
pub proof fn lemma_level_words_distinct(k: nat)
    ensures
        forall|i: int, j: int|
            0 <= i < j < level_words(k).len() ==> level_words(k)[i] != level_words(k)[j],
    decreases k,
{
    if k > 0 {
        lemma_level_words_distinct((k - 1) as nat);
        lemma_next_level_distinct(level_words((k - 1) as nat));
    }
}

/// A canonical word with one allowed twist appended is canonical.
proof fn lemma_extension_canonical(w: Seq<Twist>, c: Seq<Twist>)
    requires
        is_canonical(w),
        c.len() == w.len() + 1,
        c.drop_last() == w,
        may_append(w, c.last()),
    ensures
        is_canonical(c),
{
    assert forall|n: int| 0 < n <= c.len() implies #[trigger] may_append(c.subrange(0, n - 1), c[n - 1]) by {
        if n <= w.len() {
            assert(c.subrange(0, n - 1) =~= w.subrange(0, n - 1));
            assert(c[n - 1] == w[n - 1]);
            assert(may_append(w.subrange(0, n - 1), w[n - 1]));
        } else {
            assert(c.subrange(0, n - 1) =~= w);
        }
    }
}

/// Every word that the generator reaches at length `k` has `k` twists and obeys
/// the exclusion rules at every position.
pub proof fn lemma_level_words_canonical(k: nat)
    ensures
        forall|i: int| 0 <= i < level_words(k).len() ==> (#[trigger] level_words(k)[i]).len() == k
            && is_canonical(level_words(k)[i]),
    decreases k,
{
    if k == 0 {
        assert(is_canonical(level_words(0)[0]));
    } else {
        let prev = level_words((k - 1) as nat);
        lemma_level_words_canonical((k - 1) as nat);
        lemma_next_level_canonical(prev, (k - 1) as nat);
    }
}

proof fn lemma_next_level_canonical(ws: Seq<Seq<Twist>>, k: nat)
    requires
        forall|i: int| 0 <= i < ws.len() ==> (#[trigger] ws[i]).len() == k && is_canonical(ws[i]),
    ensures
        forall|i: int| 0 <= i < next_level(ws).len() ==> (#[trigger] next_level(ws)[i]).len() == k + 1
            && is_canonical(next_level(ws)[i]),
    decreases ws.len(),
{
    if ws.len() > 0 {
        let rest = ws.drop_last();
        let n1 = next_level(rest);
        let c = children(ws.last());
        lemma_next_level_canonical(rest, k);
        lemma_children_extend(ws.last());
        assert(ws[ws.len() - 1] == ws.last());
        assert forall|i: int| 0 <= i < next_level(ws).len() implies (#[trigger] next_level(ws)[i]).len()
            == k + 1 && is_canonical(next_level(ws)[i]) by {
            if i < n1.len() {
                assert(next_level(ws)[i] == n1[i]);
            } else {
                assert(next_level(ws)[i] == c[i - n1.len()]);
                lemma_extension_canonical(ws.last(), c[i - n1.len()]);
            }
        }
    }
}

impl Clone for Braid {
    fn clone(&self) -> (r: Braid)
        ensures
            r@ == self@,
    {
        let mut twists: Vec<Twist> = Vec::new();
        let mut i: usize = 0;
        while i < self.twists.len()
            invariant
                i <= self@.len(),
                twists@ == self@.subrange(0, i as int),
            decreases self@.len() - i,
        {
            twists.push(self.twists[i]);
            i = i + 1;
        }
        proof {
            assert(twists@ =~= self@);
        }
        Braid { twists }
    }
}

impl Braid {
    /// Gives the identity in the braid group (braid with no twists).
    pub fn identity() -> (r: Braid)
        ensures
            r@ == Seq::<Twist>::empty(),
    {
        Braid { twists: Vec::new() }
    }

    /// The number of twists in the canonical word.
    pub fn canonical_len(&self) -> (r: usize)
        ensures
            r == self@.len(),
    {
        self.twists.len()
    }

    /// The last twist of the word, if there is one.
    pub fn last_twist(&self) -> (r: Option<Twist>)
        ensures
            self@.len() == 0 ==> r is None,
            self@.len() > 0 ==> r == Some(self@.last()),
    {
        if self.twists.len() == 0 {
            None
        } else {
            Some(self.twists[self.twists.len() - 1])
        }
    }

    fn ends_with(&self, ending: &Vec<Twist>) -> (r: bool)
        ensures
            r == ends_with_seq(self@, ending@),
    {
        let n = self.twists.len();
        let m = ending.len();
        if n < m {
            return false;
        }
        let mut i: usize = 0;
        while i < m
            invariant
                n == self@.len(),
                m == ending@.len(),
                m <= n,
                i <= m,
                forall|j: int| m - i <= j < m ==> self@[n - m + j] == #[trigger] ending@[j],
            decreases m - i,
        {
            if self.twists[n - i - 1] != ending[m - i - 1] {
                assert(self@.subrange(n - m, n as int)[m - i - 1] != ending@[m - i - 1]);
                return false;
            }
            i = i + 1;
        }
        proof {
            assert(self@.subrange(n - m, n as int) =~= ending@);
        }
        true
    }

    /// This word with `g` appended.
    fn extended(&self, g: Twist) -> (r: Braid)
        ensures
            r@ == self@.push(g),
    {
        let mut res = self.clone();
        res.twists.push(g);
        res
    }

    /// Returns a list of braids (in lexicographic order) which can be obtained
    /// from `self` by adding a single twist to its end. Excludes resulting braids
    /// in non-canonical form (i.e. containing reducible sequences like:
    /// * `A Ainv`, `B Binv`, `Ainv A`, `Binv B`, because they are equal to `1`.
    /// * `B A B`, `Binv Ainv Binv`, because they can be reduced to `A B A` and
    ///   `Ainv Binv Ainv` respectively.
    /// * `Binv A B A`, `A B A Binv`, `B Ainv Binv Ainv`, `Ainv Binv Ainv B`,
    ///    because they can be reduced to `A B`, `B A`, `Ainv Binv`, `Binv Ainv`
    ///    respectively.
    pub fn descendants(&self) -> (r: Vec<Braid>)
        ensures
            braid_views(r@) == children(self@),
    {
        let mut res: Vec<Braid> = Vec::new();
        let ghost w = self@;
        let ainv = vec![Twist::Ainv];
        assert(ainv@ =~= seq![Twist::Ainv]);
        let binv_a_b = vec![Twist::Binv, Twist::A, Twist::B];
        assert(binv_a_b@ =~= seq![Twist::Binv, Twist::A, Twist::B]);
        let binv = vec![Twist::Binv];
        assert(binv@ =~= seq![Twist::Binv]);
        let b_a = vec![Twist::B, Twist::A];
        assert(b_a@ =~= seq![Twist::B, Twist::A]);
        let ainv_binv_ainv = vec![Twist::Ainv, Twist::Binv, Twist::Ainv];
        assert(ainv_binv_ainv@ =~= seq![Twist::Ainv, Twist::Binv, Twist::Ainv]);
        let a = vec![Twist::A];
        assert(a@ =~= seq![Twist::A]);
        let b_ainv_binv = vec![Twist::B, Twist::Ainv, Twist::Binv];
        assert(b_ainv_binv@ =~= seq![Twist::B, Twist::Ainv, Twist::Binv]);
        let b = vec![Twist::B];
        assert(b@ =~= seq![Twist::B]);
        let binv_ainv = vec![Twist::Binv, Twist::Ainv];
        assert(binv_ainv@ =~= seq![Twist::Binv, Twist::Ainv]);
        let a_b_a = vec![Twist::A, Twist::B, Twist::A];
        assert(a_b_a@ =~= seq![Twist::A, Twist::B, Twist::A]);

        // We can add `A` to the braid unless it ends with:
        // * `Ainv`, in which case `Ainv A` == `1`.
        // * `Binv A B`, in which case `Binv A B A` == `Binv B A B` == `A B`.
        if !self.ends_with(&ainv) && !self.ends_with(&binv_a_b) {
            res.push(self.extended(Twist::A));
        }
        assert(braid_views(res@) =~= child_if_allowed(w, Twist::A));
        let ghost after_a = braid_views(res@);

        // We can add `B` to the braid unless it ends with:
        // * `Binv`, in which case `Binv B` == `1`.
        // * `B A`, in which case `B A B` == `A B A`, and we allow the 2nd form.
        // * `Ainv Binv Ainv`, in which case `Ainv Binv Ainv B` == `Binv Ainv`.
        if !self.ends_with(&binv) && !self.ends_with(&b_a)
            && !self.ends_with(&ainv_binv_ainv) {
            res.push(self.extended(Twist::B));
        }
        assert(braid_views(res@) =~= after_a + child_if_allowed(w, Twist::B));
        let ghost after_b = braid_views(res@);

        // We can add `Ainv` to the braid unless it ends with:
        // * `A`, in which case `A Ainv` == `1`.
        // * `B Ainv Binv`, in which case `B Ainv Binv Ainv` == `B Binv Ainv Binv`
        //     == `Ainv Binv`.
        if !self.ends_with(&a) && !self.ends_with(&b_ainv_binv) {
            res.push(self.extended(Twist::Ainv));
        }
        assert(braid_views(res@) =~= after_b + child_if_allowed(w, Twist::Ainv));
        let ghost after_ainv = braid_views(res@);

        // We can add `Binv` to the braid unless it ends with:
        // * `B`, in which case `B Binv` == `1`.
        // * `Binv Ainv`, in which case `Binv Ainv Binv` == `Ainv Binv Ainv`,
        //     and we allow the 2nd form.
        // * `A B A`, in which case `A B A Binv` == `B A`.
        if !self.ends_with(&b) && !self.ends_with(&binv_ainv)
            && !self.ends_with(&a_b_a) {
            res.push(self.extended(Twist::Binv));
        }
        assert(braid_views(res@) =~= after_ainv + child_if_allowed(w, Twist::Binv));
        res
    }
}

} // verus!
