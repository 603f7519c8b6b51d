//! Byte-exact confirmation of one candidate group, as a state machine. The
//! machine names the next pair of members (by local id) to compare; the caller
//! compares the two files and reports whether they are identical. Member `i`
//! serves as a comparison source only while it is still its own
//! representative, and is compared only with later members that still are.
use crate::grouper::{
    FileRecord, dense, keep_pairs, lemma_keep_pairs, lemma_keep_pairs_origin, members,
};
use crate::merger::Merger;
use vstd::prelude::*;

verus! {

/// Member `k` represents its own class.
pub open spec fn leader(roots: Seq<int>, k: int) -> bool {
    roots[k] == k
}

/// The answer recorded for `(a, b)` exists and is `v`.
pub open spec fn answered(ans: Map<(int, int), bool>, a: int, b: int, v: bool) -> bool {
    ans.contains_key((a, b)) && ans[(a, b)] == v
}

/// Representatives are earlier members and represent themselves.
pub open spec fn rooted(n: nat, roots: Seq<int>) -> bool {
    &&& roots.len() == n
    &&& forall|k: int| 0 <= k < n ==> 0 <= #[trigger] roots[k] <= k && leader(roots, roots[k])
}

/// What the answers fix about the classes once every pair is processed: a
/// member joined to its representative was reported identical to it, and to
/// no earlier representative; two representatives were reported different.
pub open spec fn confirmed(n: nat, roots: Seq<int>, ans: Map<(int, int), bool>) -> bool {
    &&& rooted(n, roots)
    &&& forall|k: int| 0 <= k < n && !leader(roots, k) ==> answered(ans, roots[k], k, true)
    &&& forall|a: int, b: int| 0 <= a < b < n && leader(roots, a) && leader(roots, b)
        ==> #[trigger] answered(ans, a, b, false)
    &&& forall|a: int, k: int| 0 <= a < roots[k] && 0 <= k < n && !leader(roots, k) && leader(roots, a)
        ==> #[trigger] answered(ans, a, k, false)
}

/// The same facts for the pairs processed before the pending pair `(i, j)`.
pub open spec fn checked_until(n: nat, roots: Seq<int>, ans: Map<(int, int), bool>, i: int, j: int) -> bool {
    &&& rooted(n, roots)
    &&& 0 <= i <= n
    &&& i < n ==> i < j <= n
    &&& forall|k: int| 0 <= k < n && !leader(roots, k) ==> (#[trigger] roots[k] < i || (roots[k] == i && k < j))
    &&& forall|k: int| 0 <= k < n && !leader(roots, k) ==> answered(ans, roots[k], k, true)
    &&& forall|a: int, b: int| 0 <= a < b < n && leader(roots, a) && leader(roots, b) && (a < i || (a == i && b < j))
        ==> #[trigger] answered(ans, a, b, false)
    &&& forall|a: int, k: int| 0 <= a < roots[k] && 0 <= k < n && !leader(roots, k) && leader(roots, a)
        ==> #[trigger] answered(ans, a, k, false)
}

/// The members of `m`, in order, whose representative is member `r`.
pub open spec fn root_class(m: Seq<int>, roots: Seq<int>, r: int) -> Seq<int>
    decreases m.len(),
{
    if m.len() == 0 {
        seq![]
    } else if roots[m.len() - 1] == r {
        root_class(m.drop_last(), roots, r).push(m.last())
    } else {
        root_class(m.drop_last(), roots, r)
    }
}

/// One class per representative, in order of representative.
pub open spec fn root_classes(m: Seq<int>, roots: Seq<int>) -> Seq<Seq<int>> {
    Seq::new(m.len(), |r: int| if leader(roots, r) { root_class(m, roots, r) } else { seq![] })
}

/// The groups that confirmation makes of `m`: its classes of at least two members.
pub open spec fn confirmed_classes(m: Seq<int>, roots: Seq<int>) -> Seq<Seq<int>> {
    keep_pairs(root_classes(m, roots))
}

/// `eq` is reflexive, symmetric and transitive.
pub open spec fn equivalence(eq: spec_fn(int, int) -> bool) -> bool {
    &&& forall|a: int| #[trigger] eq(a, a)
    &&& forall|a: int, b: int| #[trigger] eq(a, b) ==> eq(b, a)
    &&& forall|a: int, b: int, c: int| #[trigger] eq(a, b) && #[trigger] eq(b, c) ==> eq(a, c)
}

/// Every recorded answer for members of `m` tells whether their files are
/// equal under `eq`.
pub open spec fn truthful(m: Seq<int>, ans: Map<(int, int), bool>, eq: spec_fn(int, int) -> bool) -> bool {
    forall|a: int, b: int| 0 <= a < m.len() && 0 <= b < m.len() && #[trigger] ans.contains_key((a, b))
        ==> ans[(a, b)] == eq(m[a], m[b])
}

/// `x` is a member of `m` whose representative is `r`.
pub open spec fn from_root(m: Seq<int>, roots: Seq<int>, r: int, x: int) -> bool {
    exists|k: int| 0 <= k < m.len() && roots[k] == r && x == m[k]
}

/// Each member of the class of `r` is a member of `m` whose representative is `r`.
pub proof fn lemma_root_class_members(m: Seq<int>, roots: Seq<int>, r: int)
    requires
        roots.len() >= m.len(),
    ensures
        forall|t: int| 0 <= t < root_class(m, roots, r).len() ==> from_root(m, roots, r, #[trigger] root_class(m, roots, r)[t]),
    decreases m.len(),
{
    if m.len() > 0 {
        let c = root_class(m.drop_last(), roots, r);
        lemma_root_class_members(m.drop_last(), roots, r);
        assert forall|t: int| 0 <= t < root_class(m, roots, r).len() implies from_root(m, roots, r, #[trigger] root_class(m, roots, r)[t]) by {
            if t < c.len() {
                assert(from_root(m.drop_last(), roots, r, c[t]));
                let k = choose|k: int| 0 <= k < m.drop_last().len() && roots[k] == r && c[t] == m.drop_last()[k];
                assert(root_class(m, roots, r)[t] == c[t]);
                assert(m[k] == m.drop_last()[k]);
                assert(0 <= k < m.len() && roots[k] == r && root_class(m, roots, r)[t] == m[k]);
            } else {
                assert(roots[m.len() - 1] == r);
                assert(root_class(m, roots, r)[t] == m[m.len() - 1]);
            }
        }
    }
}

/// Soundness of confirmation: when the answers are truthful for an
/// equivalence, any two files of one confirmed group are equivalent; and each
/// confirmed group has at least two members, all drawn from the group checked.
pub proof fn lemma_confirm_sound(
    m: Seq<int>,
    roots: Seq<int>,
    ans: Map<(int, int), bool>,
    eq: spec_fn(int, int) -> bool,
)
    requires
        confirmed(m.len(), roots, ans),
        equivalence(eq),
        truthful(m, ans, eq),
    ensures
        forall|q: int, x: int, y: int|
            0 <= q < confirmed_classes(m, roots).len() && 0 <= x < confirmed_classes(m, roots)[q].len()
                && 0 <= y < confirmed_classes(m, roots)[q].len()
                ==> eq(#[trigger] confirmed_classes(m, roots)[q][x], #[trigger] confirmed_classes(m, roots)[q][y]),
        forall|q: int| 0 <= q < confirmed_classes(m, roots).len() ==> #[trigger] confirmed_classes(m, roots)[q].len() >= 2,
        forall|q: int, x: int| 0 <= q < confirmed_classes(m, roots).len() && 0 <= x < confirmed_classes(m, roots)[q].len()
            ==> m.contains(#[trigger] confirmed_classes(m, roots)[q][x]),
{
    let cls = root_classes(m, roots);
    let cc = confirmed_classes(m, roots);
    lemma_keep_pairs(cls);
    lemma_keep_pairs_origin(cls);
    assert forall|q: int, x: int| 0 <= q < cc.len() && 0 <= x < cc[q].len()
        implies eq(m[roots[cls_index(cls, cc, q)]], #[trigger] cc[q][x]) && m.contains(cc[q][x]) && leader(roots, cls_index(cls, cc, q)) by {
        let r = cls_index(cls, cc, q);
        assert(cc[q] == keep_pairs(cls)[q]);
        assert(0 <= r < cls.len() && cc[q] == cls[r]);
        assert(leader(roots, r));
        assert(cls[r] == root_class(m, roots, r));
        lemma_root_class_members(m, roots, r);
        let k = choose|k: int| 0 <= k < m.len() && roots[k] == r && root_class(m, roots, r)[x] == m[k];
        if k != r {
            assert(!leader(roots, k));
            assert(answered(ans, roots[k], k, true));
            assert(ans[(r, k)] == eq(m[r], m[k]));
        }
        assert(m[k] == cc[q][x]);
    }
    assert forall|q: int, x: int, y: int|
        0 <= q < cc.len() && 0 <= x < cc[q].len() && 0 <= y < cc[q].len()
            implies eq(#[trigger] cc[q][x], #[trigger] cc[q][y]) by {
        let r = cls_index(cls, cc, q);
        let a = m[roots[r]];
        assert(eq(a, cc[q][x]));
        assert(eq(a, cc[q][y]));
        assert(eq(cc[q][x], a));
    }
}

/// The class (by representative) that confirmed group `q` came from.
spec fn cls_index(cls: Seq<Seq<int>>, cc: Seq<Seq<int>>, q: int) -> int {
    choose|j: int| 0 <= j < cls.len() && cc[q] == cls[j]
}

/// A member whose representative is its own is kept first.
proof fn lemma_only_first(cs: Seq<Seq<int>>)
    requires
        cs.len() >= 1,
        cs[0].len() >= 2,
        forall|i: int| 1 <= i < cs.len() ==> #[trigger] cs[i].len() == 0,
    ensures
        keep_pairs(cs) == seq![cs[0]],
    decreases cs.len(),
{
    if cs.len() > 1 {
        assert forall|i: int| 1 <= i < cs.drop_last().len() implies #[trigger] cs.drop_last()[i].len() == 0 by {
            assert(cs.drop_last()[i] == cs[i]);
        }
        lemma_only_first(cs.drop_last());
        assert(cs.drop_last()[0] == cs[0]);
        assert(cs.last().len() == 0);
        assert(keep_pairs(cs) == keep_pairs(cs.drop_last()));
    } else {
        assert(cs.drop_last() =~= Seq::<Seq<int>>::empty());
        assert(keep_pairs(cs.drop_last()) =~= Seq::<Seq<int>>::empty());
        assert(keep_pairs(cs) =~= seq![cs[0]]);
    }
}

/// All members whose representative is `r` form its class, in order.
proof fn lemma_whole_class(m: Seq<int>, roots: Seq<int>, r: int)
    requires
        roots.len() >= m.len(),
        forall|k: int| 0 <= k < m.len() ==> #[trigger] roots[k] == r,
    ensures
        root_class(m, roots, r) == m,
    decreases m.len(),
{
    if m.len() > 0 {
        lemma_whole_class(m.drop_last(), roots, r);
        assert(m.drop_last().push(m.last()) =~= m);
    }
}

/// Completeness of confirmation: when the answers are truthful for an
/// equivalence under which all members of a group of at least two are
/// equivalent, confirmation yields exactly one group: the whole group.
pub proof fn lemma_confirm_complete(
    m: Seq<int>,
    roots: Seq<int>,
    ans: Map<(int, int), bool>,
    eq: spec_fn(int, int) -> bool,
)
    requires
        confirmed(m.len(), roots, ans),
        truthful(m, ans, eq),
        m.len() >= 2,
        forall|a: int, b: int| 0 <= a < m.len() && 0 <= b < m.len() ==> #[trigger] eq(m[a], m[b]),
    ensures
        confirmed_classes(m, roots) == seq![m],
{
    let n = m.len();
    assert(roots[0] == 0);
    assert forall|k: int| 0 <= k < n implies #[trigger] roots[k] == 0 by {
        let r = roots[k];
        if r != 0 {
            assert(leader(roots, r));
            assert(leader(roots, 0));
            assert(answered(ans, 0, r, false));
            assert(eq(m[0], m[r]));
        }
    }
    lemma_whole_class(m, roots, 0);
    let cls = root_classes(m, roots);
    assert forall|i: int| 1 <= i < cls.len() implies #[trigger] cls[i].len() == 0 by {
        assert(!leader(roots, i));
    }
    lemma_only_first(cls);
}

/// Pair `a` comes before pair `b`: by first member, then by second.
pub open spec fn pair_lt(a: (int, int), b: (int, int)) -> bool {
    a.0 < b.0 || (a.0 == b.0 && a.1 < b.1)
}

/// Members `a < b` of a group of `n` that both still represent themselves:
/// the pairs worth comparing.
pub open spec fn askable(roots: Seq<int>, n: nat, a: int, b: int) -> bool {
    0 <= a < b < n && leader(roots, a) && leader(roots, b)
}

pub struct GroupCheck {
    merger: Merger,
    n: usize,
    i: usize,
    j: usize,
    answers: Ghost<Map<(int, int), bool>>,
}

impl GroupCheck {
    /// The representative of each member.
    pub closed spec fn roots(&self) -> Seq<int> {
        self.merger@
    }

    /// The answers reported so far, by pair of local ids.
    pub closed spec fn answers(&self) -> Map<(int, int), bool> {
        self.answers@
    }

    /// The number of members.
    pub closed spec fn size(&self) -> nat {
        self.n as nat
    }

    /// Every pair that needs comparing has been compared.
    pub closed spec fn done(&self) -> bool {
        self.i >= self.n
    }

    /// The pair to compare next.
    pub closed spec fn pending(&self) -> (int, int) {
        (self.i as int, self.j as int)
    }

    /// What holds in every state: representatives are earlier members that
    /// represent themselves, and the pending pair, while there is one, is a
    /// pair worth comparing.
    pub open spec fn state_ok(&self) -> bool {
        &&& rooted(self.size(), self.roots())
        &&& !self.done() ==> askable(self.roots(), self.size(), self.pending().0, self.pending().1)
    }

    /// How many steps are left at most: zero exactly when done.
    pub open spec fn remaining(&self) -> nat {
        if self.done() {
            0
        } else {
            ((self.size() - self.pending().0) * (self.size() + 1) - self.pending().1) as nat
        }
    }

    pub closed spec fn wf(&self) -> bool {
        &&& self.merger.wf()
        &&& checked_until(self.n as nat, self.merger@, self.answers@, self.i as int, self.j as int)
        &&& self.i < self.n ==> self.j < self.n && leader(self.merger@, self.i as int) && leader(
            self.merger@,
            self.j as int,
        )
        &&& self.done() ==> confirmed(self.n as nat, self.merger@, self.answers@)
    }

    /// A well-formed check is in a sound state, and has at most
    /// `size * (size + 1)` steps left.
    pub proof fn lemma_state_ok(&self)
        requires
            self.wf(),
        ensures
            self.state_ok(),
            self.remaining() <= self.size() * (self.size() + 1),
    {
        if !self.done() {
            let (n, i, j) = (self.n as int, self.i as int, self.j as int);
            assert((n - i) * (n + 1) - j <= n * (n + 1)) by (nonlinear_arith)
                requires 0 <= i, 0 <= j, i < n;
            assert((n - i) * (n + 1) - j >= 0) by (nonlinear_arith)
                requires 0 <= i < n, j < n;
            assert(self.remaining() == (n - i) * (n + 1) - j);
        }
    }

    /// Moves from a state whose pending pair may not need comparing to the
    /// next one that does, or to the end.
    fn advance(&mut self)
        requires
            old(self).merger.wf(),
            checked_until(old(self).n as nat, old(self).merger@, old(self).answers@, old(self).i as int, old(self).j as int),
        ensures
            final(self).wf(),
            final(self).roots() == old(self).roots(),
            final(self).answers() == old(self).answers(),
            final(self).n == old(self).n,
            final(self).i >= final(self).n || (final(self).i as int, final(self).j as int) == (old(self).i as int, old(self).j as int)
                || pair_lt((old(self).i as int, old(self).j as int), (final(self).i as int, final(self).j as int)),
            forall|a: int, b: int| #[trigger] askable(final(self).roots(), final(self).n as nat, a, b)
                && !pair_lt((a, b), (old(self).i as int, old(self).j as int))
                ==> final(self).i < final(self).n && !pair_lt((a, b), (final(self).i as int, final(self).j as int)),
    {
        let n = self.n;
        let ghost i0 = self.i as int;
        let ghost j0 = self.j as int;
        while self.i < n
            invariant
                self.n == n,
                self.merger.wf(),
                self.merger@ == old(self).merger@,
                self.answers@ == old(self).answers@,
                checked_until(n as nat, self.merger@, self.answers@, self.i as int, self.j as int),
                (self.i as int, self.j as int) == (i0, j0) || pair_lt((i0, j0), (self.i as int, self.j as int)),
                forall|a: int, b: int| #[trigger] askable(self.merger@, n as nat, a, b) && !pair_lt((a, b), (i0, j0))
                    ==> !pair_lt((a, b), (self.i as int, self.j as int)),
            ensures
                self.n == n,
                self.merger.wf(),
                self.merger@ == old(self).merger@,
                self.answers@ == old(self).answers@,
                checked_until(n as nat, self.merger@, self.answers@, self.i as int, self.j as int),
                self.i < n ==> self.j < n && leader(self.merger@, self.i as int) && leader(self.merger@, self.j as int),
                (self.i as int, self.j as int) == (i0, j0) || pair_lt((i0, j0), (self.i as int, self.j as int)),
                forall|a: int, b: int| #[trigger] askable(self.merger@, n as nat, a, b) && !pair_lt((a, b), (i0, j0))
                    ==> !pair_lt((a, b), (self.i as int, self.j as int)),
            decreases n - self.i, n + 1 - self.j,
        {
            if self.j >= n || self.merger.belongs(self.i) != self.i {
                self.i = self.i + 1;
                self.j = if self.i < n {
                    self.i + 1
                } else {
                    self.i
                };
            } else if self.merger.belongs(self.j) != self.j {
                self.j = self.j + 1;
            } else {
                break;
            }
        }
    }

    /// A check of `n` members, none compared yet.
    pub fn new(n: usize) -> (r: GroupCheck)
        ensures
            r.wf(),
            r.size() == n,
            r.roots() == Seq::new(n as nat, |k: int| k),
            r.answers() == Map::<(int, int), bool>::empty(),
            r.state_ok(),
            forall|a: int, b: int| #[trigger] askable(r.roots(), n as nat, a, b) ==> !r.done() && !pair_lt((a, b), r.pending()),
    {
        let mut r = GroupCheck { merger: Merger::new(n), n, i: 0, j: 1, answers: Ghost(Map::empty()) };
        r.advance();
        r
    }

    /// The pair of local ids to compare next, `None` once every needed pair
    /// has been compared.
    pub fn next_pair(&self) -> (r: Option<(usize, usize)>)
        requires
            self.wf(),
        ensures
            r is None <==> self.done(),
            r matches Some(p) ==> (p.0 as int, p.1 as int) == self.pending() && askable(self.roots(), self.size(), p.0 as int, p.1 as int),
    {
        if self.i < self.n {
            Some((self.i, self.j))
        } else {
            None
        }
    }

    /// Records whether the files of the pending pair are identical, merging
    /// their classes if so, and moves on.
    pub fn record(&mut self, same: bool)
        requires
            old(self).wf(),
            !old(self).done(),
        ensures
            final(self).wf(),
            final(self).size() == old(self).size(),
            final(self).answers() == old(self).answers().insert(old(self).pending(), same),
            final(self).roots() == if same {
                old(self).roots().map_values(|r: int| if r == old(self).pending().1 { old(self).pending().0 } else { r })
            } else {
                old(self).roots()
            },
            final(self).state_ok(),
            final(self).done() || pair_lt(old(self).pending(), final(self).pending()),
            final(self).remaining() < old(self).remaining(),
            forall|a: int, b: int| #[trigger] askable(final(self).roots(), final(self).size(), a, b)
                && pair_lt(old(self).pending(), (a, b)) ==> !final(self).done() && !pair_lt((a, b), final(self).pending()),
    {
        let i = self.i;
        let j = self.j;
        let ghost roots = self.merger@;
        let ghost ans = self.answers@;
        let ghost n = self.n as nat;
        self.answers = Ghost(self.answers@.insert((i as int, j as int), same));
        if same {
            self.merger.merge(i, j);
        }
        proof {
            let nr = self.merger@;
            let na = self.answers@;
            let (ii, jj) = (i as int, j as int);
            assert forall|k: int| 0 <= k < n implies #[trigger] nr[k] == if k == jj && same {
                ii
            } else {
                roots[k]
            } by {
                if k != jj && roots[k] == jj {
                    assert(!leader(roots, k));
                }
            }
            assert forall|a: int, b: int| (a, b) != (ii, jj) && ans.contains_key((a, b))
                implies #[trigger] na.contains_key((a, b)) && na[(a, b)] == ans[(a, b)] by {}
            assert forall|k: int| 0 <= k < n implies 0 <= #[trigger] nr[k] <= k && leader(nr, nr[k]) by {
                let _ = roots[k];
                let _ = nr[roots[k]];
            }
            assert forall|k: int| 0 <= k < n && !leader(nr, k) implies (#[trigger] nr[k] < ii || (nr[k] == ii && k < jj + 1)) by {
                let _ = roots[k];
            }
            assert forall|k: int| 0 <= k < n && !leader(nr, k) implies answered(na, nr[k], k, true) by {
                let _ = roots[k];
                if !(k == jj && same) {
                    assert(!leader(roots, k));
                    assert(answered(ans, roots[k], k, true));
                    assert((roots[k], k) != (ii, jj));
                }
            }
            assert forall|a: int, b: int| 0 <= a < b < n && leader(nr, a) && leader(nr, b) && (a < ii || (a == ii && b < jj + 1))
                implies #[trigger] answered(na, a, b, false) by {
                let _ = roots[a];
                let _ = roots[b];
                if (a, b) != (ii, jj) {
                    assert(answered(ans, a, b, false));
                }
            }
            assert forall|a: int, k: int| 0 <= a < nr[k] && 0 <= k < n && !leader(nr, k) && leader(nr, a)
                implies #[trigger] answered(na, a, k, false) by {
                let _ = roots[a];
                let _ = roots[k];
                if k == jj && same {
                    assert(answered(ans, a, jj, false));
                } else {
                    assert(answered(ans, a, k, false));
                }
            }
            assert(checked_until(n, nr, na, ii, jj + 1));
        }
        self.j = j + 1;
        self.advance();
        proof {
            let nn = self.n as int;
            let (i2, j2) = (self.i as int, self.j as int);
            let (ii, jj) = (i as int, j as int);
            if i2 < nn {
                if i2 > ii {
                    assert((nn - i2) * (nn + 1) <= (nn - ii - 1) * (nn + 1)) by (nonlinear_arith)
                        requires i2 > ii, nn >= i2, ii >= 0;
                    assert((nn - ii - 1) * (nn + 1) == (nn - ii) * (nn + 1) - (nn + 1)) by (nonlinear_arith);
                }
                assert((nn - i2) * (nn + 1) - j2 >= 0) by (nonlinear_arith)
                    requires 0 <= i2 < nn, j2 < nn;
            }
            assert((nn - ii) * (nn + 1) - jj > 0) by (nonlinear_arith)
                requires 0 <= ii < nn, jj < nn;
        }
    }

    /// The confirmed groups of `g`, whose members this check compared: one
    /// per class of at least two members, in order of representative, each in
    /// the order of `g`.
    pub fn classes(&mut self, g: &Vec<FileRecord>, bound: usize) -> (r: Vec<Vec<FileRecord>>)
        requires
            old(self).wf(),
            old(self).done(),
            g@.len() == old(self).size(),
            forall|k: int| 0 <= k < g@.len() ==> (#[trigger] g@[k]).index < bound,
        ensures
            final(self).wf(),
            final(self).done(),
            final(self).roots() == old(self).roots(),
            final(self).answers() == old(self).answers(),
            final(self).size() == old(self).size(),
            confirmed(old(self).size(), old(self).roots(), old(self).answers()),
            r@.map_values(|v: Vec<FileRecord>| members(v@)) == confirmed_classes(members(g@), old(self).roots()),
            forall|i: int| 0 <= i < r@.len() ==> dense(#[trigger] r@[i]@),
            forall|i: int, k: int| 0 <= i < r@.len() && 0 <= k < r@[i]@.len()
                ==> (#[trigger] r@[i]@[k]).index < bound,
    {
        let n = self.n;
        let ghost m = members(g@);
        let ghost roots = self.merger@;
        let ghost cls = root_classes(m, roots);
        let mut out: Vec<Vec<FileRecord>> = Vec::new();
        let mut r: usize = 0;
        while r < n
            invariant
                r <= n,
                n == self.n,
                g@.len() == n,
                m == members(g@),
                cls == root_classes(m, roots),
                self.wf(),
                self.done(),
                self.merger@ == roots,
                self.answers@ == old(self).answers@,
                forall|k: int| 0 <= k < g@.len() ==> (#[trigger] g@[k]).index < bound,
                out@.map_values(|v: Vec<FileRecord>| members(v@)) == keep_pairs(cls.subrange(0, r as int)),
                forall|i: int| 0 <= i < out@.len() ==> dense(#[trigger] out@[i]@),
                forall|i: int, k: int| 0 <= i < out@.len() && 0 <= k < out@[i]@.len()
                    ==> (#[trigger] out@[i]@[k]).index < bound,
            decreases n - r,
        {
            proof {
                let c2 = cls.subrange(0, r as int + 1);
                assert(c2.drop_last() =~= cls.subrange(0, r as int));
                assert(c2.last() == cls[r as int]);
            }
            if self.merger.belongs(r) == r {
                let mut v: Vec<FileRecord> = Vec::new();
                let mut k: usize = 0;
                while k < n
                    invariant
                        k <= n,
                        r < n,
                        n == self.n,
                        g@.len() == n,
                        m == members(g@),
                        self.wf(),
                        self.merger@ == roots,
                        self.answers@ == old(self).answers@,
                        self.done(),
                        forall|x: int| 0 <= x < g@.len() ==> (#[trigger] g@[x]).index < bound,
                        members(v@) == root_class(m.subrange(0, k as int), roots, r as int),
                        dense(v@),
                        forall|x: int| 0 <= x < v@.len() ==> (#[trigger] v@[x]).index < bound,
                    decreases n - k,
                {
                    proof {
                        let m2 = m.subrange(0, k as int + 1);
                        assert(m2.drop_last() =~= m.subrange(0, k as int));
                        assert(m2.last() == g@[k as int].index as int);
                    }
                    if self.merger.belongs(k) == r {
                        let id = v.len();
                        let ghost before = v@;
                        v.push(FileRecord { index: g[k].index, id });
                        proof {
                            assert(members(v@) =~= members(before).push(g@[k as int].index as int));
                        }
                    }
                    k += 1;
                }
                proof {
                    assert(m.subrange(0, k as int) =~= m);
                }
                if v.len() >= 2 {
                    let ghost before = out@.map_values(|w: Vec<FileRecord>| members(w@));
                    out.push(v);
                    proof {
                        assert(out@.map_values(|w: Vec<FileRecord>| members(w@)) =~= before.push(members(v@)));
                    }
                }
            } else {
                assert(cls[r as int] == Seq::<int>::empty());
            }
            r += 1;
        }
        proof {
            assert(cls.subrange(0, r as int) =~= cls);
        }
        out
    }
}

} // verus!
