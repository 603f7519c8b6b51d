//! The grouping engine: a partition of admitted files into candidate groups,
//! refined by one signature after another and finally confirmed byte by byte.
use crate::bitwise::{
    GroupCheck, askable, pair_lt, confirmed, confirmed_classes, equivalence, lemma_confirm_complete, lemma_confirm_sound,
    truthful,
};
use crate::file_hash::{FileInfo, HashResult, HashView, same_hash};
use crate::order::{chars_of, is_perm, lex_le, sorted_order};
use vstd::prelude::*;

verus! {

/// Signature of each file by index, `None` where it could not be computed.
pub open spec fn hash_views(hashes: Seq<Option<HashResult>>) -> Seq<Option<HashView>> {
    hashes.map_values(|o: Option<HashResult>|
        match o {
            Some(h) => Some(h@),
            None => None,
        })
}

/// The members of `g`, in order, whose signature is `s`.
pub open spec fn class_of(g: Seq<int>, sig: Seq<Option<HashView>>, s: HashView) -> Seq<int>
    decreases g.len(),
{
    if g.len() == 0 {
        seq![]
    } else if sig[g.last()] == Some(s) {
        class_of(g.drop_last(), sig, s).push(g.last())
    } else {
        class_of(g.drop_last(), sig, s)
    }
}

/// The distinct signatures of the members of `g`, in order of first appearance.
pub open spec fn keys_of(g: Seq<int>, sig: Seq<Option<HashView>>) -> Seq<HashView>
    decreases g.len(),
{
    if g.len() == 0 {
        seq![]
    } else {
        let k = keys_of(g.drop_last(), sig);
        match sig[g.last()] {
            Some(s) => if k.contains(s) {
                k
            } else {
                k.push(s)
            },
            None => k,
        }
    }
}

/// The groups of `cs` with at least two members, in order.
pub open spec fn keep_pairs(cs: Seq<Seq<int>>) -> Seq<Seq<int>>
    decreases cs.len(),
{
    if cs.len() == 0 {
        seq![]
    } else if cs.last().len() >= 2 {
        keep_pairs(cs.drop_last()).push(cs.last())
    } else {
        keep_pairs(cs.drop_last())
    }
}

/// The sub-groups `g` splits into: one per signature, in order of first
/// appearance, each with its members in order; single members are dropped,
/// and so are members without a signature.
pub open spec fn classes_of(g: Seq<int>, sig: Seq<Option<HashView>>) -> Seq<Seq<int>> {
    keep_pairs(keys_of(g, sig).map_values(|s: HashView| class_of(g, sig, s)))
}

/// The partition after splitting each group of `p` with at least two members
/// by `sig`; groups of fewer members are left out.
pub open spec fn split_spec(p: Seq<Seq<int>>, sig: Seq<Option<HashView>>) -> Seq<Seq<int>>
    decreases p.len(),
{
    if p.len() == 0 {
        seq![]
    } else if p.last().len() >= 2 {
        split_spec(p.drop_last(), sig) + classes_of(p.last(), sig)
    } else {
        split_spec(p.drop_last(), sig)
    }
}

/// Integers of a sequence of indices.
pub open spec fn ints(s: Seq<usize>) -> Seq<int> {
    s.map_values(|u: usize| u as int)
}

/// `b` is `a` with its signature replaced by `h`, where there is one.
pub open spec fn updated(a: FileInfo, b: FileInfo, h: Option<HashResult>) -> bool {
    &&& b.path@ == a.path@
    &&& b.len == a.len
    &&& b.hash@ == match h {
        Some(x) => x@,
        None => a.hash@,
    }
}

/// A signature not among `keys_of(g)` belongs to no member of `g`.
proof fn lemma_absent_key(g: Seq<int>, sig: Seq<Option<HashView>>, s: HashView)
    requires
        !keys_of(g, sig).contains(s),
    ensures
        class_of(g, sig, s) == Seq::<int>::empty(),
    decreases g.len(),
{
    if g.len() > 0 {
        let k = keys_of(g.drop_last(), sig);
        if let Some(t) = sig[g.last()] {
            if !k.contains(t) {
                assert(keys_of(g, sig) == k.push(t));
                if k.contains(s) {
                    let j = choose|j: int| 0 <= j < k.len() && k[j] == s;
                    assert(k.push(t)[j] == s);
                }
                if t == s {
                    assert(k.push(t)[k.len() as int] == s);
                }
            } else {
                assert(keys_of(g, sig) == k);
            }
        } else {
            assert(keys_of(g, sig) == k);
        }
        lemma_absent_key(g.drop_last(), sig, s);
    }
}

/// The signatures in `keys_of(g)` are pairwise distinct.
proof fn lemma_keys_distinct(g: Seq<int>, sig: Seq<Option<HashView>>)
    ensures
        keys_of(g, sig).no_duplicates(),
    decreases g.len(),
{
    if g.len() > 0 {
        lemma_keys_distinct(g.drop_last(), sig);
        let k = keys_of(g.drop_last(), sig);
        if let Some(t) = sig[g.last()] {
            if !k.contains(t) {
                assert forall|a: int, b: int| 0 <= a < b < k.len() + 1 implies k.push(t)[a] != k.push(t)[b] by {
                    if b == k.len() {
                        assert(k[a] == k.push(t)[a]);
                    }
                }
            }
        }
    }
}

/// Every group that `keep_pairs` keeps has at least two members.
pub proof fn lemma_keep_pairs(cs: Seq<Seq<int>>)
    ensures
        forall|i: int| 0 <= i < keep_pairs(cs).len() ==> #[trigger] keep_pairs(cs)[i].len() >= 2,
    decreases cs.len(),
{
    if cs.len() > 0 {
        lemma_keep_pairs(cs.drop_last());
        let kp = keep_pairs(cs.drop_last());
        if cs.last().len() >= 2 {
            assert forall|i: int| 0 <= i < kp.len() + 1 implies #[trigger] kp.push(cs.last())[i].len() >= 2 by {
                if i < kp.len() {
                    assert(kp.push(cs.last())[i] == kp[i]);
                }
            }
        }
    }
}

/// Each group that `keep_pairs` keeps is one of the groups it was given.
pub proof fn lemma_keep_pairs_origin(cs: Seq<Seq<int>>)
    ensures
        forall|i: int| 0 <= i < keep_pairs(cs).len()
            ==> exists|j: int| 0 <= j < cs.len() && #[trigger] keep_pairs(cs)[i] == cs[j],
    decreases cs.len(),
{
    if cs.len() > 0 {
        lemma_keep_pairs_origin(cs.drop_last());
        let kp = keep_pairs(cs.drop_last());
        assert forall|i: int| 0 <= i < keep_pairs(cs).len()
            implies exists|j: int| 0 <= j < cs.len() && #[trigger] keep_pairs(cs)[i] == cs[j] by {
            if i < kp.len() {
                let j = choose|j: int| 0 <= j < cs.drop_last().len() && kp[i] == cs.drop_last()[j];
                if cs.last().len() >= 2 {
                    assert(keep_pairs(cs)[i] == kp[i]);
                }
                assert(cs[j] == cs.drop_last()[j]);
            } else {
                assert(keep_pairs(cs)[i] == cs[cs.len() - 1]);
            }
        }
    }
}

/// Every group of a split has at least two members.
pub proof fn lemma_split_pruned(p: Seq<Seq<int>>, sig: Seq<Option<HashView>>)
    ensures
        forall|i: int| 0 <= i < split_spec(p, sig).len() ==> #[trigger] split_spec(p, sig)[i].len() >= 2,
    decreases p.len(),
{
    if p.len() > 0 {
        lemma_split_pruned(p.drop_last(), sig);
        if p.last().len() >= 2 {
            let a = split_spec(p.drop_last(), sig);
            let cs = keys_of(p.last(), sig).map_values(|s: HashView| class_of(p.last(), sig, s));
            let b = keep_pairs(cs);
            assert(b == classes_of(p.last(), sig));
            assert(split_spec(p, sig) == a + b);
            lemma_keep_pairs(cs);
            assert forall|i: int| 0 <= i < (a + b).len() implies #[trigger] (a + b)[i].len() >= 2 by {
                if i >= a.len() {
                    assert((a + b)[i] == b[i - a.len()]);
                } else {
                    assert((a + b)[i] == a[i]);
                }
            }
        } else {
            assert(split_spec(p, sig) == split_spec(p.drop_last(), sig));
        }
    }
}

/// Members of a class have its signature and come from the group.
proof fn lemma_class_members(g: Seq<int>, sig: Seq<Option<HashView>>, s: HashView)
    ensures
        forall|t: int| 0 <= t < class_of(g, sig, s).len()
            ==> sig[#[trigger] class_of(g, sig, s)[t]] == Some(s) && g.contains(class_of(g, sig, s)[t]),
    decreases g.len(),
{
    if g.len() > 0 {
        lemma_class_members(g.drop_last(), sig, s);
        let c = class_of(g.drop_last(), sig, s);
        assert forall|t: int| 0 <= t < class_of(g, sig, s).len()
            implies sig[#[trigger] class_of(g, sig, s)[t]] == Some(s) && g.contains(class_of(g, sig, s)[t]) by {
            if t < c.len() {
                assert(class_of(g, sig, s)[t] == c[t]);
                let k = choose|k: int| 0 <= k < g.drop_last().len() && g.drop_last()[k] == c[t];
                assert(g[k] == g.drop_last()[k]);
            } else {
                assert(class_of(g, sig, s)[t] == g[g.len() - 1]);
            }
        }
    }
}

/// A group whose members all have signature `s` is its own class.
proof fn lemma_class_whole(q: Seq<int>, sig: Seq<Option<HashView>>, s: HashView)
    requires
        forall|t: int| 0 <= t < q.len() ==> sig[#[trigger] q[t]] == Some(s),
    ensures
        class_of(q, sig, s) == q,
        q.len() > 0 ==> keys_of(q, sig) == seq![s],
    decreases q.len(),
{
    if q.len() > 0 {
        let d = q.drop_last();
        assert forall|t: int| 0 <= t < d.len() implies sig[#[trigger] d[t]] == Some(s) by {
            assert(d[t] == q[t]);
        }
        lemma_class_whole(d, sig, s);
        assert(sig[q.last()] == Some(s));
        assert(d.push(q.last()) =~= q);
        if d.len() > 0 {
            assert(keys_of(d, sig)[0] == s);
        } else {
            assert(keys_of(d, sig) =~= Seq::<HashView>::empty());
            assert(keys_of(q, sig) =~= seq![s]);
        }
    }
}

/// Where each group of `q` has at least two members that share one
/// signature, splitting `q` by that signature leaves it as it is.
proof fn lemma_split_uniform(q: Seq<Seq<int>>, sig: Seq<Option<HashView>>)
    requires
        forall|i: int| 0 <= i < q.len() ==> (#[trigger] q[i]).len() >= 2 && sig[q[i][0]] is Some
            && forall|t: int| 0 <= t < q[i].len() ==> sig[#[trigger] q[i][t]] == sig[q[i][0]],
    ensures
        split_spec(q, sig) == q,
    decreases q.len(),
{
    if q.len() > 0 {
        let d = q.drop_last();
        assert forall|i: int| 0 <= i < d.len() implies (#[trigger] d[i]).len() >= 2 && sig[d[i][0]] is Some
            && forall|t: int| 0 <= t < d[i].len() ==> sig[#[trigger] d[i][t]] == sig[d[i][0]] by {
            assert(d[i] == q[i]);
        }
        lemma_split_uniform(d, sig);
        let g = q.last();
        let s = sig[g[0]]->Some_0;
        assert(g == q[q.len() - 1]);
        lemma_class_whole(g, sig, s);
        let cs = keys_of(g, sig).map_values(|k: HashView| class_of(g, sig, k));
        assert(cs =~= seq![g]);
        assert(cs.drop_last() =~= Seq::<Seq<int>>::empty());
        assert(keep_pairs(cs.drop_last()) =~= Seq::<Seq<int>>::empty());
        assert(cs.last() == g);
        assert(g.len() >= 2);
        assert(keep_pairs(cs) == keep_pairs(cs.drop_last()).push(g));
        assert(keep_pairs(cs) =~= seq![g]);
        assert(classes_of(g, sig) == keep_pairs(cs));
        assert(d + seq![g] =~= q);
    }
}

/// `q` is the class of some signature in some group of `p`.
pub open spec fn from_class(p: Seq<Seq<int>>, sig: Seq<Option<HashView>>, q: Seq<int>) -> bool {
    exists|j: int, s: HashView| 0 <= j < p.len() && q == #[trigger] class_of(p[j], sig, s)
}

/// Each group of a split is one whole signature class, of at least two
/// members, of some group it was split from.
proof fn lemma_split_origin(p: Seq<Seq<int>>, sig: Seq<Option<HashView>>)
    ensures
        forall|i: int| 0 <= i < split_spec(p, sig).len() ==> from_class(p, sig, #[trigger] split_spec(p, sig)[i]),
    decreases p.len(),
{
    if p.len() > 0 {
        lemma_split_origin(p.drop_last(), sig);
        if p.last().len() >= 2 {
            let a = split_spec(p.drop_last(), sig);
            let g = p.last();
            let ks = keys_of(g, sig);
            let cs = ks.map_values(|k: HashView| class_of(g, sig, k));
            let b = keep_pairs(cs);
            assert(split_spec(p, sig) == a + b);
            lemma_keep_pairs_origin(cs);
            assert forall|i: int| 0 <= i < split_spec(p, sig).len() implies from_class(p, sig, #[trigger] split_spec(p, sig)[i]) by {
                if i < a.len() {
                    assert(split_spec(p, sig)[i] == a[i]);
                    assert(from_class(p.drop_last(), sig, a[i]));
                    let (j, s) = choose|j: int, s: HashView| 0 <= j < p.drop_last().len() && a[i] == class_of(p.drop_last()[j], sig, s);
                    assert(p[j] == p.drop_last()[j]);
                    assert(split_spec(p, sig)[i] == class_of(p[j], sig, s));
                } else {
                    assert(split_spec(p, sig)[i] == b[i - a.len()]);
                    let j = choose|j: int| 0 <= j < cs.len() && b[i - a.len()] == cs[j];
                    assert(cs[j] == class_of(g, sig, ks[j]));
                    assert(g == p[p.len() - 1]);
                    assert(split_spec(p, sig)[i] == class_of(p[p.len() - 1], sig, ks[j]));
                }
            }
        } else {
            assert(split_spec(p, sig) == split_spec(p.drop_last(), sig));
            assert forall|i: int| 0 <= i < split_spec(p, sig).len() implies from_class(p, sig, #[trigger] split_spec(p, sig)[i]) by {
                assert(from_class(p.drop_last(), sig, split_spec(p.drop_last(), sig)[i]));
                let (j, s) = choose|j: int, s: HashView| 0 <= j < p.drop_last().len()
                    && split_spec(p.drop_last(), sig)[i] == class_of(p.drop_last()[j], sig, s);
                assert(p[j] == p.drop_last()[j]);
                assert(split_spec(p, sig)[i] == class_of(p[j], sig, s));
            }
        }
    }
}

/// Idempotence: splitting again by the same signatures changes nothing.
pub proof fn lemma_split_idempotent(p: Seq<Seq<int>>, sig: Seq<Option<HashView>>)
    ensures
        split_spec(split_spec(p, sig), sig) == split_spec(p, sig),
{
    let q = split_spec(p, sig);
    lemma_split_origin(p, sig);
    lemma_split_pruned(p, sig);
    assert forall|i: int| 0 <= i < q.len() implies (#[trigger] q[i]).len() >= 2 && sig[q[i][0]] is Some
        && forall|t: int| 0 <= t < q[i].len() ==> sig[#[trigger] q[i][t]] == sig[q[i][0]] by {
        assert(from_class(p, sig, q[i]));
        let (j, s) = choose|j: int, s: HashView| 0 <= j < p.len() && q[i] == class_of(p[j], sig, s);
        lemma_class_members(p[j], sig, s);
    }
    lemma_split_uniform(q, sig);
}

/// Refinement: two files in one group after a split were in one group
/// before it, and every file after it was there before.
pub proof fn lemma_split_refines(p: Seq<Seq<int>>, sig: Seq<Option<HashView>>)
    ensures
        forall|i: int, x: int, y: int| 0 <= i < split_spec(p, sig).len()
            && #[trigger] split_spec(p, sig)[i].contains(x) && #[trigger] split_spec(p, sig)[i].contains(y)
            ==> exists|j: int| 0 <= j < p.len() && p[j].contains(x) && p[j].contains(y),
{
    let q = split_spec(p, sig);
    lemma_split_origin(p, sig);
    assert forall|i: int, x: int, y: int| 0 <= i < q.len() && #[trigger] q[i].contains(x) && #[trigger] q[i].contains(y)
        implies exists|j: int| 0 <= j < p.len() && p[j].contains(x) && p[j].contains(y) by {
        assert(from_class(p, sig, q[i]));
        let (j, s) = choose|j: int, s: HashView| 0 <= j < p.len() && q[i] == class_of(p[j], sig, s);
        lemma_class_members(p[j], sig, s);
        let tx = choose|t: int| 0 <= t < q[i].len() && q[i][t] == x;
        let ty = choose|t: int| 0 <= t < q[i].len() && q[i][t] == y;
        assert(p[j].contains(q[i][tx]));
        assert(p[j].contains(q[i][ty]));
    }
}

/// No file stands twice in the partition.
pub open spec fn distinct_members(p: Seq<Seq<int>>) -> bool {
    forall|i1: int, k1: int, i2: int, k2: int|
        0 <= i1 < p.len() && 0 <= k1 < p[i1].len() && 0 <= i2 < p.len() && 0 <= k2 < p[i2].len()
            && #[trigger] p[i1][k1] == #[trigger] p[i2][k2] ==> i1 == i2 && k1 == k2
}

/// A class of a group without repeated members has no repeated members.
proof fn lemma_class_distinct(g: Seq<int>, sig: Seq<Option<HashView>>, s: HashView)
    requires
        g.no_duplicates(),
    ensures
        class_of(g, sig, s).no_duplicates(),
    decreases g.len(),
{
    if g.len() > 0 {
        let d = g.drop_last();
        assert(d.no_duplicates()) by {
            assert forall|a: int, b: int| 0 <= a < b < d.len() implies d[a] != d[b] by {
                assert(d[a] == g[a] && d[b] == g[b]);
            }
        }
        lemma_class_distinct(d, sig, s);
        lemma_class_members(d, sig, s);
        let c = class_of(d, sig, s);
        if sig[g.last()] == Some(s) {
            assert forall|a: int, b: int| 0 <= a < b < c.len() + 1 implies c.push(g.last())[a] != c.push(g.last())[b] by {
                if b == c.len() {
                    assert(d.contains(c[a]));
                    let k = choose|k: int| 0 <= k < d.len() && d[k] == c[a];
                    assert(g[k] == d[k]);
                } else {
                    assert(c.push(g.last())[a] == c[a]);
                    assert(c.push(g.last())[b] == c[b]);
                }
            }
        }
    }
}

/// Keeping only some groups of a partition without repeated files leaves none.
proof fn lemma_keep_pairs_distinct(cs: Seq<Seq<int>>)
    requires
        distinct_members(cs),
    ensures
        distinct_members(keep_pairs(cs)),
    decreases cs.len(),
{
    if cs.len() > 0 {
        let d = cs.drop_last();
        assert(distinct_members(d)) by {
            assert forall|i1: int, k1: int, i2: int, k2: int|
                0 <= i1 < d.len() && 0 <= k1 < d[i1].len() && 0 <= i2 < d.len() && 0 <= k2 < d[i2].len()
                    && #[trigger] d[i1][k1] == #[trigger] d[i2][k2] implies i1 == i2 && k1 == k2 by {
                assert(d[i1] == cs[i1] && d[i2] == cs[i2]);
            }
        }
        lemma_keep_pairs_distinct(d);
        if cs.last().len() >= 2 {
            let kp = keep_pairs(d);
            let l = cs.last();
            lemma_keep_pairs_origin(d);
            assert forall|i1: int, k1: int, i2: int, k2: int|
                0 <= i1 < kp.push(l).len() && 0 <= k1 < kp.push(l)[i1].len() && 0 <= i2 < kp.push(l).len()
                    && 0 <= k2 < kp.push(l)[i2].len() && #[trigger] kp.push(l)[i1][k1] == #[trigger] kp.push(l)[i2][k2]
                implies i1 == i2 && k1 == k2 by {
                let n = kp.len() as int;
                if i1 < n && i2 < n {
                    assert(kp.push(l)[i1] == kp[i1] && kp.push(l)[i2] == kp[i2]);
                } else if i1 == n && i2 == n {
                    assert(cs[cs.len() - 1] == l);
                } else {
                    let (a, ka, kb) = if i1 < n { (i1, k1, k2) } else { (i2, k2, k1) };
                    assert(kp.push(l)[a] == kp[a]);
                    let j = choose|j: int| 0 <= j < d.len() && kp[a] == d[j];
                    assert(cs[j] == d[j]);
                    assert(cs[cs.len() - 1] == l);
                    assert(cs[j][ka] == cs[cs.len() - 1][kb]);
                }
            }
        }
    }
}

/// A split of a partition without repeated files has none.
pub proof fn lemma_split_distinct(p: Seq<Seq<int>>, sig: Seq<Option<HashView>>)
    requires
        distinct_members(p),
    ensures
        distinct_members(split_spec(p, sig)),
    decreases p.len(),
{
    if p.len() > 0 {
        let d = p.drop_last();
        assert(distinct_members(d)) by {
            assert forall|i1: int, k1: int, i2: int, k2: int|
                0 <= i1 < d.len() && 0 <= k1 < d[i1].len() && 0 <= i2 < d.len() && 0 <= k2 < d[i2].len()
                    && #[trigger] d[i1][k1] == #[trigger] d[i2][k2] implies i1 == i2 && k1 == k2 by {
                assert(d[i1] == p[i1] && d[i2] == p[i2]);
            }
        }
        lemma_split_distinct(d, sig);
        let g = p.last();
        if g.len() >= 2 {
            let a = split_spec(d, sig);
            let ks = keys_of(g, sig);
            let cs = ks.map_values(|k: HashView| class_of(g, sig, k));
            let b = keep_pairs(cs);
            assert(split_spec(p, sig) == a + b);
            assert(g == p[p.len() - 1]);
            assert(g.no_duplicates()) by {
                assert forall|x: int, y: int| 0 <= x < y < g.len() implies g[x] != g[y] by {
                    if g[x] == g[y] {
                        assert(p[p.len() - 1][x] == p[p.len() - 1][y]);
                    }
                }
            }
            lemma_keys_distinct(g, sig);
            assert(distinct_members(cs)) by {
                assert forall|i1: int, k1: int, i2: int, k2: int|
                    0 <= i1 < cs.len() && 0 <= k1 < cs[i1].len() && 0 <= i2 < cs.len() && 0 <= k2 < cs[i2].len()
                        && #[trigger] cs[i1][k1] == #[trigger] cs[i2][k2] implies i1 == i2 && k1 == k2 by {
                    lemma_class_members(g, sig, ks[i1]);
                    lemma_class_members(g, sig, ks[i2]);
                    assert(sig[cs[i1][k1]] == Some(ks[i1]));
                    assert(sig[cs[i2][k2]] == Some(ks[i2]));
                    lemma_class_distinct(g, sig, ks[i1]);
                }
            }
            lemma_keep_pairs_distinct(cs);
            lemma_keep_pairs_origin(cs);
            lemma_split_origin(d, sig);
            assert forall|i1: int, k1: int, i2: int, k2: int|
                0 <= i1 < (a + b).len() && 0 <= k1 < (a + b)[i1].len() && 0 <= i2 < (a + b).len()
                    && 0 <= k2 < (a + b)[i2].len() && #[trigger] (a + b)[i1][k1] == #[trigger] (a + b)[i2][k2]
                implies i1 == i2 && k1 == k2 by {
                let n = a.len() as int;
                if i1 < n && i2 < n {
                    assert((a + b)[i1] == a[i1] && (a + b)[i2] == a[i2]);
                } else if i1 >= n && i2 >= n {
                    assert((a + b)[i1] == b[i1 - n] && (a + b)[i2] == b[i2 - n]);
                } else {
                    let (ia, ka, ib, kb) = if i1 < n { (i1, k1, i2 - n, k2) } else { (i2, k2, i1 - n, k1) };
                    assert((a + b)[ia] == a[ia]);
                    assert((a + b)[ib + n] == b[ib]);
                    assert(from_class(d, sig, a[ia]));
                    let (j, sj) = choose|j: int, sj: HashView| 0 <= j < d.len() && a[ia] == class_of(d[j], sig, sj);
                    lemma_class_members(d[j], sig, sj);
                    let kd = choose|k: int| 0 <= k < d[j].len() && d[j][k] == a[ia][ka];
                    let c = choose|c: int| 0 <= c < cs.len() && b[ib] == cs[c];
                    lemma_class_members(g, sig, ks[c]);
                    let kg = choose|k: int| 0 <= k < g.len() && g[k] == b[ib][kb];
                    assert(d[j] == p[j]);
                    assert(p[j][kd] == p[p.len() - 1][kg]);
                }
            }
        } else {
            assert(split_spec(p, sig) == split_spec(d, sig));
        }
    }
}

/// Records for the files `b`, with local ids `0..`.
fn to_records(b: &Vec<usize>) -> (r: Vec<FileRecord>)
    ensures
        members(r@) == ints(b@),
        dense(r@),
{
    let mut r: Vec<FileRecord> = Vec::new();
    let mut k: usize = 0;
    while k < b.len()
        invariant
            k <= b@.len(),
            r@.len() == k,
            forall|j: int| 0 <= j < k ==> (#[trigger] r@[j]).id == j && r@[j].index == b@[j],
        decreases b.len() - k,
    {
        r.push(FileRecord { index: b[k], id: k });
        k += 1;
    }
    assert(members(r@) =~= ints(b@));
    r
}

/// Replaces each file's signature by its new one, where there is one.
fn apply_hashes(infos: Vec<FileInfo>, hashes: Vec<Option<HashResult>>) -> (r: Vec<FileInfo>)
    requires
        infos@.len() == hashes@.len(),
    ensures
        r@.len() == infos@.len(),
        forall|x: int| 0 <= x < r@.len() ==> updated(infos@[x], #[trigger] r@[x], hashes@[x]),
{
    let ghost n = infos@.len();
    let ghost old_infos = infos@;
    let ghost old_hashes = hashes@;
    let mut infos = infos;
    let mut hashes = hashes;
    let mut rev: Vec<FileInfo> = Vec::new();
    while infos.len() > 0
        invariant
            infos@.len() == hashes@.len(),
            infos@.len() + rev@.len() == n,
            old_infos.len() == n,
            old_hashes.len() == n,
            infos@ == old_infos.subrange(0, infos@.len() as int),
            hashes@ == old_hashes.subrange(0, hashes@.len() as int),
            forall|j: int| 0 <= j < rev@.len() ==>
                updated(old_infos[n - 1 - j], #[trigger] rev@[j], old_hashes[n - 1 - j]),
        decreases infos.len(),
    {
        let ghost before_i = infos@;
        let ghost before_h = hashes@;
        let info = infos.remove(infos.len() - 1);
        let h = hashes.remove(hashes.len() - 1);
        proof {
            assert(infos@ =~= before_i.subrange(0, before_i.len() - 1));
            assert(info == old_infos[before_i.len() - 1]);
            assert(h == before_h[before_h.len() - 1]);
        }
        let hash = match h {
            Some(x) => x,
            None => info.hash,
        };
        rev.push(FileInfo { path: info.path, len: info.len, hash });
        proof {
            assert(infos@ =~= old_infos.subrange(0, infos@.len() as int));
            assert(hashes@ =~= old_hashes.subrange(0, hashes@.len() as int));
        }
    }
    let mut r: Vec<FileInfo> = Vec::new();
    while rev.len() > 0
        invariant
            r@.len() + rev@.len() == n,
            old_infos.len() == n,
            old_hashes.len() == n,
            forall|j: int| 0 <= j < rev@.len() ==>
                updated(old_infos[n - 1 - j], #[trigger] rev@[j], old_hashes[n - 1 - j]),
            forall|x: int| 0 <= x < r@.len() ==> updated(old_infos[x], #[trigger] r@[x], old_hashes[x]),
        decreases rev.len(),
    {
        let info = rev.remove(rev.len() - 1);
        r.push(info);
    }
    r
}

/// Appends to `out` the sub-groups that `g` splits into by `sig`.
fn split_group(
    infos: &Vec<FileInfo>,
    alive: &Vec<bool>,
    g: &Vec<FileRecord>,
    out: &mut Vec<Vec<FileRecord>>,
    sig: Ghost<Seq<Option<HashView>>>,
)
    requires
        alive@.len() == infos@.len(),
        sig@.len() == infos@.len(),
        forall|x: int| 0 <= x < infos@.len() ==> (#[trigger] alive@[x] <==> sig@[x] is Some),
        forall|x: int| 0 <= x < infos@.len() && alive@[x] ==> Some(#[trigger] infos@[x].hash@) == sig@[x],
        forall|k: int| 0 <= k < g@.len() ==> (#[trigger] g@[k]).index < infos@.len(),
        forall|i: int| 0 <= i < old(out)@.len() ==> dense(#[trigger] old(out)@[i]@),
        forall|i: int, k: int| 0 <= i < old(out)@.len() && 0 <= k < old(out)@[i]@.len()
            ==> (#[trigger] old(out)@[i]@[k]).index < infos@.len(),
    ensures
        final(out)@.map_values(|v: Vec<FileRecord>| members(v@))
            == old(out)@.map_values(|v: Vec<FileRecord>| members(v@)) + classes_of(members(g@), sig@),
        forall|i: int| 0 <= i < final(out)@.len() ==> dense(#[trigger] final(out)@[i]@),
        forall|i: int, k: int| 0 <= i < final(out)@.len() && 0 <= k < final(out)@[i]@.len()
            ==> (#[trigger] final(out)@[i]@[k]).index < infos@.len(),
{
    let ghost mg = members(g@);
    let ghost n = infos@.len();
    let mut keys: Vec<usize> = Vec::new();
    let mut buckets: Vec<Vec<usize>> = Vec::new();
    let mut k: usize = 0;
    while k < g.len()
        invariant
            k <= g@.len(),
            mg == members(g@),
            alive@.len() == n,
            sig@.len() == n,
            infos@.len() == n,
            forall|x: int| 0 <= x < n ==> (#[trigger] alive@[x] <==> sig@[x] is Some),
            forall|x: int| 0 <= x < n && alive@[x] ==> Some(#[trigger] infos@[x].hash@) == sig@[x],
            forall|j: int| 0 <= j < g@.len() ==> (#[trigger] g@[j]).index < n,
            keys@.len() == buckets@.len(),
            keys@.len() == keys_of(mg.subrange(0, k as int), sig@).len(),
            forall|j: int| 0 <= j < keys@.len() ==> (#[trigger] keys@[j]) < n
                && sig@[keys@[j] as int] == Some(keys_of(mg.subrange(0, k as int), sig@)[j]),
            forall|j: int| 0 <= j < buckets@.len() ==> ints((#[trigger] buckets@[j])@)
                == class_of(mg.subrange(0, k as int), sig@, keys_of(mg.subrange(0, k as int), sig@)[j]),
            forall|j: int, m: int| 0 <= j < buckets@.len() && 0 <= m < buckets@[j]@.len()
                ==> (#[trigger] buckets@[j]@[m]) < n,
        decreases g.len() - k,
    {
        let x = g[k].index;
        let ghost pre = mg.subrange(0, k as int);
        let ghost pre2 = mg.subrange(0, k as int + 1);
        proof {
            assert(pre2.drop_last() =~= pre);
            assert(pre2.last() == x as int);
            lemma_keys_distinct(pre, sig@);
        }
        if alive[x] {
            let mut j: usize = 0;
            let mut found = false;
            while j < keys.len() && !found
                invariant
                    j <= keys@.len(),
                    alive@[x as int],
                    x < n,
                    alive@.len() == n,
                    forall|y: int| 0 <= y < n ==> (#[trigger] alive@[y] <==> sig@[y] is Some),
                    infos@.len() == n,
                    forall|y: int| 0 <= y < n && alive@[y] ==> Some(#[trigger] infos@[y].hash@) == sig@[y],
                    forall|i: int| 0 <= i < keys@.len() ==> (#[trigger] keys@[i]) < n
                        && sig@[keys@[i] as int] == Some(keys_of(pre, sig@)[i]),
                    found ==> j < keys@.len() && keys_of(pre, sig@)[j as int] == sig@[x as int]->Some_0,
                    !found ==> forall|i: int| 0 <= i < j ==> keys_of(pre, sig@)[i] != sig@[x as int]->Some_0,
                decreases keys.len() - j + (if found { 0int } else { 1int }),
            {
                let kj = keys[j];
                proof {
                    assert(alive@[kj as int]);
                }
                if same_hash(&infos[x].hash, &infos[kj].hash) {
                    found = true;
                } else {
                    j += 1;
                }
            }
            let ghost s = sig@[x as int]->Some_0;
            if found {
                let mut b = buckets.remove(j);
                b.push(x);
                buckets.insert(j, b);
                proof {
                    assert(keys_of(pre, sig@)[j as int] == s);
                    assert(keys_of(pre2, sig@) == keys_of(pre, sig@));
                    assert forall|i: int| 0 <= i < buckets@.len() implies ints((#[trigger] buckets@[i])@)
                        == class_of(pre2, sig@, keys_of(pre2, sig@)[i]) by {
                        if i == j {
                            assert(ints(buckets@[i]@) =~= class_of(pre, sig@, s).push(x as int));
                        } else {
                            assert(keys_of(pre, sig@)[i] != s);
                        }
                    }
                }
            } else {
                proof {
                    if keys_of(pre, sig@).contains(s) {
                        let i = choose|i: int| 0 <= i < keys_of(pre, sig@).len() && keys_of(pre, sig@)[i] == s;
                        assert(keys_of(pre, sig@)[i] != s);
                    }
                    lemma_absent_key(pre, sig@, s);
                    assert(keys_of(pre2, sig@) == keys_of(pre, sig@).push(s));
                }
                keys.push(x);
                let mut b: Vec<usize> = Vec::new();
                b.push(x);
                buckets.push(b);
                proof {
                    assert forall|i: int| 0 <= i < buckets@.len() implies ints((#[trigger] buckets@[i])@)
                        == class_of(pre2, sig@, keys_of(pre2, sig@)[i]) by {
                        if i == buckets@.len() - 1 {
                            assert(ints(buckets@[i]@) =~= seq![x as int]);
                            assert(class_of(pre, sig@, s) == Seq::<int>::empty());
                            assert(class_of(pre2, sig@, s) =~= seq![x as int]);
                        } else {
                            assert(keys_of(pre, sig@)[i] != s);
                        }
                    }
                }
            }
        } else {
            proof {
                assert(keys_of(pre2, sig@) == keys_of(pre, sig@));
                assert forall|i: int| 0 <= i < buckets@.len() implies ints((#[trigger] buckets@[i])@)
                    == class_of(pre2, sig@, keys_of(pre2, sig@)[i]) by {
                    assert(class_of(pre2, sig@, keys_of(pre, sig@)[i]) == class_of(pre, sig@, keys_of(pre, sig@)[i]));
                }
            }
        }
        k += 1;
    }
    proof {
        assert(mg.subrange(0, k as int) =~= mg);
    }
    let ghost cls = keys_of(mg, sig@).map_values(|s: HashView| class_of(mg, sig@, s));
    let ghost base = old(out)@.map_values(|v: Vec<FileRecord>| members(v@));
    let mut j: usize = 0;
    while j < buckets.len()
        invariant
            j <= buckets@.len(),
            buckets@.len() == cls.len(),
            forall|i: int| 0 <= i < buckets@.len() ==> ints((#[trigger] buckets@[i])@) == cls[i],
            forall|i: int, m: int| 0 <= i < buckets@.len() && 0 <= m < buckets@[i]@.len()
                ==> (#[trigger] buckets@[i]@[m]) < n,
            out@.map_values(|v: Vec<FileRecord>| members(v@)) == base + keep_pairs(cls.subrange(0, j as int)),
            forall|i: int| 0 <= i < out@.len() ==> dense(#[trigger] out@[i]@),
            forall|i: int, m: int| 0 <= i < out@.len() && 0 <= m < out@[i]@.len()
                ==> (#[trigger] out@[i]@[m]).index < n,
        decreases buckets.len() - j,
    {
        proof {
            let c2 = cls.subrange(0, j as int + 1);
            assert(c2.drop_last() =~= cls.subrange(0, j as int));
            assert(c2.last() == cls[j as int]);
        }
        if buckets[j].len() >= 2 {
            let recs = to_records(&buckets[j]);
            let ghost before = out@.map_values(|v: Vec<FileRecord>| members(v@));
            out.push(recs);
            proof {
                assert(out@.map_values(|v: Vec<FileRecord>| members(v@)) =~= before.push(members(recs@)));
                assert(members(recs@) == cls[j as int]);
                assert(base + keep_pairs(cls.subrange(0, j as int + 1)) =~= (base + keep_pairs(cls.subrange(0, j as int))).push(cls[j as int]));
                assert forall|i: int, m: int| 0 <= i < out@.len() && 0 <= m < out@[i]@.len()
                    implies (#[trigger] out@[i]@[m]).index < n by {
                    if i == out@.len() - 1 {
                        assert(members(recs@)[m] == ints(buckets@[j as int]@)[m]);
                    }
                }
            }
        }
        j += 1;
    }
    proof {
        assert(cls.subrange(0, j as int) =~= cls);
    }
}

/// The groups that confirmation makes of the partition `p`, group by group,
/// where `roots[i]` gives the representatives found in `p[i]`.
pub open spec fn confirm_spec(p: Seq<Seq<int>>, roots: Seq<Seq<int>>) -> Seq<Seq<int>>
    decreases p.len(),
{
    if p.len() == 0 {
        seq![]
    } else {
        confirm_spec(p.drop_last(), roots) + confirmed_classes(p.last(), roots[p.len() - 1])
    }
}

/// Every answer in `ans` about members of `m` stands in `log`, with the files compared.
pub open spec fn logged(m: Seq<int>, ans: Map<(int, int), bool>, log: Seq<((int, int), bool)>) -> bool {
    forall|a: int, b: int| 0 <= a < m.len() && 0 <= b < m.len() && #[trigger] ans.contains_key((a, b))
        ==> log.contains(((m[a], m[b]), ans[(a, b)]))
}

/// The files that removing duplicates deletes: every member of each group
/// but its first, group by group.
pub open spec fn surplus(p: Seq<Seq<int>>) -> Seq<int>
    decreases p.len(),
{
    if p.len() == 0 {
        seq![]
    } else {
        surplus(p.drop_last()) + p.last().subrange(if p.last().len() > 0 { 1int } else { 0int }, p.last().len() as int)
    }
}

/// The number of members over all groups.
pub open spec fn member_count(p: Seq<Seq<int>>) -> int
    decreases p.len(),
{
    if p.len() == 0 {
        0
    } else {
        member_count(p.drop_last()) + p.last().len()
    }
}

/// The total length of the files in `xs`.
pub open spec fn total_len(infos: Seq<FileInfo>, xs: Seq<int>) -> int
    decreases xs.len(),
{
    if xs.len() == 0 {
        0
    } else {
        total_len(infos, xs.drop_last()) + infos[xs.last()].len
    }
}

proof fn lemma_count_nonneg(p: Seq<Seq<int>>)
    ensures
        member_count(p) >= 0,
    decreases p.len(),
{
    if p.len() > 0 {
        lemma_count_nonneg(p.drop_last());
    }
}

proof fn lemma_total_len_nonneg(infos: Seq<FileInfo>, xs: Seq<int>)
    ensures
        total_len(infos, xs) >= 0,
    decreases xs.len(),
{
    if xs.len() > 0 {
        lemma_total_len_nonneg(infos, xs.drop_last());
    }
}

/// `v`, or `cap` where `v` exceeds it.
pub open spec fn capped(v: int, cap: int) -> int {
    if v > cap {
        cap
    } else {
        v
    }
}

/// `b` is `a` rearranged: its `k`-th member is member `s[k]` of `a`.
pub open spec fn rearranged(a: Seq<int>, b: Seq<int>, s: Seq<usize>) -> bool {
    &&& is_perm(s, a.len())
    &&& b.len() == a.len()
    &&& forall|k: int| 0 <= k < b.len() ==> #[trigger] b[k] == a[s[k] as int]
}

/// `b` is `a` rearranged.
pub open spec fn is_rearranged(a: Seq<int>, b: Seq<int>) -> bool {
    exists|s: Seq<usize>| rearranged(a, b, s)
}

/// `q` is `p` with its groups reordered by the permutation `gp`, and each
/// group rearranged.
pub open spec fn regrouped(p: Seq<Seq<int>>, q: Seq<Seq<int>>, gp: Seq<usize>) -> bool {
    &&& is_perm(gp, p.len())
    &&& q.len() == p.len()
    &&& forall|i: int| 0 <= i < gp.len() ==> is_rearranged(p[#[trigger] gp[i] as int], q[i])
}

/// The path of file `x`.
pub open spec fn path_of(infos: Seq<FileInfo>, x: int) -> Seq<char> {
    infos[x].path@
}

/// The members of `g` come in order of path.
pub open spec fn sorted_by_path(infos: Seq<FileInfo>, g: Seq<int>) -> bool {
    forall|k: int| 0 <= k < g.len() - 1 ==> lex_le(path_of(infos, #[trigger] g[k]), path_of(infos, g[k + 1]))
}

/// The path of the first member of `g`; empty for an empty group.
pub open spec fn first_path(infos: Seq<FileInfo>, g: Seq<int>) -> Seq<char> {
    if g.len() > 0 {
        path_of(infos, g[0])
    } else {
        seq![]
    }
}

/// A copy of a group.
fn copy_group(g: &Vec<FileRecord>) -> (r: Vec<FileRecord>)
    ensures
        r@ == g@,
{
    let mut r: Vec<FileRecord> = Vec::new();
    let mut k: usize = 0;
    while k < g.len()
        invariant
            k <= g@.len(),
            r@ == g@.subrange(0, k as int),
        decreases g.len() - k,
    {
        r.push(g[k]);
        k += 1;
        assert(r@ =~= g@.subrange(0, k as int));
    }
    assert(g@.subrange(0, k as int) =~= g@);
    r
}

/// Counts describing a partition: its groups, its members, and the bytes
/// that all members but the first of each group take.
pub struct StageSummary {
    pub groups: usize,
    pub candidates: u128,
    pub redundant_bytes: u128,
}

/// A member of a group: the index of its file in the list, and its position
/// (dense local id) in the group.
#[derive(Clone, Copy, Debug)]
pub struct FileRecord {
    pub index: usize,
    pub id: usize,
}

/// The admitted files and their current partition into candidate groups.
pub struct FileList {
    infos: Vec<FileInfo>,
    files: Vec<Vec<FileRecord>>,
}

/// The file indices of a group.
pub open spec fn members(g: Seq<FileRecord>) -> Seq<int> {
    g.map_values(|r: FileRecord| r.index as int)
}

/// Records whose local ids are their positions.
pub open spec fn dense(g: Seq<FileRecord>) -> bool {
    forall|k: int| 0 <= k < g.len() ==> (#[trigger] g[k]).id == k
}

impl FileList {
    /// The groups, each as the indices of its files.
    pub closed spec fn groups(&self) -> Seq<Seq<int>> {
        self.files@.map_values(|g: Vec<FileRecord>| members(g@))
    }

    /// Every admitted file, by index.
    pub closed spec fn infos(&self) -> Seq<FileInfo> {
        self.infos@
    }

    /// Members refer to admitted files and carry their positions as local
    /// ids; no file is a member twice.
    pub closed spec fn wf(&self) -> bool {
        &&& distinct_members(self.groups())
        &&& forall|i: int| 0 <= i < self.files@.len() ==> dense(#[trigger] self.files@[i]@)
        &&& forall|i: int, k: int|
            0 <= i < self.files@.len() && 0 <= k < self.files@[i]@.len()
                ==> (#[trigger] self.files@[i]@[k]).index < self.infos@.len()
    }

    /// Every group has at least two members.
    pub open spec fn pruned(&self) -> bool {
        forall|i: int| 0 <= i < self.groups().len() ==> #[trigger] self.groups()[i].len() >= 2
    }

    /// An empty list.
    pub fn new() -> (r: FileList)
        ensures
            r.wf(),
            r.groups() == Seq::<Seq<int>>::empty(),
            r.infos() == Seq::<FileInfo>::empty(),
    {
        let r = FileList { infos: Vec::new(), files: Vec::new() };
        assert(r.groups() =~= Seq::<Seq<int>>::empty());
        r
    }

    /// The number of groups.
    pub fn len(&self) -> (r: usize)
        ensures
            r == self.groups().len(),
    {
        self.files.len()
    }

    /// The number of admitted files.
    pub fn file_count(&self) -> (r: usize)
        ensures
            r == self.infos().len(),
    {
        self.infos.len()
    }

    /// The admitted file with index `x`.
    pub fn info(&self, x: usize) -> (r: &FileInfo)
        requires
            x < self.infos().len(),
        ensures
            *r == self.infos()[x as int],
    {
        &self.infos[x]
    }

    /// The groups as records: member `k` of a group has local id `k`.
    pub fn records(&self) -> (r: &Vec<Vec<FileRecord>>)
        requires
            self.wf(),
        ensures
            r@.map_values(|g: Vec<FileRecord>| members(g@)) == self.groups(),
            forall|i: int| 0 <= i < r@.len() ==> dense(#[trigger] r@[i]@),
            forall|i: int, k: int| 0 <= i < r@.len() && 0 <= k < r@[i]@.len()
                ==> (#[trigger] r@[i]@[k]).index < self.infos().len(),
    {
        &self.files
    }

    /// Orders the members of each group by path, and the groups by the path
    /// of their first members.
    pub fn sort_by_path(self) -> (r: FileList)
        requires
            self.wf(),
        ensures
            r.wf(),
            r.infos() == self.infos(),
            exists|gp: Seq<usize>| #[trigger] regrouped(self.groups(), r.groups(), gp),
            r.groups().len() == self.groups().len(),
            forall|i: int| 0 <= i < r.groups().len() ==> sorted_by_path(r.infos(), #[trigger] r.groups()[i]),
            forall|i: int| 0 <= i < r.groups().len() - 1
                ==> lex_le(first_path(r.infos(), #[trigger] r.groups()[i]), first_path(r.infos(), r.groups()[i + 1])),
    {
        let ghost p = self.groups();
        let ghost infos = self.infos@;
        let mut sorted: Vec<Vec<FileRecord>> = Vec::new();
        let mut firsts: Vec<Vec<char>> = Vec::new();
        let ghost mut orders: Seq<Seq<usize>> = Seq::empty();
        let mut gi: usize = 0;
        while gi < self.files.len()
            invariant
                self.wf(),
                p == self.groups(),
                infos == self.infos@,
                gi <= self.files@.len(),
                sorted@.len() == gi,
                firsts@.len() == gi,
                orders.len() == gi,
                forall|i: int| 0 <= i < gi ==> rearranged(p[i], members(#[trigger] sorted@[i]@), orders[i]),
                forall|i: int| 0 <= i < gi ==> dense(#[trigger] sorted@[i]@),
                forall|i: int, k: int| 0 <= i < gi && 0 <= k < sorted@[i]@.len()
                    ==> (#[trigger] sorted@[i]@[k]).index < infos.len(),
                forall|i: int| 0 <= i < gi ==> sorted_by_path(infos, members(#[trigger] sorted@[i]@)),
                forall|i: int| 0 <= i < gi ==> (#[trigger] firsts@[i])@ == first_path(infos, members(sorted@[i]@)),
            decreases self.files.len() - gi,
        {
            let g = &self.files[gi];
            let ghost m = members(g@);
            proof {
                assert(p[gi as int] == m);
            }
            let mut keys: Vec<Vec<char>> = Vec::new();
            let mut k: usize = 0;
            while k < g.len()
                invariant
                    self.wf(),
                    g == &self.files@[gi as int],
                    gi < self.files@.len(),
                    infos == self.infos@,
                    k <= g@.len(),
                    keys@.len() == k,
                    forall|j: int| 0 <= j < k ==> (#[trigger] keys@[j])@ == path_of(infos, g@[j].index as int),
                decreases g.len() - k,
            {
                keys.push(chars_of(self.infos[g[k].index].path.as_str()));
                k += 1;
            }
            let order = sorted_order(&keys);
            let mut ng: Vec<FileRecord> = Vec::new();
            let mut k: usize = 0;
            while k < order.len()
                invariant
                    self.wf(),
                    g == &self.files@[gi as int],
                    gi < self.files@.len(),
                    is_perm(order@, g@.len()),
                    k <= order@.len(),
                    ng@.len() == k,
                    forall|j: int| 0 <= j < k ==> (#[trigger] ng@[j]).id == j && ng@[j].index == g@[order@[j] as int].index,
                decreases order.len() - k,
            {
                let rec = FileRecord { index: g[order[k]].index, id: k };
                ng.push(rec);
                k += 1;
            }
            let first = if ng.len() > 0 {
                chars_of(self.infos[ng[0].index].path.as_str())
            } else {
                Vec::new()
            };
            proof {
                let mn = members(ng@);
                assert(rearranged(m, mn, order@));
                assert forall|j: int| 0 <= j < mn.len() - 1 implies lex_le(path_of(infos, #[trigger] mn[j]), path_of(infos, mn[j + 1])) by {
                    assert(keys@[order@[j] as int]@ == path_of(infos, g@[order@[j] as int].index as int));
                    assert(keys@[order@[j + 1] as int]@ == path_of(infos, g@[order@[j + 1] as int].index as int));
                }
                if ng@.len() == 0 {
                    assert(first@ =~= Seq::<char>::empty());
                }
            }
            sorted.push(ng);
            firsts.push(first);
            proof {
                orders = orders.push(order@);
            }
            gi += 1;
        }
        let gorder = sorted_order(&firsts);
        let mut files: Vec<Vec<FileRecord>> = Vec::new();
        let mut i: usize = 0;
        while i < gorder.len()
            invariant
                is_perm(gorder@, sorted@.len()),
                i <= gorder@.len(),
                files@.len() == i,
                forall|j: int| 0 <= j < i ==> (#[trigger] files@[j])@ == sorted@[gorder@[j] as int]@,
            decreases gorder.len() - i,
        {
            files.push(copy_group(&sorted[gorder[i]]));
            i += 1;
        }
        let r = FileList { infos: self.infos, files };
        proof {
            assert(p.len() == sorted@.len());
            assert forall|j: int| 0 <= j < gorder@.len() implies
                is_rearranged(p[#[trigger] gorder@[j] as int], r.groups()[j]) by {
                let gj = gorder@[j] as int;
                assert(r.groups()[j] == members(sorted@[gj]@));
                assert(rearranged(p[gj], r.groups()[j], orders[gj]));
            }
            assert(regrouped(p, r.groups(), gorder@));
            lemma_regrouped_distinct(p, r.groups(), gorder@);
            assert forall|j: int| 0 <= j < r.groups().len() - 1 implies lex_le(first_path(infos, #[trigger] r.groups()[j]), first_path(infos, r.groups()[j + 1])) by {
                assert(r.groups()[j] == members(sorted@[gorder@[j] as int]@));
                assert(r.groups()[j + 1] == members(sorted@[gorder@[j + 1] as int]@));
            }
            assert forall|j: int| 0 <= j < r.groups().len() implies sorted_by_path(infos, #[trigger] r.groups()[j]) by {
                assert(r.groups()[j] == members(sorted@[gorder@[j] as int]@));
            }
        }
        r
    }

    /// The files to delete to keep one file of each group: all members but
    /// the first of each group, group by group.
    pub fn duplicates(&self) -> (r: Vec<usize>)
        ensures
            ints(r@) == surplus(self.groups()),
    {
        let ghost p = self.groups();
        let mut r: Vec<usize> = Vec::new();
        let mut gi: usize = 0;
        while gi < self.files.len()
            invariant
                gi <= self.files@.len(),
                p == self.groups(),
                ints(r@) == surplus(p.subrange(0, gi as int)),
            decreases self.files.len() - gi,
        {
            let g = &self.files[gi];
            let ghost m = members(g@);
            let ghost base = ints(r@);
            proof {
                let p2 = p.subrange(0, gi as int + 1);
                assert(p2.drop_last() =~= p.subrange(0, gi as int));
                assert(p2.last() == m);
            }
            if g.len() > 0 {
                let mut k: usize = 1;
                assert(base + m.subrange(1, 1) =~= base);
                while k < g.len()
                    invariant
                        1 <= k <= g@.len(),
                        m == members(g@),
                        ints(r@) == base + m.subrange(1, k as int),
                    decreases g.len() - k,
                {
                    let ghost before = ints(r@);
                    r.push(g[k].index);
                    proof {
                        assert(ints(r@) =~= before.push(m[k as int]));
                        assert(base + m.subrange(1, k as int + 1) =~= (base + m.subrange(1, k as int)).push(m[k as int]));
                    }
                    k += 1;
                }
            } else {
                assert(base + m.subrange(0, 0) =~= base);
            }
            gi += 1;
        }
        proof {
            assert(p.subrange(0, gi as int) =~= p);
        }
        r
    }

    /// The counts of the current partition, each saturating at `u128::MAX`.
    pub fn summary(&self) -> (r: StageSummary)
        requires
            self.wf(),
        ensures
            r.groups == self.groups().len(),
            r.candidates == capped(member_count(self.groups()), u128::MAX as int),
            r.redundant_bytes == capped(total_len(self.infos(), surplus(self.groups())), u128::MAX as int),
    {
        let ghost p = self.groups();
        let ghost infos = self.infos@;
        let mut candidates: u128 = 0;
        let mut bytes: u128 = 0;
        let mut gi: usize = 0;
        while gi < self.files.len()
            invariant
                self.wf(),
                gi <= self.files@.len(),
                p == self.groups(),
                infos == self.infos@,
                candidates == capped(member_count(p.subrange(0, gi as int)), u128::MAX as int),
                bytes == capped(total_len(infos, surplus(p.subrange(0, gi as int))), u128::MAX as int),
            decreases self.files.len() - gi,
        {
            let g = &self.files[gi];
            let ghost m = members(g@);
            let ghost base = surplus(p.subrange(0, gi as int));
            proof {
                let p2 = p.subrange(0, gi as int + 1);
                assert(p2.drop_last() =~= p.subrange(0, gi as int));
                assert(p2.last() == m);
                assert(m.len() == g@.len());
                lemma_count_nonneg(p.subrange(0, gi as int));
            }
            candidates = candidates.saturating_add(g.len() as u128);
            if g.len() > 0 {
                let mut k: usize = 1;
                assert(base + m.subrange(1, 1) =~= base);
                while k < g.len()
                    invariant
                        self.wf(),
                        gi < self.files@.len(),
                        g == &self.files@[gi as int],
                        1 <= k <= g@.len(),
                        m == members(g@),
                        infos == self.infos@,
                        bytes == capped(total_len(infos, base + m.subrange(1, k as int)), u128::MAX as int),
                    decreases g.len() - k,
                {
                    let x = g[k].index;
                    let flen = self.infos[x].len;
                    proof {
                        let s0 = base + m.subrange(1, k as int);
                        assert(base + m.subrange(1, k as int + 1) =~= s0.push(x as int));
                        assert(s0.push(x as int).drop_last() =~= s0);
                        lemma_total_len_nonneg(infos, s0);
                    }
                    bytes = bytes.saturating_add(flen as u128);
                    k += 1;
                }
            } else {
                assert(base + m.subrange(0, 0) =~= base);
            }
            gi += 1;
        }
        proof {
            assert(p.subrange(0, gi as int) =~= p);
        }
        StageSummary { groups: self.files.len(), candidates, redundant_bytes: bytes }
    }

    /// Admits a file, with the length its metadata gives, into the first group
    /// (created when there is none). Its index is the number of files before it.
    pub fn add(&mut self, path: String, len: u64)
        requires
            old(self).wf(),
            old(self).infos().len() < usize::MAX,
        ensures
            final(self).wf(),
            final(self).infos().len() == old(self).infos().len() + 1,
            final(self).infos().subrange(0, old(self).infos().len() as int) == old(self).infos(),
            final(self).infos().last().path@ == path@,
            final(self).infos().last().len == len,
            final(self).infos().last().hash@ == HashView::Length(len),
            final(self).groups() == if old(self).groups().len() == 0 {
                seq![seq![old(self).infos().len() as int]]
            } else {
                old(self).groups().update(0, old(self).groups()[0].push(old(self).infos().len() as int))
            },
    {
        let x = self.infos.len();
        self.infos.push(FileInfo::new(path, len));
        if self.files.len() == 0 {
            self.files.push(Vec::new());
        }
        let ghost before = self.files@;
        let mut first = self.files.remove(0);
        let id = first.len();
        first.push(FileRecord { index: x, id });
        self.files.insert(0, first);
        proof {
            assert(self.infos@.subrange(0, x as int) =~= old(self).infos@);
            assert(self.files@ =~= before.update(0, first));
            assert(members(first@) =~= members(before[0]@).push(x as int));
            if old(self).files@.len() == 0 {
                assert(before.len() == 1);
                assert(before[0]@.len() == 0);
                assert(members(first@) =~= seq![x as int]);
                assert(self.groups()[0] == members(first@));
                assert(self.groups() =~= seq![seq![x as int]]);
            } else {
                assert(self.groups() =~= old(self).groups().update(0, old(self).groups()[0].push(x as int)));
            }
            assert forall|i: int| 0 <= i < self.files@.len() implies dense(#[trigger] self.files@[i]@) by {
                if i == 0 {
                    assert forall|k: int| 0 <= k < first@.len() implies (#[trigger] first@[k]).id == k by {
                        if k < first@.len() - 1 {
                            assert(first@[k] == before[0]@[k]);
                        }
                    }
                }
            }
            assert forall|i: int, k: int|
                0 <= i < self.files@.len() && 0 <= k < self.files@[i]@.len()
                    implies (#[trigger] self.files@[i]@[k]).index < self.infos@.len() by {
                if i == 0 && k < first@.len() - 1 {
                    assert(first@[k] == before[0]@[k]);
                }
            }
        }
    }

    /// Refines the partition by new signatures, one per file index (`None`
    /// where it could not be computed, which drops the file). Each group of at
    /// least two members splits into one sub-group per signature; sub-groups of
    /// one member are dropped, and no two files of different groups ever meet.
    /// Each file with a new signature keeps it as its latest.
    pub fn split_by_hash(self, hashes: Vec<Option<HashResult>>) -> (r: FileList)
        requires
            self.wf(),
            hashes@.len() == self.infos().len(),
        ensures
            r.wf(),
            r.pruned(),
            r.groups() == split_spec(self.groups(), hash_views(hashes@)),
            r.infos().len() == self.infos().len(),
            forall|x: int| 0 <= x < r.infos().len()
                ==> updated(self.infos()[x], #[trigger] r.infos()[x], hashes@[x]),
    {
        let ghost sig = hash_views(hashes@);
        let ghost p = self.groups();
        let n = self.infos.len();
        let mut alive: Vec<bool> = Vec::new();
        let mut x: usize = 0;
        while x < n
            invariant
                x <= n,
                n == hashes@.len(),
                sig == hash_views(hashes@),
                alive@.len() == x,
                forall|y: int| 0 <= y < x ==> (#[trigger] alive@[y] <==> sig[y] is Some),
            decreases n - x,
        {
            alive.push(hashes[x].is_some());
            x += 1;
        }
        let infos = apply_hashes(self.infos, hashes);
        let files = self.files;
        let mut out: Vec<Vec<FileRecord>> = Vec::new();
        let mut gi: usize = 0;
        while gi < files.len()
            invariant
                gi <= files@.len(),
                p == files@.map_values(|g: Vec<FileRecord>| members(g@)),
                alive@.len() == n,
                infos@.len() == n,
                sig.len() == n,
                forall|y: int| 0 <= y < n ==> (#[trigger] alive@[y] <==> sig[y] is Some),
                forall|y: int| 0 <= y < n && alive@[y] ==> Some(#[trigger] infos@[y].hash@) == sig[y],
                forall|i: int, k: int| 0 <= i < files@.len() && 0 <= k < files@[i]@.len()
                    ==> (#[trigger] files@[i]@[k]).index < n,
                out@.map_values(|g: Vec<FileRecord>| members(g@)) == split_spec(p.subrange(0, gi as int), sig),
                forall|i: int| 0 <= i < out@.len() ==> dense(#[trigger] out@[i]@),
                forall|i: int, k: int| 0 <= i < out@.len() && 0 <= k < out@[i]@.len()
                    ==> (#[trigger] out@[i]@[k]).index < n,
            decreases files.len() - gi,
        {
            proof {
                let p2 = p.subrange(0, gi as int + 1);
                assert(p2.drop_last() =~= p.subrange(0, gi as int));
                assert(p2.last() == members(files@[gi as int]@));
            }
            if files[gi].len() >= 2 {
                split_group(&infos, &alive, &files[gi], &mut out, Ghost(sig));
            } else {
                assert(split_spec(p.subrange(0, gi as int + 1), sig) == split_spec(p.subrange(0, gi as int), sig));
            }
            gi += 1;
        }
        proof {
            assert(p.subrange(0, gi as int) =~= p);
            lemma_split_pruned(p, sig);
            lemma_split_distinct(p, sig);
        }
        FileList { infos, files: out }
    }
}

/// An upper bound on the steps that checking groups `g..` of `p` takes.
pub open spec fn budget(p: Seq<Seq<int>>, g: int) -> nat
    decreases p.len() - g,
{
    if g < 0 || g >= p.len() {
        0
    } else {
        p[g].len() * (p[g].len() + 1) + 1 + budget(p, g + 1)
    }
}

/// The budget of later groups is no larger.
pub proof fn lemma_budget_mono(p: Seq<Seq<int>>, g1: int, g2: int)
    requires
        0 <= g1 <= g2,
    ensures
        budget(p, g2) <= budget(p, g1),
    decreases g2 - g1,
{
    if g1 < g2 {
        lemma_budget_mono(p, g1 + 1, g2);
    }
}

/// Confirmation of a partition in progress: groups are checked in order, one
/// pair of files at a time, and their confirmed groups collected.
pub struct Confirmation {
    infos: Vec<FileInfo>,
    files: Vec<Vec<FileRecord>>,
    g: usize,
    check: GroupCheck,
    out: Vec<Vec<FileRecord>>,
    roots: Ghost<Seq<Seq<int>>>,
    answers: Ghost<Seq<Map<(int, int), bool>>>,
    log: Ghost<Seq<((int, int), bool)>>,
}

impl Confirmation {
    /// The partition being confirmed.
    pub closed spec fn input(&self) -> Seq<Seq<int>> {
        self.files@.map_values(|g: Vec<FileRecord>| members(g@))
    }

    /// Every admitted file, by index.
    pub closed spec fn infos(&self) -> Seq<FileInfo> {
        self.infos@
    }

    /// The admitted file with index `x`.
    pub fn info(&self, x: usize) -> (r: &FileInfo)
        requires
            x < self.infos().len(),
        ensures
            *r == self.infos()[x as int],
    {
        &self.infos[x]
    }

    /// Representatives found in each group checked so far.
    pub closed spec fn roots(&self) -> Seq<Seq<int>> {
        self.roots@
    }

    /// Answers, by pair of local ids, for each group checked so far.
    pub closed spec fn answers(&self) -> Seq<Map<(int, int), bool>> {
        self.answers@
    }

    /// Every comparison reported, in order: the two files and the answer.
    pub closed spec fn log(&self) -> Seq<((int, int), bool)> {
        self.log@
    }

    /// Every group has been checked.
    pub closed spec fn done(&self) -> bool {
        self.g >= self.files@.len()
    }

    /// The index of the group being checked.
    pub closed spec fn group(&self) -> int {
        self.g as int
    }

    /// The check of the group being checked.
    pub closed spec fn current(&self) -> GroupCheck {
        self.check
    }

    /// How many steps are left at most: zero exactly when done.
    pub open spec fn remaining(&self) -> nat {
        if self.done() {
            0
        } else {
            self.current().remaining() + 1 + budget(self.input(), self.group() + 1)
        }
    }

    /// The two files to compare next.
    pub closed spec fn pending_files(&self) -> (int, int) {
        let m = members(self.files@[self.g as int]@);
        (m[self.check.pending().0], m[self.check.pending().1])
    }

    pub closed spec fn wf(&self) -> bool {
        let p = self.input();
        let g = self.g as int;
        &&& g <= p.len()
        &&& distinct_members(p)
        &&& forall|i: int, k: int| 0 <= i < self.files@.len() && 0 <= k < self.files@[i]@.len()
            ==> (#[trigger] self.files@[i]@[k]).index < self.infos@.len()
        &&& self.roots@.len() == g
        &&& self.answers@.len() == g
        &&& forall|i: int| 0 <= i < g ==> confirmed(p[i].len(), #[trigger] self.roots@[i], self.answers@[i])
        &&& forall|i: int| 0 <= i < g ==> logged(p[i], #[trigger] self.answers@[i], self.log@)
        &&& g < p.len() ==> {
            &&& self.check.wf()
            &&& self.check.state_ok()
            &&& self.check.size() == p[g].len()
            &&& !self.check.done()
            &&& logged(p[g], self.check.answers(), self.log@)
        }
        &&& self.out@.map_values(|v: Vec<FileRecord>| members(v@)) == confirm_spec(p.subrange(0, g), self.roots@)
        &&& forall|i: int| 0 <= i < self.out@.len() ==> dense(#[trigger] self.out@[i]@)
        &&& forall|i: int, k: int| 0 <= i < self.out@.len() && 0 <= k < self.out@[i]@.len()
            ==> (#[trigger] self.out@[i]@[k]).index < self.infos@.len()
    }

    /// Closes every group whose check is complete, from the current one on,
    /// and opens the check of the next group that needs one.
    fn settle(&mut self)
        requires
            ({
                let p = old(self).input();
                let g = old(self).g as int;
                &&& g <= p.len()
                &&& distinct_members(p)
                &&& forall|i: int, k: int| 0 <= i < old(self).files@.len() && 0 <= k < old(self).files@[i]@.len()
                    ==> (#[trigger] old(self).files@[i]@[k]).index < old(self).infos@.len()
                &&& old(self).roots@.len() == g
                &&& old(self).answers@.len() == g
                &&& forall|i: int| 0 <= i < g ==> confirmed(p[i].len(), #[trigger] old(self).roots@[i], old(self).answers@[i])
                &&& forall|i: int| 0 <= i < g ==> logged(p[i], #[trigger] old(self).answers@[i], old(self).log@)
                &&& g < p.len() ==> {
                    &&& old(self).check.wf()
                    &&& old(self).check.size() == p[g].len()
                    &&& logged(p[g], old(self).check.answers(), old(self).log@)
                }
                &&& old(self).out@.map_values(|v: Vec<FileRecord>| members(v@)) == confirm_spec(p.subrange(0, g), old(self).roots@)
                &&& forall|i: int| 0 <= i < old(self).out@.len() ==> dense(#[trigger] old(self).out@[i]@)
                &&& forall|i: int, k: int| 0 <= i < old(self).out@.len() && 0 <= k < old(self).out@[i]@.len()
                    ==> (#[trigger] old(self).out@[i]@[k]).index < old(self).infos@.len()
            }),
        ensures
            final(self).wf(),
            final(self).input() == old(self).input(),
            final(self).infos() == old(self).infos(),
            final(self).log() == old(self).log(),
            final(self).roots().len() >= old(self).roots().len(),
            final(self).roots().subrange(0, old(self).roots().len() as int) == old(self).roots(),
            final(self).answers().subrange(0, old(self).answers().len() as int) == old(self).answers(),
            final(self).g >= old(self).g,
            final(self).g == old(self).g && old(self).g < old(self).files@.len() ==> final(self).check == old(self).check,
    {
        let ghost p = self.input();
        let ghost roots0 = self.roots@;
        let ghost answers0 = self.answers@;
        let ghost g0 = self.g;
        let bound = self.infos.len();
        while self.g < self.files.len() && self.check.next_pair().is_none()
            invariant
                p == self.input(),
                bound == self.infos@.len(),
                self.infos == old(self).infos,
                self.files == old(self).files,
                self.log@ == old(self).log@,
                g0 <= self.g <= p.len(),
                g0 == old(self).g,
                forall|i: int, k: int| 0 <= i < self.files@.len() && 0 <= k < self.files@[i]@.len()
                    ==> (#[trigger] self.files@[i]@[k]).index < bound,
                self.roots@.len() == self.g,
                self.answers@.len() == self.g,
                self.roots@.subrange(0, g0 as int) == roots0,
                self.answers@.subrange(0, g0 as int) == answers0,
                forall|i: int| 0 <= i < self.g ==> confirmed(p[i].len(), #[trigger] self.roots@[i], self.answers@[i]),
                forall|i: int| 0 <= i < self.g ==> logged(p[i], #[trigger] self.answers@[i], self.log@),
                self.g < p.len() ==> {
                    &&& self.check.wf()
                    &&& self.check.size() == p[self.g as int].len()
                    &&& logged(p[self.g as int], self.check.answers(), self.log@)
                },
                self.out@.map_values(|v: Vec<FileRecord>| members(v@)) == confirm_spec(p.subrange(0, self.g as int), self.roots@),
                forall|i: int| 0 <= i < self.out@.len() ==> dense(#[trigger] self.out@[i]@),
                forall|i: int, k: int| 0 <= i < self.out@.len() && 0 <= k < self.out@[i]@.len()
                    ==> (#[trigger] self.out@[i]@[k]).index < bound,
                self.g == g0 && g0 < p.len() ==> self.check == old(self).check,
            decreases self.files@.len() - self.g,
        {
            let g = self.g;
            proof {
                let _ = self.files@[g as int];
                assert(p[g as int] == members(self.files@[g as int]@));
            }
            let ghost before = self.out@.map_values(|v: Vec<FileRecord>| members(v@));
            let ghost r_g = self.check.roots();
            let ghost a_g = self.check.answers();
            let ghost rs_before = self.roots@;
            let mut cl = self.check.classes(&self.files[g], bound);
            let ghost added = cl@.map_values(|v: Vec<FileRecord>| members(v@));
            self.out.append(&mut cl);
            self.roots = Ghost(self.roots@.push(r_g));
            self.answers = Ghost(self.answers@.push(a_g));
            self.g = g + 1;
            proof {
                let p2 = p.subrange(0, g as int + 1);
                assert(p2.drop_last() =~= p.subrange(0, g as int));
                assert(p2.last() == p[g as int]);
                assert(self.roots@.subrange(0, g as int) =~= self.roots@.drop_last());
                assert(confirm_spec(p.subrange(0, g as int), self.roots@) == confirm_spec(p.subrange(0, g as int), self.roots@.drop_last())) by {
                    lemma_confirm_spec_prefix(p.subrange(0, g as int), self.roots@);
                }
                assert(self.out@.map_values(|v: Vec<FileRecord>| members(v@)) =~= before + added);
                assert(self.roots@[g as int] == r_g);
                assert(self.roots@.drop_last() =~= rs_before);
                assert(added == confirmed_classes(p[g as int], r_g));
                assert(before == confirm_spec(p.subrange(0, g as int), rs_before));
                assert(confirm_spec(p2, self.roots@) == confirm_spec(p.subrange(0, g as int), self.roots@)
                    + confirmed_classes(p[g as int], r_g));
                assert(self.roots@.subrange(0, g0 as int) =~= roots0);
                assert(self.answers@.subrange(0, g0 as int) =~= answers0);
            }
            if self.g < self.files.len() {
                self.check = GroupCheck::new(self.files[self.g].len());
                proof {
                    let _ = self.files@[self.g as int];
                }
            }
        }
        proof {
            if self.g < self.files.len() {
                self.check.lemma_state_ok();
            }
        }
    }

    /// The two files, by index, to compare next; `None` once every group has
    /// been checked.
    pub fn next_pair(&self) -> (r: Option<(usize, usize)>)
        requires
            self.wf(),
        ensures
            r is None <==> self.done(),
            r matches Some(p) ==> (p.0 as int, p.1 as int) == self.pending_files() && p.0 < self.infos().len()
                && p.1 < self.infos().len(),
            r matches Some(p) ==> 0 <= self.group() < self.input().len()
                && askable(self.current().roots(), self.input()[self.group()].len(), self.current().pending().0, self.current().pending().1)
                && p.0 as int == self.input()[self.group()][self.current().pending().0]
                && p.1 as int == self.input()[self.group()][self.current().pending().1],
    {
        if self.g < self.files.len() {
            match self.check.next_pair() {
                Some((a, b)) => {
                    proof {
                        let _ = self.files@[self.g as int];
                    }
                    let x = self.files[self.g][a].index;
                    let y = self.files[self.g][b].index;
                    Some((x, y))
                },
                None => None,
            }
        } else {
            None
        }
    }

    /// Records whether the two pending files are identical and moves on.
    pub fn record(&mut self, same: bool)
        requires
            old(self).wf(),
            !old(self).done(),
        ensures
            final(self).wf(),
            final(self).input() == old(self).input(),
            final(self).infos() == old(self).infos(),
            final(self).log() == old(self).log().push((old(self).pending_files(), same)),
            final(self).roots().subrange(0, old(self).roots().len() as int) == old(self).roots(),
            final(self).answers().subrange(0, old(self).answers().len() as int) == old(self).answers(),
            final(self).remaining() < old(self).remaining(),
            final(self).group() >= old(self).group(),
            final(self).group() == old(self).group() ==> {
                let (oc, fc) = (old(self).current(), final(self).current());
                &&& fc.answers() == oc.answers().insert(oc.pending(), same)
                &&& fc.roots() == if same {
                    oc.roots().map_values(|r: int| if r == oc.pending().1 { oc.pending().0 } else { r })
                } else {
                    oc.roots()
                }
                &&& pair_lt(oc.pending(), fc.pending())
                &&& forall|a: int, b: int| #[trigger] askable(fc.roots(), fc.size(), a, b) && pair_lt(oc.pending(), (a, b))
                    ==> !pair_lt((a, b), fc.pending())
            },
    {
        let ghost p = self.input();
        let ghost g = self.g as int;
        let ghost pend = self.check.pending();
        let ghost pf = self.pending_files();
        let ghost old_log = self.log@;
        let ghost old_ans = self.check.answers();
        self.check.record(same);
        self.log = Ghost(self.log@.push((pf, same)));
        proof {
            let m = p[g];
            let na = self.check.answers();
            assert(m == members(self.files@[g]@));
            assert forall|a: int, b: int| 0 <= a < m.len() && 0 <= b < m.len() && #[trigger] na.contains_key((a, b))
                implies self.log@.contains(((m[a], m[b]), na[(a, b)])) by {
                if (a, b) == pend {
                    assert(self.log@[self.log@.len() - 1] == ((m[a], m[b]), na[(a, b)]));
                } else {
                    assert(old_ans.contains_key((a, b)));
                    let t = choose|t: int| 0 <= t < old_log.len() && old_log[t] == ((m[a], m[b]), old_ans[(a, b)]);
                    assert(self.log@[t] == old_log[t]);
                }
            }
            assert forall|i: int| 0 <= i < g implies logged(p[i], #[trigger] self.answers@[i], self.log@) by {
                assert(logged(p[i], self.answers@[i], old_log));
                assert forall|a: int, b: int| 0 <= a < p[i].len() && 0 <= b < p[i].len() && #[trigger] self.answers@[i].contains_key((a, b))
                    implies self.log@.contains(((p[i][a], p[i][b]), self.answers@[i][(a, b)])) by {
                    let t = choose|t: int| 0 <= t < old_log.len() && old_log[t] == ((p[i][a], p[i][b]), self.answers@[i][(a, b)]);
                    assert(self.log@[t] == old_log[t]);
                }
            }
        }
        let ghost mid = *self;
        self.settle();
        proof {
            let p = self.input();
            if self.g != mid.g && !self.done() {
                let g2 = self.g as int;
                self.check.lemma_state_ok();
                assert(budget(p, g2) == p[g2].len() * (p[g2].len() + 1) + 1 + budget(p, g2 + 1));
                lemma_budget_mono(p, g + 1, g2);
            }
        }
    }

    /// The confirmed partition, once every group has been checked: for each
    /// group in order, its classes of at least two members.
    pub fn finish(self) -> (r: FileList)
        requires
            self.wf(),
            self.done(),
        ensures
            r.wf(),
            r.pruned(),
            r.groups() == confirm_spec(self.input(), self.roots()),
            r.infos() == self.infos(),
            self.roots().len() == self.input().len(),
            self.answers().len() == self.input().len(),
            forall|i: int| 0 <= i < self.input().len()
                ==> confirmed(self.input()[i].len(), #[trigger] self.roots()[i], self.answers()[i]),
            forall|i: int| 0 <= i < self.input().len()
                ==> logged(self.input()[i], #[trigger] self.answers()[i], self.log()),
    {
        proof {
            assert(self.input().subrange(0, self.g as int) =~= self.input());
            lemma_confirm_spec_pruned(self.input(), self.roots@);
            assert forall|i: int| 0 <= i < self.input().len() implies (#[trigger] self.roots@[i]).len() >= self.input()[i].len() by {
                assert(confirmed(self.input()[i].len(), self.roots@[i], self.answers@[i]));
            }
            lemma_confirm_distinct(self.input(), self.roots@);
        }
        FileList { infos: self.infos, files: self.out }
    }
}

impl FileList {
    /// Starts the byte-exact confirmation of every group.
    pub fn bitwise_compare(self) -> (r: Confirmation)
        requires
            self.wf(),
        ensures
            r.wf(),
            r.input() == self.groups(),
            r.infos() == self.infos(),
            r.log() == Seq::<((int, int), bool)>::empty(),
            self.groups().len() == 0 ==> r.done(),
    {
        let mut c = Confirmation {
            infos: self.infos,
            files: self.files,
            g: 0,
            check: GroupCheck::new(0),
            out: Vec::new(),
            roots: Ghost(Seq::empty()),
            answers: Ghost(Seq::empty()),
            log: Ghost(Seq::empty()),
        };
        if c.files.len() > 0 {
            c.check = GroupCheck::new(c.files[0].len());
        }
        proof {
            assert(c.out@.map_values(|v: Vec<FileRecord>| members(v@)) =~= confirm_spec(c.input().subrange(0, 0), c.roots@));
        }
        c.settle();
        c
    }
}

/// Soundness and refinement of confirmation over a partition: when every
/// reported answer tells whether the two files are equal under an
/// equivalence `eq`, two files of one confirmed group are equivalent, and
/// they were in one group of the partition confirmed.
pub proof fn lemma_bitwise_sound(
    p: Seq<Seq<int>>,
    roots: Seq<Seq<int>>,
    answers: Seq<Map<(int, int), bool>>,
    log: Seq<((int, int), bool)>,
    eq: spec_fn(int, int) -> bool,
)
    requires
        roots.len() >= p.len(),
        answers.len() >= p.len(),
        forall|i: int| 0 <= i < p.len() ==> confirmed(p[i].len(), #[trigger] roots[i], answers[i]),
        forall|i: int| 0 <= i < p.len() ==> logged(p[i], #[trigger] answers[i], log),
        equivalence(eq),
        forall|t: int| 0 <= t < log.len() ==> (#[trigger] log[t]).1 == eq(log[t].0.0, log[t].0.1),
    ensures
        forall|i: int, x: int, y: int| 0 <= i < confirm_spec(p, roots).len()
            && #[trigger] confirm_spec(p, roots)[i].contains(x) && #[trigger] confirm_spec(p, roots)[i].contains(y)
            ==> eq(x, y) && exists|j: int| 0 <= j < p.len() && p[j].contains(x) && p[j].contains(y),
    decreases p.len(),
{
    if p.len() > 0 {
        let n = p.len() - 1;
        let d = p.drop_last();
        assert forall|i: int| 0 <= i < d.len() implies confirmed(d[i].len(), #[trigger] roots[i], answers[i])
            && logged(d[i], answers[i], log) by {
            assert(d[i] == p[i]);
        }
        lemma_bitwise_sound(d, roots, answers, log, eq);
        let m = p[n];
        assert(m == p.last());
        assert forall|a: int, b: int| 0 <= a < m.len() && 0 <= b < m.len() && #[trigger] answers[n].contains_key((a, b))
            implies answers[n][(a, b)] == eq(m[a], m[b]) by {
            assert(logged(m, answers[n], log));
            let t = choose|t: int| 0 <= t < log.len() && log[t] == ((m[a], m[b]), answers[n][(a, b)]);
            assert(log[t].1 == eq(log[t].0.0, log[t].0.1));
        }
        assert(truthful(m, answers[n], eq));
        lemma_confirm_sound(m, roots[n], answers[n], eq);
        let a = confirm_spec(d, roots);
        let b = confirmed_classes(m, roots[n]);
        assert(confirm_spec(p, roots) == a + b);
        assert forall|i: int, x: int, y: int| 0 <= i < confirm_spec(p, roots).len()
            && #[trigger] confirm_spec(p, roots)[i].contains(x) && #[trigger] confirm_spec(p, roots)[i].contains(y)
            implies eq(x, y) && exists|j: int| 0 <= j < p.len() && p[j].contains(x) && p[j].contains(y) by {
            if i < a.len() {
                assert(confirm_spec(p, roots)[i] == a[i]);
                assert(a[i].contains(x) && a[i].contains(y));
                let j = choose|j: int| 0 <= j < d.len() && d[j].contains(x) && d[j].contains(y);
                assert(p[j] == d[j]);
            } else {
                let q = i - a.len();
                assert(confirm_spec(p, roots)[i] == b[q]);
                let tx = choose|t: int| 0 <= t < b[q].len() && b[q][t] == x;
                let ty = choose|t: int| 0 <= t < b[q].len() && b[q][t] == y;
                assert(eq(b[q][tx], b[q][ty]));
                assert(m.contains(b[q][tx]));
                assert(m.contains(b[q][ty]));
            }
        }
    }
}

/// Completeness of confirmation over a partition: when every reported
/// answer tells whether the two files are equal under `eq`, a group of at
/// least two files that are all equivalent comes out of confirmation whole,
/// as exactly the groups its own check yields.
pub proof fn lemma_bitwise_complete(
    p: Seq<Seq<int>>,
    roots: Seq<Seq<int>>,
    answers: Seq<Map<(int, int), bool>>,
    log: Seq<((int, int), bool)>,
    eq: spec_fn(int, int) -> bool,
    i: int,
)
    requires
        0 <= i < p.len(),
        roots.len() >= p.len(),
        answers.len() >= p.len(),
        confirmed(p[i].len(), roots[i], answers[i]),
        logged(p[i], answers[i], log),
        forall|t: int| 0 <= t < log.len() ==> (#[trigger] log[t]).1 == eq(log[t].0.0, log[t].0.1),
        p[i].len() >= 2,
        forall|a: int, b: int| 0 <= a < p[i].len() && 0 <= b < p[i].len() ==> #[trigger] eq(p[i][a], p[i][b]),
        distinct_members(p),
        forall|j: int| 0 <= j < p.len() ==> (#[trigger] roots[j]).len() >= p[j].len(),
    ensures
        confirmed_classes(p[i], roots[i]) == seq![p[i]],
        confirm_spec(p, roots).contains(p[i]),
        forall|q: int, x: int| 0 <= q < confirm_spec(p, roots).len() && #[trigger] confirm_spec(p, roots)[q].contains(x)
            && p[i].contains(x) ==> confirm_spec(p, roots)[q] == p[i],
    decreases p.len(),
{
    let m = p[i];
    assert forall|a: int, b: int| 0 <= a < m.len() && 0 <= b < m.len() && #[trigger] answers[i].contains_key((a, b))
        implies answers[i][(a, b)] == eq(m[a], m[b]) by {
        let t = choose|t: int| 0 <= t < log.len() && log[t] == ((m[a], m[b]), answers[i][(a, b)]);
        assert(log[t].1 == eq(log[t].0.0, log[t].0.1));
    }
    lemma_confirm_complete(m, roots[i], answers[i], eq);
    let n = p.len() - 1;
    let a = confirm_spec(p.drop_last(), roots);
    let b = confirmed_classes(p.last(), roots[n]);
    assert(confirm_spec(p, roots) == a + b);
    let d = p.drop_last();
    assert(distinct_members(d)) by {
        assert forall|i1: int, k1: int, i2: int, k2: int|
            0 <= i1 < d.len() && 0 <= k1 < d[i1].len() && 0 <= i2 < d.len() && 0 <= k2 < d[i2].len()
                && #[trigger] d[i1][k1] == #[trigger] d[i2][k2] implies i1 == i2 && k1 == k2 by {
            assert(d[i1] == p[i1] && d[i2] == p[i2]);
        }
    }
    assert forall|j: int| 0 <= j < d.len() implies (#[trigger] roots[j]).len() >= d[j].len() by {
        assert(d[j] == p[j]);
    }
    lemma_confirm_distinct(d, roots);
    assert(p[n] == p.last());
    lemma_classes_within(p[n], roots[n]);
    if i == n {
        assert((a + b)[a.len() as int] == b[0]);
        assert forall|q: int, x: int| 0 <= q < (a + b).len() && #[trigger] (a + b)[q].contains(x)
            && m.contains(x) implies (a + b)[q] == m by {
            if q < a.len() {
                assert((a + b)[q] == a[q]);
                let t = choose|t: int| 0 <= t < a[q].len() && a[q][t] == x;
                assert(in_some(d, a[q][t]));
                let j = choose|j: int| 0 <= j < d.len() && d[j].contains(x);
                let kj = choose|k: int| 0 <= k < d[j].len() && d[j][k] == x;
                let km = choose|k: int| 0 <= k < m.len() && m[k] == x;
                assert(d[j] == p[j]);
                assert(p[j][kj] == p[n][km]);
            } else {
                assert((a + b)[q] == b[q - a.len()]);
            }
        }
    } else {
        assert(d[i] == m);
        lemma_bitwise_complete(d, roots, answers, log, eq, i);
        let k = choose|k: int| 0 <= k < a.len() && a[k] == m;
        assert((a + b)[k] == a[k]);
        assert forall|q: int, x: int| 0 <= q < (a + b).len() && #[trigger] (a + b)[q].contains(x)
            && m.contains(x) implies (a + b)[q] == m by {
            if q < a.len() {
                assert((a + b)[q] == a[q]);
            } else {
                let qb = q - a.len();
                assert((a + b)[q] == b[qb]);
                let t = choose|t: int| 0 <= t < b[qb].len() && b[qb][t] == x;
                assert(p[n].contains(b[qb][t]));
                let kn = choose|k: int| 0 <= k < p[n].len() && p[n][k] == x;
                let km = choose|k: int| 0 <= k < m.len() && m[k] == x;
                assert(p[n][kn] == p[i][km]);
            }
        }
    }
}

/// The groups confirmation makes of a partition without repeated files have
/// none, and hold only files of the partition.
pub proof fn lemma_confirm_distinct(p: Seq<Seq<int>>, roots: Seq<Seq<int>>)
    requires
        distinct_members(p),
        roots.len() >= p.len(),
        forall|i: int| 0 <= i < p.len() ==> (#[trigger] roots[i]).len() >= p[i].len(),
    ensures
        distinct_members(confirm_spec(p, roots)),
        forall|i: int, k: int| 0 <= i < confirm_spec(p, roots).len() && 0 <= k < confirm_spec(p, roots)[i].len()
            ==> in_some(p, #[trigger] confirm_spec(p, roots)[i][k]),
    decreases p.len(),
{
    if p.len() > 0 {
        let d = p.drop_last();
        let n = p.len() - 1;
        assert(distinct_members(d)) by {
            assert forall|i1: int, k1: int, i2: int, k2: int|
                0 <= i1 < d.len() && 0 <= k1 < d[i1].len() && 0 <= i2 < d.len() && 0 <= k2 < d[i2].len()
                    && #[trigger] d[i1][k1] == #[trigger] d[i2][k2] implies i1 == i2 && k1 == k2 by {
                assert(d[i1] == p[i1] && d[i2] == p[i2]);
            }
        }
        assert forall|i: int| 0 <= i < d.len() implies (#[trigger] roots[i]).len() >= d[i].len() by {
            assert(d[i] == p[i]);
        }
        lemma_confirm_distinct(d, roots);
        let m = p[n];
        assert(m == p.last());
        let rt = roots[n];
        let a = confirm_spec(d, roots);
        let cls = crate::bitwise::root_classes(m, rt);
        let b = keep_pairs(cls);
        assert(confirm_spec(p, roots) == a + b);
        assert(distinct_members(cls)) by {
            assert forall|i1: int, k1: int, i2: int, k2: int|
                0 <= i1 < cls.len() && 0 <= k1 < cls[i1].len() && 0 <= i2 < cls.len() && 0 <= k2 < cls[i2].len()
                    && #[trigger] cls[i1][k1] == #[trigger] cls[i2][k2] implies i1 == i2 && k1 == k2 by {
                crate::bitwise::lemma_root_class_members(m, rt, i1);
                crate::bitwise::lemma_root_class_members(m, rt, i2);
                assert(crate::bitwise::leader(rt, i1));
                assert(crate::bitwise::leader(rt, i2));
                let x1 = choose|k: int| 0 <= k < m.len() && rt[k] == i1 && cls[i1][k1] == m[k];
                let x2 = choose|k: int| 0 <= k < m.len() && rt[k] == i2 && cls[i2][k2] == m[k];
                assert(p[n][x1] == p[n][x2]);
                lemma_root_class_distinct(m, rt, i1);
            }
        }
        lemma_keep_pairs_distinct(cls);
        lemma_keep_pairs_origin(cls);
        assert forall|i: int, k: int| 0 <= i < b.len() && 0 <= k < b[i].len()
            implies #[trigger] m.contains(b[i][k]) by {
            let c = choose|c: int| 0 <= c < cls.len() && b[i] == cls[c];
            assert(crate::bitwise::leader(rt, c));
            crate::bitwise::lemma_root_class_members(m, rt, c);
            let x = choose|x: int| 0 <= x < m.len() && rt[x] == c && cls[c][k] == m[x];
        }
        assert forall|i: int, k: int| 0 <= i < (a + b).len() && 0 <= k < (a + b)[i].len()
            implies in_some(p, #[trigger] (a + b)[i][k]) by {
            if i < a.len() {
                assert((a + b)[i] == a[i]);
                assert(in_some(d, a[i][k]));
                let j = choose|j: int| 0 <= j < d.len() && d[j].contains(a[i][k]);
                assert(p[j] == d[j]);
            } else {
                assert((a + b)[i] == b[i - a.len()]);
                assert(m.contains(b[i - a.len()][k]));
                assert(p[n].contains((a + b)[i][k]));
            }
        }
        assert forall|i1: int, k1: int, i2: int, k2: int|
            0 <= i1 < (a + b).len() && 0 <= k1 < (a + b)[i1].len() && 0 <= i2 < (a + b).len()
                && 0 <= k2 < (a + b)[i2].len() && #[trigger] (a + b)[i1][k1] == #[trigger] (a + b)[i2][k2]
            implies i1 == i2 && k1 == k2 by {
            let na = a.len() as int;
            if i1 < na && i2 < na {
                assert((a + b)[i1] == a[i1] && (a + b)[i2] == a[i2]);
            } else if i1 >= na && i2 >= na {
                assert((a + b)[i1] == b[i1 - na] && (a + b)[i2] == b[i2 - na]);
            } else {
                let (ia, ka, ib, kb) = if i1 < na { (i1, k1, i2 - na, k2) } else { (i2, k2, i1 - na, k1) };
                assert((a + b)[ia] == a[ia]);
                assert((a + b)[ib + na] == b[ib]);
                assert(in_some(d, a[ia][ka]));
                let j = choose|j: int| 0 <= j < d.len() && d[j].contains(a[ia][ka]);
                let kd = choose|k: int| 0 <= k < d[j].len() && d[j][k] == a[ia][ka];
                assert(m.contains(b[ib][kb]));
                let km = choose|k: int| 0 <= k < m.len() && m[k] == b[ib][kb];
                assert(d[j] == p[j]);
                assert(p[j][kd] == p[n][km]);
            }
        }
    }
}

/// Each file in a confirmed group of `m` is a member of `m`.
proof fn lemma_classes_within(m: Seq<int>, rt: Seq<int>)
    requires
        rt.len() >= m.len(),
    ensures
        forall|i: int, k: int| 0 <= i < confirmed_classes(m, rt).len() && 0 <= k < confirmed_classes(m, rt)[i].len()
            ==> m.contains(#[trigger] confirmed_classes(m, rt)[i][k]),
{
    let cls = crate::bitwise::root_classes(m, rt);
    let b = keep_pairs(cls);
    lemma_keep_pairs_origin(cls);
    assert forall|i: int, k: int| 0 <= i < b.len() && 0 <= k < b[i].len() implies m.contains(#[trigger] b[i][k]) by {
        let c = choose|c: int| 0 <= c < cls.len() && b[i] == cls[c];
        crate::bitwise::lemma_root_class_members(m, rt, c);
        if crate::bitwise::leader(rt, c) {
            let x = choose|x: int| 0 <= x < m.len() && rt[x] == c && cls[c][k] == m[x];
        }
    }
}

/// `x` is a member of some group of `p`.
pub open spec fn in_some(p: Seq<Seq<int>>, x: int) -> bool {
    exists|j: int| 0 <= j < p.len() && p[j].contains(x)
}

/// A class of members without repeats has no repeats.
proof fn lemma_root_class_distinct(m: Seq<int>, roots: Seq<int>, r: int)
    requires
        roots.len() >= m.len(),
        forall|x: int, y: int| 0 <= x < m.len() && 0 <= y < m.len() && m[x] == m[y] ==> x == y,
    ensures
        crate::bitwise::root_class(m, roots, r).no_duplicates(),
    decreases m.len(),
{
    if m.len() > 0 {
        let d = m.drop_last();
        assert forall|x: int, y: int| 0 <= x < d.len() && 0 <= y < d.len() && d[x] == d[y] implies x == y by {
            assert(d[x] == m[x] && d[y] == m[y]);
        }
        lemma_root_class_distinct(d, roots, r);
        crate::bitwise::lemma_root_class_members(d, roots, r);
        let c = crate::bitwise::root_class(d, roots, r);
        if roots[m.len() - 1] == r {
            assert forall|a: int, b: int| 0 <= a < b < c.len() + 1 implies c.push(m.last())[a] != c.push(m.last())[b] by {
                if b == c.len() {
                    let k = choose|k: int| 0 <= k < d.len() && roots[k] == r && c[a] == d[k];
                    assert(m[k] == d[k]);
                } else {
                    assert(c.push(m.last())[a] == c[a]);
                    assert(c.push(m.last())[b] == c[b]);
                }
            }
        }
    }
}

/// Reordering groups and rearranging their members keeps files unrepeated.
pub proof fn lemma_regrouped_distinct(p: Seq<Seq<int>>, q: Seq<Seq<int>>, gp: Seq<usize>)
    requires
        distinct_members(p),
        regrouped(p, q, gp),
    ensures
        distinct_members(q),
{
    assert forall|i1: int, k1: int, i2: int, k2: int|
        0 <= i1 < q.len() && 0 <= k1 < q[i1].len() && 0 <= i2 < q.len() && 0 <= k2 < q[i2].len()
            && #[trigger] q[i1][k1] == #[trigger] q[i2][k2] implies i1 == i2 && k1 == k2 by {
        assert(is_rearranged(p[gp[i1] as int], q[i1]));
        assert(is_rearranged(p[gp[i2] as int], q[i2]));
        let s1 = choose|s: Seq<usize>| rearranged(p[gp[i1] as int], q[i1], s);
        let s2 = choose|s: Seq<usize>| rearranged(p[gp[i2] as int], q[i2], s);
        assert(q[i1][k1] == p[gp[i1] as int][s1[k1] as int]);
        assert(q[i2][k2] == p[gp[i2] as int][s2[k2] as int]);
        assert(gp[i1] < p.len() && gp[i2] < p.len());
        assert(s1[k1] < p[gp[i1] as int].len());
        assert(s2[k2] < p[gp[i2] as int].len());
        assert(gp[i1] == gp[i2]);
        if i1 != i2 {
            assert(gp[i1] != gp[i2]);
        }
        assert(s1 == s2);
    }
}

/// `confirm_spec` reads only the representatives of the groups it is given.
pub proof fn lemma_confirm_spec_prefix(p: Seq<Seq<int>>, roots: Seq<Seq<int>>)
    requires
        roots.len() >= p.len(),
    ensures
        confirm_spec(p, roots) == confirm_spec(p, roots.subrange(0, p.len() as int)),
    decreases p.len(),
{
    if p.len() > 0 {
        lemma_confirm_spec_prefix(p.drop_last(), roots);
        lemma_confirm_spec_prefix(p.drop_last(), roots.subrange(0, p.len() as int));
        assert(roots.subrange(0, p.len() as int).subrange(0, p.len() - 1) =~= roots.subrange(0, p.len() - 1));
    }
}

/// Every confirmed group has at least two members.
pub proof fn lemma_confirm_spec_pruned(p: Seq<Seq<int>>, roots: Seq<Seq<int>>)
    ensures
        forall|i: int| 0 <= i < confirm_spec(p, roots).len() ==> #[trigger] confirm_spec(p, roots)[i].len() >= 2,
    decreases p.len(),
{
    if p.len() > 0 {
        lemma_confirm_spec_pruned(p.drop_last(), roots);
        let a = confirm_spec(p.drop_last(), roots);
        let b = confirmed_classes(p.last(), roots[p.len() - 1]);
        lemma_keep_pairs(crate::bitwise::root_classes(p.last(), roots[p.len() - 1]));
        assert forall|i: int| 0 <= i < (a + b).len() implies #[trigger] (a + b)[i].len() >= 2 by {
            if i >= a.len() {
                assert((a + b)[i] == b[i - a.len()]);
            } else {
                assert((a + b)[i] == a[i]);
            }
        }
    }
}

} // verus!
