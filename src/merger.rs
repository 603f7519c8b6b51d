//! Disjoint sets over `0..n` with path compression. When two classes merge,
//! the representative of the first argument's class survives.
use vstd::prelude::*;

verus! {

/// Each element's representative is an element that represents itself.
pub open spec fn canonical(roots: Seq<int>) -> bool {
    forall|x: int| 0 <= x < roots.len() ==> 0 <= #[trigger] roots[x] < roots.len() && roots[roots[x]] == roots[x]
}

pub struct Merger {
    parent: Vec<usize>,
    /// Representative of each element.
    roots: Ghost<Seq<int>>,
    /// Strictly increases from an element to its parent; bounds recursion in `belongs`.
    rank: Ghost<Seq<nat>>,
    max_rank: Ghost<nat>,
}

impl Merger {
    /// The representative of each element.
    pub closed spec fn view(&self) -> Seq<int> {
        self.roots@
    }

    /// How many more parent links `belongs` may follow from `x`, at most.
    pub closed spec fn height(&self, x: int) -> int {
        self.max_rank@ - self.rank@[x]
    }

    pub closed spec fn wf(&self) -> bool {
        let n = self.parent@.len();
        &&& self.roots@.len() == n
        &&& self.rank@.len() == n
        &&& forall|x: int| 0 <= x < n ==> {
            let p = #[trigger] self.parent@[x] as int;
            let r = self.roots@[x];
            &&& 0 <= p < n
            &&& 0 <= r < n
            &&& self.roots@[r] == r
            &&& self.roots@[p] == r
            &&& (p == x <==> r == x)
            &&& self.rank@[x] <= self.max_rank@
            &&& (p != x ==> self.rank@[x] < self.rank@[p])
            &&& (p != x ==> self.rank@[x] < self.rank@[r])
        }
    }

    /// Every element of `0..n` alone in its class.
    pub fn new(n: usize) -> (r: Merger)
        ensures
            r.wf(),
            canonical(r@),
            r@ == Seq::new(n as nat, |i: int| i),
    {
        let mut parent: Vec<usize> = Vec::new();
        let mut i: usize = 0;
        while i < n
            invariant
                i <= n,
                parent@.len() == i,
                forall|k: int| 0 <= k < i ==> parent@[k] == k,
            decreases n - i,
        {
            parent.push(i);
            i += 1;
        }
        let r = Merger {
            parent,
            roots: Ghost(Seq::new(n as nat, |i: int| i)),
            rank: Ghost(Seq::new(n as nat, |i: int| 0nat)),
            max_rank: Ghost(0nat),
        };
        proof {
            r.lemma_canonical();
        }
        r
    }

    /// Every well-formed merger has a canonical view.
    pub proof fn lemma_canonical(&self)
        requires
            self.wf(),
        ensures
            canonical(self@),
    {
        assert forall|x: int| 0 <= x < self@.len() implies 0 <= #[trigger] self@[x] < self@.len() && self@[self@[x]] == self@[x] by {
            let _ = self.parent@[x];
        }
    }

    pub fn len(&self) -> (r: usize)
        requires
            self.wf(),
        ensures
            r == self@.len(),
    {
        self.parent.len()
    }

    /// The representative of `x`; shortens the path from `x` on the way.
    pub fn belongs(&mut self, x: usize) -> (r: usize)
        requires
            old(self).wf(),
            x < old(self)@.len(),
        ensures
            final(self).wf(),
            canonical(final(self)@),
            final(self)@ == old(self)@,
            r == old(self)@[x as int],
            r < final(self)@.len(),
            final(self)@[r as int] == r,
        decreases old(self).height(x as int),
    {
        let p = self.parent[x];
        if p != x {
            proof {
                let _ = self.parent@[x as int];
                let _ = self.parent@[p as int];
            }
            let r = self.belongs(p);
            let ghost mid = self.parent@;
            proof {
                let _ = mid[x as int];
            }
            self.parent.set(x, r);
            proof {
                let n = self.parent@.len();
                assert forall|z: int| 0 <= z < n implies {
                    let q = #[trigger] self.parent@[z] as int;
                    let rz = self.roots@[z];
                    &&& 0 <= q < n
                    &&& 0 <= rz < n
                    &&& self.roots@[rz] == rz
                    &&& self.roots@[q] == rz
                    &&& (q == z <==> rz == z)
                    &&& self.rank@[z] <= self.max_rank@
                    &&& (q != z ==> self.rank@[z] < self.rank@[q])
                    &&& (q != z ==> self.rank@[z] < self.rank@[rz])
                } by {
                    if z != x {
                        assert(self.parent@[z] == mid[z]);
                        let _ = mid[z];
                    }
                }
            }
            proof {
                self.lemma_canonical();
            }
            r
        } else {
            proof {
                self.lemma_canonical();
                let _ = self.parent@[x as int];
            }
            x
        }
    }

    /// Joins the classes of `x` and `y`; the representative of `x` stays.
    pub fn merge(&mut self, x: usize, y: usize)
        requires
            old(self).wf(),
            x < old(self)@.len(),
            y < old(self)@.len(),
        ensures
            final(self).wf(),
            canonical(final(self)@),
            final(self)@ == old(self)@.map_values(
                |r: int| if r == old(self)@[y as int] { old(self)@[x as int] } else { r },
            ),
    {
        let px = self.belongs(x);
        let py = self.belongs(y);
        proof {
            let _ = self.parent@[x as int];
            let _ = self.parent@[y as int];
        }
        if px != py {
            let ghost old_roots = self.roots@;
            let ghost old_rank = self.rank@;
            let ghost old_parent = self.parent@;
            self.parent.set(py, px);
            let ghost new_px_rank: nat = if old_rank[px as int] > old_rank[py as int] {
                old_rank[px as int]
            } else {
                old_rank[py as int] + 1
            };
            self.rank = Ghost(old_rank.update(px as int, new_px_rank));
            self.max_rank = Ghost(if new_px_rank > self.max_rank@ { new_px_rank } else { self.max_rank@ });
            self.roots = Ghost(old_roots.map_values(
                |r: int| if r == py as int { px as int } else { r },
            ));
            proof {
                let n = self.parent@.len();
                assert forall|z: int| 0 <= z < n implies {
                    let q = #[trigger] self.parent@[z] as int;
                    let rz = self.roots@[z];
                    &&& 0 <= q < n
                    &&& 0 <= rz < n
                    &&& self.roots@[rz] == rz
                    &&& self.roots@[q] == rz
                    &&& (q == z <==> rz == z)
                    &&& self.rank@[z] <= self.max_rank@
                    &&& (q != z ==> self.rank@[z] < self.rank@[q])
                    &&& (q != z ==> self.rank@[z] < self.rank@[rz])
                } by {
                    let _ = old_parent[z];
                    let _ = old_parent[px as int];
                    let _ = old_parent[py as int];
                    if z != py as int {
                        assert(self.parent@[z] == old_parent[z]);
                    }
                }
            }
        } else {
            assert(self.roots@ =~= self.roots@.map_values(
                |r: int| if r == py as int { px as int } else { r },
            ));
        }
        proof {
            self.lemma_canonical();
        }
    }
}

} // verus!
