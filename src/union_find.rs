//! Union-find with path compression and union by size.

use vstd::prelude::*;
use vstd::set_lib::{lemma_int_range, lemma_len_subset, lemma_set_disjoint_lens, set_int_range};

verus! {

/// Following parents from `i` up to a root. Each step goes to a strictly
/// higher rank, and ranks stay below the number of elements.
pub open spec fn root_of(parent: Seq<usize>, rank: Seq<nat>, i: int) -> int
    decreases parent.len() - rank[i],
{
    if 0 <= i < parent.len() && parent[i] != i && parent[i] < parent.len() && rank[i]
        < rank[parent[i] as int] && rank[parent[i] as int] < parent.len() {
        root_of(parent, rank, parent[i] as int)
    } else {
        i
    }
}

/// A forest on `0..n` whose parent links climb strictly in rank.
pub open spec fn ranks_ok(parent: Seq<usize>, rank: Seq<nat>) -> bool {
    &&& rank.len() == parent.len()
    &&& forall|i: int| 0 <= i < parent.len() ==> #[trigger] parent[i] < parent.len()
    &&& forall|i: int| 0 <= i < parent.len() ==> #[trigger] rank[i] < parent.len()
    &&& forall|i: int|
        0 <= i < parent.len() && #[trigger] parent[i] != i ==> rank[i] < rank[parent[i] as int]
}

/// The elements whose root is `r`.
pub open spec fn class_of(parent: Seq<usize>, rank: Seq<nat>, r: int) -> Set<int> {
    Set::new(|x: int| 0 <= x < parent.len() && root_of(parent, rank, x) == r)
}

pub proof fn lemma_root(parent: Seq<usize>, rank: Seq<nat>, i: int)
    requires
        ranks_ok(parent, rank),
        0 <= i < parent.len(),
    ensures
        0 <= root_of(parent, rank, i) < parent.len(),
        parent[root_of(parent, rank, i)] == root_of(parent, rank, i),
        rank[root_of(parent, rank, i)] >= rank[i],
        root_of(parent, rank, i) != i ==> rank[root_of(parent, rank, i)] > rank[i],
        parent[i] != i ==> root_of(parent, rank, i) == root_of(parent, rank, parent[i] as int),
        parent[i] == i ==> root_of(parent, rank, i) == i,
    decreases parent.len() - rank[i],
{
    if parent[i] != i {
        assert(rank[parent[i] as int] < parent.len());
        lemma_root(parent, rank, parent[i] as int);
    }
}

proof fn lemma_class_finite(parent: Seq<usize>, rank: Seq<nat>, r: int)
    ensures
        class_of(parent, rank, r).finite(),
        class_of(parent, rank, r).len() <= parent.len(),
{
    lemma_int_range(0, parent.len() as int);
    lemma_len_subset(class_of(parent, rank, r), set_int_range(0, parent.len() as int));
}

proof fn lemma_compress_at(parent: Seq<usize>, rank: Seq<nat>, i: int, x: int)
    requires
        ranks_ok(parent, rank),
        0 <= i < parent.len(),
        parent[i] != i,
        ranks_ok(parent.update(i, root_of(parent, rank, i) as usize), rank),
        0 <= x < parent.len(),
    ensures
        root_of(parent.update(i, root_of(parent, rank, i) as usize), rank, x) == root_of(
            parent,
            rank,
            x,
        ),
    decreases parent.len() - rank[x],
{
    let p2 = parent.update(i, root_of(parent, rank, i) as usize);
    lemma_root(parent, rank, x);
    lemma_root(p2, rank, x);
    lemma_root(parent, rank, i);
    if x == i {
        let r = root_of(parent, rank, i);
        lemma_root(p2, rank, r);
        assert(p2[r] == r);
    } else if parent[x] != x {
        assert(rank[parent[x] as int] < parent.len());
        lemma_compress_at(parent, rank, i, parent[x] as int);
    }
}

/// Pointing a non-root straight at its root changes no element's root.
proof fn lemma_compress(parent: Seq<usize>, rank: Seq<nat>, i: int)
    requires
        ranks_ok(parent, rank),
        0 <= i < parent.len(),
        parent[i] != i,
    ensures
        ranks_ok(parent.update(i, root_of(parent, rank, i) as usize), rank),
        forall|x: int|
            0 <= x < parent.len() ==> #[trigger] root_of(
                parent.update(i, root_of(parent, rank, i) as usize),
                rank,
                x,
            ) == root_of(parent, rank, x),
{
    lemma_root(parent, rank, i);
    let p2 = parent.update(i, root_of(parent, rank, i) as usize);
    assert forall|x: int| 0 <= x < p2.len() && #[trigger] p2[x] != x implies rank[x] < rank[p2[x] as int] by {
        if x != i {
            assert(p2[x] == parent[x]);
        }
    }
    assert forall|x: int| 0 <= x < parent.len() implies #[trigger] root_of(p2, rank, x) == root_of(
        parent,
        rank,
        x,
    ) by {
        lemma_compress_at(parent, rank, i, x);
    }
}

proof fn lemma_link_at(parent: Seq<usize>, rank: Seq<nat>, a: int, b: int, rank2: Seq<nat>, x: int)
    requires
        ranks_ok(parent, rank),
        0 <= a < parent.len(),
        0 <= b < parent.len(),
        a != b,
        parent[a] == a,
        parent[b] == b,
        ranks_ok(parent.update(a, b as usize), rank2),
        rank2 == rank.update(b, rank2[b]),
        0 <= x < parent.len(),
    ensures
        root_of(parent.update(a, b as usize), rank2, x) == if root_of(parent, rank, x) == a {
            b
        } else {
            root_of(parent, rank, x)
        },
    decreases parent.len() - rank[x],
{
    let p2 = parent.update(a, b as usize);
    lemma_root(parent, rank, x);
    lemma_root(p2, rank2, x);
    if x == a {
        lemma_root(p2, rank2, b);
    } else if parent[x] != x {
        assert(rank[parent[x] as int] < parent.len());
        lemma_link_at(parent, rank, a, b, rank2, parent[x] as int);
    }
}

/// Hanging root `a` under root `b` sends the class of `a` to `b` and leaves
/// every other root alone.
proof fn lemma_link(parent: Seq<usize>, rank: Seq<nat>, a: int, b: int, rank2: Seq<nat>)
    requires
        ranks_ok(parent, rank),
        0 <= a < parent.len(),
        0 <= b < parent.len(),
        a != b,
        parent[a] == a,
        parent[b] == b,
        rank2 == rank.update(b, rank2[b]),
        rank2[b] >= rank[b],
        rank2[b] > rank[a],
        rank2[b] < parent.len(),
    ensures
        ranks_ok(parent.update(a, b as usize), rank2),
        forall|x: int|
            0 <= x < parent.len() ==> #[trigger] root_of(parent.update(a, b as usize), rank2, x)
                == if root_of(parent, rank, x) == a {
                b
            } else {
                root_of(parent, rank, x)
            },
{
    let p2 = parent.update(a, b as usize);
    assert forall|x: int| 0 <= x < p2.len() && #[trigger] p2[x] != x implies rank2[x] < rank2[p2[x] as int] by {
        if x != a {
            assert(p2[x] == parent[x]);
            assert(x != b);
        }
    }
    assert forall|x: int| 0 <= x < p2.len() implies #[trigger] rank2[x] < p2.len() by {
        if x != b {
            assert(rank2[x] == rank[x]);
        }
    }
    assert forall|x: int| 0 <= x < parent.len() implies #[trigger] root_of(p2, rank2, x) == if root_of(
        parent,
        rank,
        x,
    ) == a {
        b
    } else {
        root_of(parent, rank, x)
    } by {
        lemma_link_at(parent, rank, a, b, rank2, x);
    }
}

/// Union-find over `0..n` with path compression and union by size. `rank`
/// is a proof-only height bound that orders each parent link.
pub struct DisjointSet {
    pub parent: Vec<usize>,
    pub size: Vec<usize>,
    pub rank: Ghost<Seq<nat>>,
}

impl DisjointSet {
    pub open spec fn n(&self) -> nat {
        self.parent@.len()
    }

    /// The representative of element `i`.
    pub open spec fn root(&self, i: int) -> int {
        root_of(self.parent@, self.rank@, i)
    }

    pub open spec fn wf(&self) -> bool {
        &&& ranks_ok(self.parent@, self.rank@)
        &&& self.size@.len() == self.parent@.len()
        &&& forall|r: int|
            0 <= r < self.parent@.len() && #[trigger] self.parent@[r] == r ==> self.size@[r]
                == class_of(self.parent@, self.rank@, r).len() && self.rank@[r] < self.size@[r]
    }

    /// `n` singleton classes.
    pub fn new(n: usize) -> (d: Self)
        ensures
            d.wf(),
            d.n() == n,
            forall|i: int| 0 <= i < n ==> #[trigger] d.root(i) == i,
    {
        let mut parent: Vec<usize> = Vec::new();
        let mut i: usize = 0;
        while i < n
            invariant
                0 <= i <= n,
                parent@.len() == i,
                forall|k: int| 0 <= k < i ==> #[trigger] parent@[k] == k,
            decreases n - i,
        {
            parent.push(i);
            i = i + 1;
        }
        let size = vec![1usize; n];
        let ghost rank = Seq::new(n as nat, |k: int| 0nat);
        let d = DisjointSet { parent, size, rank: Ghost(rank) };
        assert forall|r: int| 0 <= r < n implies #[trigger] d.root(r) == r by {
            lemma_root(d.parent@, d.rank@, r);
        }
        assert forall|r: int|
            0 <= r < n && #[trigger] d.parent@[r] == r implies d.size@[r] == class_of(
                d.parent@,
                d.rank@,
                r,
            ).len() && d.rank@[r] < d.size@[r] by {
            assert(class_of(d.parent@, d.rank@, r) =~= set![r]);
        }
        d
    }

    /// The representative of `i`; every element on the way is pointed
    /// straight at it.
    pub fn find(&mut self, i: usize) -> (r: usize)
        requires
            old(self).wf(),
            i < old(self).n(),
        ensures
            final(self).wf(),
            final(self).n() == old(self).n(),
            r == old(self).root(i as int),
            r < old(self).n(),
            final(self).parent@[i as int] == r,
            final(self).rank@ == old(self).rank@,
            final(self).size@ == old(self).size@,
            forall|x: int|
                0 <= x < old(self).n() ==> #[trigger] root_of(final(self).parent@, final(self).rank@, x)
                    == root_of(old(self).parent@, old(self).rank@, x),
        decreases old(self).n() - old(self).rank@[i as int],
    {
        let ghost old_parent = self.parent@;
        proof {
            lemma_root(self.parent@, self.rank@, i as int);
        }
        let p = self.parent[i];
        if p == i {
            return i;
        }
        proof {
            assert(self.rank@[p as int] < self.n());
        }
        let root = self.find(p);
        let ghost mid = self.parent@;
        let ghost rank = self.rank@;
        proof {
            lemma_root(mid, rank, i as int);
            assert(root_of(mid, rank, i as int) == root_of(old_parent, rank, i as int));
            assert(root_of(old_parent, rank, i as int) == root_of(old_parent, rank, p as int));
            assert(root_of(mid, rank, i as int) == root);
            assert(mid[i as int] != i);
        }
        self.parent.set(i, root);
        proof {
            lemma_compress(mid, rank, i as int);
            assert(self.parent@ == mid.update(i as int, root_of(mid, rank, i as int) as usize));
            assert forall|r: int|
                0 <= r < self.parent@.len() && #[trigger] self.parent@[r] == r implies self.size@[r]
                    == class_of(self.parent@, self.rank@, r).len() && self.rank@[r] < self.size@[r] by {
                assert(r != i);
                assert(mid[r] == r);
                assert(class_of(self.parent@, self.rank@, r) =~= class_of(mid, rank, r));
            }
            assert forall|x: int| 0 <= x < old_parent.len() implies #[trigger] root_of(
                self.parent@,
                rank,
                x,
            ) == root_of(old_parent, rank, x) by {
                assert(root_of(self.parent@, rank, x) == root_of(mid, rank, x));
                assert(root_of(mid, rank, x) == root_of(old_parent, rank, x));
            }
        }
        root
    }

    /// Hangs root `a` under root `b`.
    fn link(&mut self, a: usize, b: usize)
        requires
            old(self).wf(),
            a < old(self).n(),
            b < old(self).n(),
            a != b,
            old(self).parent@[a as int] == a,
            old(self).parent@[b as int] == b,
            old(self).size@[a as int] <= old(self).size@[b as int],
        ensures
            final(self).wf(),
            final(self).parent@ == old(self).parent@.update(a as int, b),
            final(self).size@[b as int] == old(self).size@[a as int] + old(self).size@[b as int],
            final(self).n() == old(self).n(),
            forall|x: int|
                0 <= x < old(self).n() ==> #[trigger] root_of(final(self).parent@, final(self).rank@, x)
                    == if old(self).root(x) == a {
                    b as int
                } else {
                    old(self).root(x)
                },
    {
        let ghost parent = self.parent@;
        let ghost rank = self.rank@;
        let ghost ca = class_of(parent, rank, a as int);
        let ghost cb = class_of(parent, rank, b as int);
        proof {
            lemma_class_finite(parent, rank, a as int);
            lemma_class_finite(parent, rank, b as int);
            assert(ca.disjoint(cb));
            lemma_set_disjoint_lens(ca, cb);
            lemma_class_finite(parent, rank, -1);
            lemma_int_range(0, parent.len() as int);
            lemma_len_subset(ca + cb, set_int_range(0, parent.len() as int));
        }
        proof {
            assert(self.parent@[a as int] == a);
            assert(self.parent@[b as int] == b);
        }
        let _n = self.parent.len();
        let sa = self.size[a];
        let sb = self.size[b];
        self.parent.set(a, b);
        self.size.set(b, sa + sb);
        let ghost new_rank: nat = if rank[b as int] > rank[a as int] {
            rank[b as int]
        } else {
            rank[a as int] + 1
        };
        let ghost rank2 = rank.update(b as int, new_rank);
        self.rank = Ghost(rank2);
        proof {
            lemma_link(parent, rank, a as int, b as int, rank2);
            assert forall|r: int|
                0 <= r < self.parent@.len() && #[trigger] self.parent@[r] == r implies self.size@[r]
                    == class_of(self.parent@, self.rank@, r).len() && self.rank@[r] < self.size@[r] by {
                assert(r != a);
                if r == b {
                    assert(class_of(self.parent@, self.rank@, r) =~= ca + cb);
                } else {
                    assert(parent[r] == r);
                    assert forall|x: int| class_of(self.parent@, self.rank@, r).contains(x) == class_of(
                        parent,
                        rank,
                        r,
                    ).contains(x) by {
                        if 0 <= x < parent.len() {
                            lemma_root(parent, rank, x);
                        }
                    }
                    assert(class_of(self.parent@, self.rank@, r) =~= class_of(parent, rank, r));
                }
            }
        }
    }

    /// Merges the classes of `i` and `j`.
    pub fn union(&mut self, i: usize, j: usize)
        requires
            old(self).wf(),
            i < old(self).n(),
            j < old(self).n(),
        ensures
            final(self).wf(),
            final(self).n() == old(self).n(),
            final(self).root(i as int) == final(self).root(j as int),
            old(self).root(i as int) != old(self).root(j as int) ==> {
                let ri = old(self).root(i as int);
                let rj = old(self).root(j as int);
                let total = old(self).size@[ri] + old(self).size@[rj];
                if old(self).size@[ri] < old(self).size@[rj] {
                    final(self).parent@[ri] == rj && final(self).size@[rj] == total
                } else {
                    final(self).parent@[rj] == ri && final(self).size@[ri] == total
                }
            },
            final(self).root(i as int) == old(self).root(i as int) || final(self).root(i as int)
                == old(self).root(j as int),
            forall|x: int|
                0 <= x < old(self).n() ==> #[trigger] root_of(final(self).parent@, final(self).rank@, x)
                    == if old(self).root(x) == old(self).root(i as int) || old(self).root(x) == old(
                    self,
                ).root(j as int) {
                    final(self).root(i as int)
                } else {
                    old(self).root(x)
                },
    {
        let ghost p0 = self.parent@;
        let ghost r0 = self.rank@;
        let ghost s0 = self.size@;
        let root_i = self.find(i);
        let root_j = self.find(j);
        let ghost p1 = self.parent@;
        proof {
            assert forall|x: int| 0 <= x < p0.len() implies #[trigger] root_of(p1, r0, x) == root_of(
                p0,
                r0,
                x,
            ) by {
                assert(root_of(p1, r0, x) == root_of(self.parent@, self.rank@, x));
            }
            lemma_root(self.parent@, self.rank@, i as int);
            lemma_root(self.parent@, self.rank@, j as int);
            assert(self.root(i as int) == root_i);
            assert(self.root(j as int) == root_j);
            assert(root_i == root_of(p0, r0, i as int));
            assert(root_j == root_of(p0, r0, j as int));
            assert(self.size@ == s0);
        }
        if root_i != root_j {
            if self.size[root_i] < self.size[root_j] {
                self.link(root_i, root_j);
            } else {
                self.link(root_j, root_i);
            }
        }
        proof {
            assert forall|x: int| 0 <= x < p0.len() implies #[trigger] root_of(self.parent@, self.rank@, x)
                == if root_of(p0, r0, x) == root_of(p0, r0, i as int) || root_of(p0, r0, x) == root_of(
                p0,
                r0,
                j as int,
            ) {
                root_of(self.parent@, self.rank@, i as int)
            } else {
                root_of(p0, r0, x)
            } by {
                assert(root_of(p1, r0, x) == root_of(p0, r0, x));
                assert(root_of(p1, r0, i as int) == root_of(p0, r0, i as int));
                assert(root_of(p1, r0, j as int) == root_of(p0, r0, j as int));
            }
        }
    }
}

} // verus!
