use vstd::prelude::*;
use vstd::set_lib::{lemma_int_range, lemma_len_subset, lemma_set_disjoint_lens, set_int_range};

verus! {

/// The elements among `0..rep.len()` whose representative is `r`.
pub open spec fn class(rep: Seq<int>, r: int) -> Set<int> {
    Set::new(|x: int| 0 <= x < rep.len() && rep[x] == r)
}

proof fn lemma_class_finite(rep: Seq<int>, r: int)
    ensures
        class(rep, r).finite(),
        class(rep, r).len() <= rep.len(),
{
    lemma_int_range(0, rep.len() as int);
    lemma_len_subset(class(rep, r), set_int_range(0, rep.len() as int));
}

/// Disjoint sets over the elements `0..n`, with union by size and path
/// compression.
pub struct UnionFind {
    // A non-negative entry is the parent of the element; a negative one marks
    // a root and holds minus the size of its set.
    parents: Vec<isize>,
    // The root of each element's tree.
    rep: Ghost<Seq<int>>,
    // Ranks grow strictly from an element to its parent.
    rank: Ghost<Seq<int>>,
    // An upper bound of all ranks.
    top: Ghost<int>,
}

impl UnionFind {
    /// Number of elements.
    pub closed spec fn elements(&self) -> nat {
        self.parents@.len()
    }

    /// `i` and `j` are in the same set.
    pub closed spec fn same(&self, i: int, j: int) -> bool {
        self.rep@[i] == self.rep@[j]
    }

    /// Size of the set that holds `i`.
    pub closed spec fn class_len(&self, i: int) -> nat {
        class(self.rep@, self.rep@[i]).len()
    }

    spec fn node_ok(&self, i: int) -> bool {
        let n = self.parents@.len();
        let rep = self.rep@;
        let rank = self.rank@;
        &&& 0 <= rep[i] < n
        &&& self.parents@[rep[i]] < 0
        &&& 0 <= rank[i] <= self.top@
        &&& self.parents@[i] < 0 ==> rep[i] == i && -self.parents@[i] == class(rep, i).len()
        &&& self.parents@[i] >= 0 ==> {
            let p = self.parents@[i] as int;
            &&& p < n
            &&& rep[p] == rep[i]
            &&& rank[p] > rank[i]
            &&& rank[rep[i]] > rank[i]
        }
    }

    pub closed spec fn wf(&self) -> bool {
        &&& self.parents@.len() <= isize::MAX
        &&& self.rep@.len() == self.parents@.len()
        &&& self.rank@.len() == self.parents@.len()
        &&& forall|i: int| 0 <= i < self.parents@.len() ==> #[trigger] self.node_ok(i)
    }

    /// A structure of `n` elements, each in a set of its own.
    pub fn new(n: usize) -> (r: Self)
        requires
            n <= isize::MAX,
        ensures
            r.wf(),
            r.elements() == n,
            forall|i: int, j: int| 0 <= i < n && 0 <= j < n ==> (#[trigger] r.same(i, j) <==> i == j),
            forall|i: int| 0 <= i < n ==> #[trigger] r.class_len(i) == 1,
    {
        let mut parents: Vec<isize> = Vec::new();
        let mut i: usize = 0;
        while i < n
            invariant
                i <= n,
                parents@.len() == i,
                forall|j: int| 0 <= j < i ==> parents@[j] == -1,
            decreases n - i,
        {
            parents.push(-1);
            i = i + 1;
        }
        let ghost rep = Seq::new(n as nat, |x: int| x);
        let r = UnionFind {
            parents,
            rep: Ghost(rep),
            rank: Ghost(Seq::new(n as nat, |x: int| 0)),
            top: Ghost(0),
        };
        proof {
            assert forall|x: int| 0 <= x < n implies #[trigger] class(rep, x).len() == 1 by {
                assert(class(rep, x) =~= set![x]);
            }
            assert forall|x: int| 0 <= x < n implies #[trigger] r.node_ok(x) by {
                assert(class(rep, x).len() == 1);
            }
        }
        r
    }

    /// Returns the number of elements.
    pub fn len(&self) -> (r: usize)
        ensures
            r == self.elements(),
    {
        self.parents.len()
    }

    /// Returns the root of the tree of `i`, pointing every element on the
    /// way straight at it.
    fn find(&mut self, i: usize) -> (r: usize)
        requires
            old(self).wf(),
            i < old(self).elements(),
        ensures
            final(self).wf(),
            final(self).parents@.len() == old(self).parents@.len(),
            final(self).rep == old(self).rep,
            final(self).rank == old(self).rank,
            final(self).top == old(self).top,
            forall|x: int| 0 <= x < old(self).parents@.len() && old(self).parents@[x] < 0
                ==> #[trigger] final(self).parents@[x] == old(self).parents@[x],
            r == old(self).rep@[i as int],
            r < old(self).elements(),
            final(self).parents@[r as int] < 0,
        decreases old(self).top@ - old(self).rank@[i as int],
    {
        proof {
            assert(self.node_ok(i as int));
        }
        if self.parents[i] < 0 {
            i
        } else {
            let p = self.parents[i] as usize;
            proof {
                assert(self.node_ok(p as int));
            }
            let r = self.find(p);
            let ghost mid = *self;
            proof {
                assert(mid.node_ok(i as int));
                assert(mid.node_ok(r as int));
            }
            self.parents.set(i, r as isize);
            proof {
                assert forall|x: int| 0 <= x < self.parents@.len() implies #[trigger] self.node_ok(
                    x,
                ) by {
                    assert(mid.node_ok(x));
                    assert(class(self.rep@, x) == class(mid.rep@, x));
                }
            }
            r
        }
    }

    /// Puts the sets of `i` and `j` together.
    pub fn unite(&mut self, i: usize, j: usize)
        requires
            old(self).wf(),
            i < old(self).elements(),
            j < old(self).elements(),
        ensures
            final(self).wf(),
            final(self).elements() == old(self).elements(),
            forall|a: int, b: int|
                0 <= a < old(self).elements() && 0 <= b < old(self).elements() ==> (#[trigger] final(self).same(a, b) <==> (old(self).same(a, b) || (old(self).same(a, i as int) && old(self).same(b, j as int)) || (old(self).same(a, j as int) && old(self).same(b, i as int)))),
            forall|a: int|
                0 <= a < old(self).elements() ==> #[trigger] final(self).class_len(a) == if !old(self).same(a, i as int) && !old(self).same(a, j as int) {
                    old(self).class_len(a)
                } else if old(self).same(i as int, j as int) {
                    old(self).class_len(i as int)
                } else {
                    old(self).class_len(i as int) + old(self).class_len(j as int)
                },
    {
        let ghost s0 = *self;
        proof {
            assert(s0.node_ok(i as int));
            assert(s0.node_ok(j as int));
        }
        let mut i = self.find(i);
        let mut j = self.find(j);
        if i == j {
            return;
        }
        let ghost s1 = *self;
        proof {
            assert(s1.node_ok(i as int));
            assert(s1.node_ok(j as int));
        }
        if self.parents[i] > self.parents[j] {
            let t = i;
            i = j;
            j = t;
        }
        let ghost rep = s1.rep@;
        let ghost ci = class(rep, i as int);
        let ghost cj = class(rep, j as int);
        proof {
            lemma_class_finite(rep, i as int);
            lemma_class_finite(rep, j as int);
            lemma_set_disjoint_lens(ci, cj);
            lemma_int_range(0, rep.len() as int);
            lemma_len_subset(ci + cj, set_int_range(0, rep.len() as int));
        }
        let total = self.parents[i] + self.parents[j];
        self.parents.set(i, total);
        self.parents.set(j, i as isize);
        let ghost new_rep = rep.map_values(|r: int| if r == j as int { i as int } else { r });
        let ghost old_rank = s1.rank@;
        let ghost ri = if old_rank[i as int] > old_rank[j as int] {
            old_rank[i as int]
        } else {
            old_rank[j as int] + 1
        };
        proof {
            self.rep = Ghost(new_rep);
            self.rank = Ghost(old_rank.update(i as int, ri));
            self.top = Ghost(if s1.top@ >= ri { s1.top@ } else { ri });
            assert(class(new_rep, i as int) =~= ci + cj);
            assert forall|r: int| r != i && r != j implies #[trigger] class(new_rep, r) == class(rep, r) by {
                assert(class(new_rep, r) =~= class(rep, r));
            }
            assert forall|x: int| 0 <= x < self.parents@.len() implies #[trigger] self.node_ok(x) by {
                assert(s1.node_ok(x));
                assert(s1.node_ok(rep[x]));
            }
            assert forall|a: int| 0 <= a < self.parents@.len() implies #[trigger] self.class_len(a) == if !s0.same(a, i as int) && !s0.same(a, j as int) {
                s0.class_len(a)
            } else {
                s0.class_len(i as int) + s0.class_len(j as int)
            } by {
                assert(s1.node_ok(a));
            }
        }
    }

    /// Returns whether `i` and `j` are in the same set.
    pub fn are_same(&mut self, i: usize, j: usize) -> (r: bool)
        requires
            old(self).wf(),
            i < old(self).elements(),
            j < old(self).elements(),
        ensures
            final(self).wf(),
            final(self).elements() == old(self).elements(),
            forall|a: int, b: int| #[trigger] final(self).same(a, b) == old(self).same(a, b),
            forall|a: int| #[trigger] final(self).class_len(a) == old(self).class_len(a),
            r == old(self).same(i as int, j as int),
    {
        self.find(i) == self.find(j)
    }

    /// Returns the size of the set that holds `i`.
    pub fn size(&mut self, i: usize) -> (r: usize)
        requires
            old(self).wf(),
            i < old(self).elements(),
        ensures
            final(self).wf(),
            final(self).elements() == old(self).elements(),
            forall|a: int, b: int| #[trigger] final(self).same(a, b) == old(self).same(a, b),
            forall|a: int| #[trigger] final(self).class_len(a) == old(self).class_len(a),
            r == old(self).class_len(i as int),
    {
        let r = self.find(i);
        proof {
            assert(self.node_ok(r as int));
            lemma_class_finite(self.rep@, r as int);
        }
        (-self.parents[r]) as usize
    }
}

} // verus!
