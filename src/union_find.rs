//! A disjoint-set forest over element numbers in which every class is rooted
//! at its least member.

use vstd::prelude::*;
use crate::rig::{decode, Rig, NUM_RIGS};

verus! {

/// Every pointer goes to itself or to a smaller number.
pub open spec fn pointers_descend(p: Seq<usize>) -> bool {
    forall|k: int| 0 <= k < p.len() ==> #[trigger] p[k] <= k
}

/// The root reached from `k` by following pointers.
pub open spec fn root(p: Seq<usize>, k: int) -> int
    decreases k,
{
    if 0 <= k < p.len() && p[k] < k {
        root(p, p[k] as int)
    } else {
        k
    }
}

/// The root of every number, as a sequence.
pub open spec fn roots(p: Seq<usize>) -> Seq<int> {
    Seq::new(p.len(), |k: int| root(p, k))
}

/// Joins the classes of `x` and `y` in a map from numbers to roots: both
/// classes take the smaller of the two roots.
pub open spec fn merged(f: Seq<int>, x: int, y: int) -> Seq<int> {
    Seq::new(
        f.len(),
        |k: int|
            if f[k] == f[x] || f[k] == f[y] {
                if f[x] <= f[y] {
                    f[x]
                } else {
                    f[y]
                }
            } else {
                f[k]
            },
    )
}

/// The map of roots after joining the pairs of `pairs` one after another.
pub open spec fn merged_all(f: Seq<int>, pairs: Seq<(int, int)>) -> Seq<int>
    decreases pairs.len(),
{
    if pairs.len() == 0 {
        f
    } else {
        merged_all(merged(f, pairs[0].0, pairs[0].1), pairs.drop_first())
    }
}

/// Every pair of `pairs` joins two numbers of `[0, n)`.
pub open spec fn pairs_within(pairs: Seq<(int, int)>, n: int) -> bool {
    forall|k: int|
        0 <= k < pairs.len() ==> 0 <= #[trigger] pairs[k].0 < n && 0 <= pairs[k].1 < n
}

/// Two joins give the same map of roots in either order.
pub proof fn lemma_merges_commute(f: Seq<int>, x: (int, int), y: (int, int))
    requires
        0 <= x.0 < f.len(),
        0 <= x.1 < f.len(),
        0 <= y.0 < f.len(),
        0 <= y.1 < f.len(),
    ensures
        merged(merged(f, x.0, x.1), y.0, y.1) == merged(merged(f, y.0, y.1), x.0, x.1),
{
    let g1 = merged(merged(f, x.0, x.1), y.0, y.1);
    let g2 = merged(merged(f, y.0, y.1), x.0, x.1);
    assert forall|k: int| 0 <= k < f.len() implies g1[k] == g2[k] by {
        let h1 = merged(f, x.0, x.1);
        let h2 = merged(f, y.0, y.1);
        assert(h1[k] == h1[k] && h1[y.0] == h1[y.0] && h1[y.1] == h1[y.1]);
        assert(h2[k] == h2[k] && h2[x.0] == h2[x.0] && h2[x.1] == h2[x.1]);
    }
    assert(g1 =~= g2);
}

proof fn lemma_merge_first(f: Seq<int>, pairs: Seq<(int, int)>, i: int)
    requires
        0 <= i < pairs.len(),
        pairs_within(pairs, f.len() as int),
    ensures
        merged_all(f, pairs) == merged_all(merged(f, pairs[i].0, pairs[i].1), pairs.remove(i)),
    decreases i,
{
    if i > 0 {
        let rest = pairs.drop_first();
        assert(pairs[0] == pairs[0]);
        assert(pairs[i] == pairs[i]);
        assert(pairs_within(rest, f.len() as int)) by {
            assert forall|k: int| 0 <= k < rest.len() implies 0 <= #[trigger] rest[k].0 < f.len()
                && 0 <= rest[k].1 < f.len() by {
                assert(rest[k] == pairs[k + 1]);
            }
        }
        lemma_merge_first(merged(f, pairs[0].0, pairs[0].1), rest, i - 1);
        lemma_merges_commute(f, pairs[0], pairs[i]);
        let later = pairs.remove(i);
        assert(later[0] == pairs[0]);
        assert(later.drop_first() =~= rest.remove(i - 1));
    } else {
        assert(pairs.remove(0) =~= pairs.drop_first());
    }
}

/// Joining the same multiset of pairs in any order gives the same map of
/// roots.
pub proof fn lemma_merge_order_irrelevant(
    f: Seq<int>,
    pairs1: Seq<(int, int)>,
    pairs2: Seq<(int, int)>,
)
    requires
        pairs1.to_multiset() == pairs2.to_multiset(),
        pairs_within(pairs1, f.len() as int),
    ensures
        merged_all(f, pairs1) == merged_all(f, pairs2),
    decreases pairs1.len(),
{
    pairs1.to_multiset_ensures();
    pairs2.to_multiset_ensures();
    if pairs1.len() == 0 {
        assert(pairs2.len() == 0);
    } else {
        let e = pairs1[0];
        assert(pairs1.to_multiset().count(e) > 0) by {
            assert(pairs1.contains(e));
        }
        assert(pairs2.contains(e));
        let i = choose|i: int| 0 <= i < pairs2.len() && pairs2[i] == e;
        assert(pairs_within(pairs2, f.len() as int)) by {
            assert forall|k: int| 0 <= k < pairs2.len() implies 0 <= #[trigger] pairs2[k].0
                < f.len() && 0 <= pairs2[k].1 < f.len() by {
                let x = pairs2[k];
                assert(pairs2.contains(x));
                assert(pairs2.to_multiset().count(x) > 0);
                assert(pairs1.to_multiset().count(x) > 0);
                assert(pairs1.contains(x));
                let j = choose|j: int| 0 <= j < pairs1.len() && pairs1[j] == x;
                assert(pairs1[j] == x);
            }
        }
        lemma_merge_first(f, pairs2, i);
        let g = merged(f, e.0, e.1);
        assert(pairs1.remove(0) =~= pairs1.drop_first());
        assert(pairs1.drop_first().to_multiset() == pairs2.remove(i).to_multiset());
        assert(pairs_within(pairs1.drop_first(), g.len() as int)) by {
            assert forall|k: int| 0 <= k < pairs1.drop_first().len() implies 0
                <= #[trigger] pairs1.drop_first()[k].0 < g.len() && 0 <= pairs1.drop_first()[k].1
                < g.len() by {
                assert(pairs1.drop_first()[k] == pairs1[k + 1]);
            }
        }
        lemma_merge_order_irrelevant(g, pairs1.drop_first(), pairs2.remove(i));
    }
}

/// The root of `k` is no larger than `k`, and is itself a root.
pub proof fn lemma_root_is_root(p: Seq<usize>, k: int)
    requires
        pointers_descend(p),
        0 <= k < p.len(),
    ensures
        0 <= root(p, k) <= k,
        p[root(p, k)] == root(p, k),
        root(p, root(p, k)) == root(p, k),
    decreases k,
{
    if p[k] < k {
        lemma_root_is_root(p, p[k] as int);
    }
}

/// Root lookup is idempotent: the root of a root is that root.
pub proof fn lemma_find_idempotent(p: Seq<usize>, k: int)
    requires
        pointers_descend(p),
        0 <= k < p.len(),
    ensures
        root(p, root(p, k)) == root(p, k),
{
    lemma_root_is_root(p, k);
}

/// After the pointers of `q` that differ from `p` were sent to `t`, all of them
/// in the class of `r` and `r` among them, that class is rooted at `t` and every
/// other class keeps its root.
proof fn lemma_redirected(p: Seq<usize>, q: Seq<usize>, r: int, t: int, k: int)
    requires
        pointers_descend(p),
        pointers_descend(q),
        q.len() == p.len(),
        0 <= t <= r < p.len(),
        root(p, r) == r,
        root(p, t) == t,
        q[r] == t,
        forall|j: int| 0 <= j < p.len() && q[j] != p[j] ==> root(p, j) == r && q[j] == t,
        0 <= k < p.len(),
    ensures
        root(q, k) == if root(p, k) == r {
            t
        } else {
            root(p, k)
        },
    decreases k,
{
    lemma_root_is_root(p, k);
    lemma_root_is_root(p, t);
    if q[k] != p[k] {
        assert(q[t] == t) by {
            if q[t] != p[t] {
            }
        }
        assert(root(q, t) == t);
    } else if p[k] < k {
        lemma_redirected(p, q, r, t, p[k] as int);
    }
}

/// The elements numbered below `m` whose root is `r`, in increasing order.
pub open spec fn members_below(p: Seq<usize>, r: int, m: int) -> Seq<Rig>
    decreases m,
{
    if m <= 0 {
        Seq::empty()
    } else if root(p, m - 1) == r {
        members_below(p, r, m - 1).push(decode(m - 1))
    } else {
        members_below(p, r, m - 1)
    }
}

/// The classes whose roots lie below `m`, in increasing order of root, each
/// listing its members in increasing order.
pub open spec fn classes_below(p: Seq<usize>, m: int) -> Seq<Seq<Rig>>
    decreases m,
{
    if m <= 0 {
        Seq::empty()
    } else if root(p, m - 1) == m - 1 {
        classes_below(p, m - 1).push(members_below(p, m - 1, p.len() as int))
    } else {
        classes_below(p, m - 1)
    }
}

/// A partition of the numbers `[0, n)` as a forest of pointers.
pub struct RigUnion {
    ptrs: Vec<usize>,
}

impl View for RigUnion {
    type V = Seq<usize>;

    closed spec fn view(&self) -> Seq<usize> {
        self.ptrs@
    }
}

impl RigUnion {
    /// The pointers are well formed over a universe of valid element numbers.
    pub open spec fn wf(&self) -> bool {
        &&& pointers_descend(self@)
        &&& self@.len() <= NUM_RIGS
    }

    /// The finest partition of all `NUM_RIGS` elements.
    pub fn new() -> (u: RigUnion)
        ensures
            u.wf(),
            u@.len() == NUM_RIGS,
            forall|k: int| 0 <= k < NUM_RIGS ==> #[trigger] u@[k] == k,
    {
        RigUnion::with_size(NUM_RIGS)
    }

    /// The finest partition of the first `n` elements: every number is its
    /// own root.
    pub fn with_size(n: usize) -> (u: RigUnion)
        requires
            n <= NUM_RIGS,
        ensures
            u.wf(),
            u@.len() == n,
            forall|k: int| 0 <= k < n ==> #[trigger] u@[k] == k,
    {
        let mut ptrs: Vec<usize> = Vec::new();
        let mut k: usize = 0;
        while k < n
            invariant
                k <= n,
                ptrs@.len() == k,
                forall|j: int| 0 <= j < k ==> #[trigger] ptrs@[j] == j,
            decreases n - k,
        {
            ptrs.push(k);
            k = k + 1;
        }
        RigUnion { ptrs }
    }

    /// Number of elements in the universe.
    pub fn len(&self) -> (n: usize)
        ensures
            n == self@.len(),
    {
        self.ptrs.len()
    }

    /// A copy of the forest.
    pub fn snapshot(&self) -> (s: RigUnion)
        ensures
            s@ == self@,
    {
        let ptrs = self.ptrs.clone();
        assert(ptrs@ =~= self.ptrs@);
        RigUnion { ptrs }
    }

    /// The root of the class of `k`.
    pub fn find(&self, k: usize) -> (r: usize)
        requires
            self.wf(),
            k < self@.len(),
        ensures
            r == root(self@, k as int),
            r <= k,
            root(self@, r as int) == r,
    {
        proof {
            lemma_find_idempotent(self@, k as int);
            lemma_root_is_root(self@, k as int);
        }
        let mut t = k;
        while self.ptrs[t] != t
            invariant
                self.wf(),
                t < self@.len(),
                root(self@, t as int) == root(self@, k as int),
            decreases t,
        {
            t = self.ptrs[t];
        }
        t
    }

    /// The classes of the partition, in increasing order of their roots, each
    /// listing its elements in increasing order of number.
    pub fn get_classes(&self) -> (classes: Vec<Vec<Rig>>)
        requires
            self.wf(),
        ensures
            classes@.len() == classes_below(self@, self@.len() as int).len(),
            forall|c: int|
                0 <= c < classes@.len() ==> #[trigger] classes@[c]@ == classes_below(
                    self@,
                    self@.len() as int,
                )[c],
    {
        let n = self.ptrs.len();
        let mut found: Vec<usize> = Vec::new();
        let mut k: usize = 0;
        while k < n
            invariant
                self.wf(),
                n == self@.len(),
                k <= n,
                found@.len() == k,
                forall|j: int| 0 <= j < k ==> #[trigger] found@[j] == root(self@, j),
            decreases n - k,
        {
            let r = self.find(k);
            found.push(r);
            k = k + 1;
        }
        let ghost total = classes_below(self@, n as int);
        let mut classes: Vec<Vec<Rig>> = Vec::new();
        let mut r: usize = 0;
        while r < n
            invariant
                self.wf(),
                n == self@.len(),
                r <= n,
                found@.len() == n,
                forall|j: int| 0 <= j < n ==> #[trigger] found@[j] == root(self@, j),
                classes@.len() == classes_below(self@, r as int).len(),
                forall|c: int|
                    0 <= c < classes@.len() ==> #[trigger] classes@[c]@ == classes_below(
                        self@,
                        r as int,
                    )[c],
            decreases n - r,
        {
            if found[r] == r {
                let mut members: Vec<Rig> = Vec::new();
                let mut k: usize = 0;
                while k < n
                    invariant
                        self.wf(),
                        n == self@.len(),
                        r < n,
                        k <= n,
                        found@.len() == n,
                        forall|j: int| 0 <= j < n ==> #[trigger] found@[j] == root(self@, j),
                        members@ == members_below(self@, r as int, k as int),
                    decreases n - k,
                {
                    if found[k] == r {
                        members.push(Rig::from(k));
                    }
                    k = k + 1;
                }
                classes.push(members);
            }
            r = r + 1;
        }
        classes
    }

    /// Sends every pointer on the path from `start` to its root, the root
    /// included, to `t`.
    fn redirect(&mut self, start: usize, t: usize)
        requires
            old(self).wf(),
            start < old(self)@.len(),
            t < old(self)@.len(),
            root(old(self)@, t as int) == t,
            t <= root(old(self)@, start as int),
        ensures
            final(self).wf(),
            final(self)@.len() == old(self)@.len(),
            forall|k: int|
                0 <= k < old(self)@.len() ==> #[trigger] root(final(self)@, k) == if root(
                    old(self)@,
                    k,
                ) == root(old(self)@, start as int) {
                    t as int
                } else {
                    root(old(self)@, k)
                },
            forall|k: int| 0 <= k < old(self)@.len() ==> #[trigger] final(self)@[k] <= old(self)@[k],
    {
        let ghost p = self@;
        let ghost r = root(p, start as int);
        let mut idx = start;
        while self.ptrs[idx] != idx
            invariant
                p == old(self)@,
                r == root(p, start as int),
                pointers_descend(p),
                p.len() <= NUM_RIGS,
                root(p, t as int) == t,
                t <= r,
                self@.len() == p.len(),
                pointers_descend(self@),
                idx < p.len(),
                root(p, idx as int) == r,
                forall|j: int|
                    0 <= j < p.len() && #[trigger] self@[j] != p[j] ==> j > idx && root(p, j) == r
                        && self@[j] == t,
            decreases idx,
        {
            let next = self.ptrs[idx];
            proof {
                lemma_root_is_root(p, idx as int);
                lemma_root_is_root(p, next as int);
            }
            self.ptrs.set(idx, t);
            idx = next;
        }
        proof {
            lemma_root_is_root(p, idx as int);
        }
        self.ptrs.set(idx, t);
        proof {
            let q = self@;
            assert forall|k: int| 0 <= k < p.len() implies #[trigger] root(q, k) == if root(p, k)
                == r {
                t as int
            } else {
                root(p, k)
            } by {
                lemma_redirected(p, q, r, t as int, k);
            }
            assert forall|k: int| 0 <= k < p.len() implies #[trigger] q[k] <= p[k] by {
                lemma_root_is_root(p, p[k] as int);
            }
        }
    }

    /// Joins the classes of two elements, rooting the joined class at the
    /// smaller of the two roots, and points every number on both paths
    /// straight at it.
    pub fn union(&mut self, r1: &Rig, r2: &Rig)
        requires
            old(self).wf(),
            r1.valid(),
            r2.valid(),
            r1.index() < old(self)@.len(),
            r2.index() < old(self)@.len(),
        ensures
            final(self).wf(),
            final(self)@.len() == old(self)@.len(),
            roots(final(self)@) == merged(roots(old(self)@), r1.index(), r2.index()),
            forall|k: int| 0 <= k < old(self)@.len() ==> #[trigger] final(self)@[k] <= old(self)@[k],
    {
        let ghost p = self@;
        let idx1 = r1.to_int();
        let idx2 = r2.to_int();
        let tgt1 = self.find(idx1);
        let tgt2 = self.find(idx2);
        let tgt = if tgt1 <= tgt2 {
            tgt1
        } else {
            tgt2
        };
        proof {
            lemma_root_is_root(p, idx1 as int);
            lemma_root_is_root(p, idx2 as int);
        }
        self.redirect(idx1, tgt);
        let ghost q = self@;
        self.redirect(idx2, tgt);
        proof {
            let f = roots(p);
            let g = merged(f, idx1 as int, idx2 as int);
            assert(roots(self@) =~= g);
            assert forall|k: int| 0 <= k < p.len() implies #[trigger] self@[k] <= p[k] by {
                assert(self@[k] <= q[k]);
                assert(q[k] <= p[k]);
            }
        }
    }
}

impl PartialEq for RigUnion {
    fn eq(&self, other: &RigUnion) -> (r: bool) {
        let r = self.ptrs == other.ptrs;
        proof {
            if r {
                assert(self.ptrs@ =~= other.ptrs@);
            }
        }
        r
    }
}

impl vstd::std_specs::cmp::PartialEqSpecImpl for RigUnion {
    open spec fn obeys_eq_spec() -> bool {
        true
    }

    open spec fn eq_spec(&self, other: &RigUnion) -> bool {
        self@ == other@
    }
}

} // verus!
