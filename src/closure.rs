//! The least congruence of a universe of elements that identifies every
//! element with its square, computed by saturating a partition to a fixed
//! point.

use vstd::prelude::*;
use crate::rig::{
    decode,
    lemma_operations_closed,
    lemma_round_trip,
    product,
    sum,
    Rig,
    NUM_RIGS,
};
use crate::union_find::{
    lemma_root_is_root,
    merged,
    pointers_descend,
    root,
    roots,
    RigUnion,
};

verus! {

/// One of the two operations of the rig.
#[derive(Clone, Copy, Debug, PartialEq, Eq, Structural)]
pub enum Operation {
    Add,
    Mul,
}

/// The number of the sum or product of the elements numbered `x` and `y`.
pub open spec fn op_index(op: Operation, x: int, y: int) -> int {
    match op {
        Operation::Add => sum(decode(x), decode(y)).index(),
        Operation::Mul => product(decode(x), decode(y)).index(),
    }
}

/// The number of the square of the element numbered `x`.
pub open spec fn square_index(x: int) -> int {
    op_index(Operation::Mul, x, x)
}

/// The numbers `[0, n)` hold valid elements and are closed under both
/// operations.
pub open spec fn universe_closed(n: int) -> bool {
    &&& 0 < n <= NUM_RIGS
    &&& forall|op: Operation, x: int, y: int|
        0 <= x < n && 0 <= y < n ==> 0 <= #[trigger] op_index(op, x, y) < n
}

/// `x` and `y` lie in one class of the forest `p`.
pub open spec fn same_class(p: Seq<usize>, x: int, y: int) -> bool {
    root(p, x) == root(p, y)
}

/// Combining `x` with `y` lands in the class of combining their roots.
pub open spec fn settled(p: Seq<usize>, op: Operation, x: int, y: int) -> bool {
    same_class(p, op_index(op, x, y), op_index(op, root(p, x), root(p, y)))
}

/// Every pair of the universe is settled for both operations: the fixed point
/// of saturation.
#[verifier::opaque]
pub open spec fn saturated(p: Seq<usize>) -> bool {
    forall|op: Operation, x: int, y: int|
        0 <= x < p.len() && 0 <= y < p.len() ==> #[trigger] settled(p, op, x, y)
}

/// Every element of the universe is in the class of its square.
#[verifier::opaque]
pub open spec fn squares_identified(p: Seq<usize>) -> bool {
    forall|x: int| 0 <= x < p.len() ==> same_class(p, x, #[trigger] square_index(x))
}

/// `rel` is an equivalence on `[0, n)` compatible with both operations.
pub open spec fn is_congruence(rel: spec_fn(int, int) -> bool, n: int) -> bool {
    &&& forall|x: int| 0 <= x < n ==> #[trigger] rel(x, x)
    &&& forall|x: int, y: int| 0 <= x < n && 0 <= y < n && #[trigger] rel(x, y) ==> rel(y, x)
    &&& forall|x: int, y: int, z: int|
        0 <= x < n && 0 <= y < n && 0 <= z < n && #[trigger] rel(x, y) && #[trigger] rel(y, z)
            ==> rel(x, z)
    &&& forall|op: Operation, x: int, x2: int, y: int|
        #![trigger rel(x, x2), op_index(op, x, y)]
        0 <= x < n && 0 <= x2 < n && 0 <= y < n && rel(x, x2) ==> rel(
            op_index(op, x, y),
            op_index(op, x2, y),
        )
    &&& forall|op: Operation, x: int, y: int, y2: int|
        #![trigger rel(y, y2), op_index(op, x, y)]
        0 <= x < n && 0 <= y < n && 0 <= y2 < n && rel(y, y2) ==> rel(
            op_index(op, x, y),
            op_index(op, x, y2),
        )
}

/// `rel` relates every element of `[0, n)` with its square.
pub open spec fn relates_squares(rel: spec_fn(int, int) -> bool, n: int) -> bool {
    forall|x: int| 0 <= x < n ==> rel(x, #[trigger] square_index(x))
}

/// A congruence on `[0, n)` that relates every element with its square.
#[verifier::opaque]
pub open spec fn is_square_congruence(rel: spec_fn(int, int) -> bool, n: int) -> bool {
    is_congruence(rel, n) && relates_squares(rel, n)
}

/// `rel` relates every number with its root in `p`.
pub open spec fn respects(p: Seq<usize>, rel: spec_fn(int, int) -> bool) -> bool {
    forall|k: int| 0 <= k < p.len() ==> #[trigger] rel(k, root(p, k))
}

/// Every class of `p` lies within a class of each congruence that relates
/// elements with their squares.
#[verifier::opaque]
pub open spec fn justified(p: Seq<usize>) -> bool {
    forall|rel: spec_fn(int, int) -> bool| #[trigger]
        is_square_congruence(rel, p.len() as int) ==> respects(p, rel)
}

/// The universe of the first `NUM_RIGS` numbers, and that of the sixteen
/// elements over `1` and `a` alone, are closed under both operations.
pub proof fn lemma_universe_closed(n: int)
    requires
        n == 16 || n == NUM_RIGS,
    ensures
        universe_closed(n),
{
    assert forall|op: Operation, x: int, y: int| 0 <= x < n && 0 <= y < n implies 0
        <= #[trigger] op_index(op, x, y) < n by {
        lemma_round_trip(x, decode(x));
        lemma_round_trip(y, decode(y));
        lemma_operations_closed(decode(x), decode(y));
        if n == 16 {
            let dx = decode(x);
            let dy = decode(y);
            assert(x / 16 == 0 && y / 16 == 0);
            assert(dx.b == 0 && dx.ab == 0 && dx.ba == 0 && dx.aba == 0 && dx.bab == 0);
            assert(dy.b == 0 && dy.ab == 0 && dy.ba == 0 && dy.aba == 0 && dy.bab == 0);
            lemma_zero_factor();
            let s = sum(dx, dy);
            let m = product(dx, dy);
            assert(s.b == 0 && s.ab == 0 && s.ba == 0 && s.aba == 0 && s.bab == 0);
            assert(m.b == 0 && m.ab == 0 && m.ba == 0 && m.aba == 0 && m.bab == 0);
            assert(s.index() < 16 && m.index() < 16);
        }
        match op {
            Operation::Add => {},
            Operation::Mul => {},
        }
    }
}

proof fn lemma_zero_factor()
    ensures
        forall|p: int| #[trigger] (p * 0) == 0,
        forall|q: int| #[trigger] (0 * q) == 0,
{
}

/// A forest in which every number is its own root is justified.
proof fn lemma_identity_justified(p: Seq<usize>)
    requires
        forall|k: int| 0 <= k < p.len() ==> #[trigger] p[k] == k,
    ensures
        justified(p),
{
    reveal(is_square_congruence);
    reveal(justified);
    assert forall|rel: spec_fn(int, int) -> bool| #[trigger]
        is_square_congruence(rel, p.len() as int) implies respects(p, rel) by {
        assert forall|k: int| 0 <= k < p.len() implies #[trigger] rel(k, root(p, k)) by {
            assert(p[k] == k);
        }
    }
}

/// Joining the classes of two related numbers keeps every number related
/// with its root.
proof fn lemma_merge_respects(
    p: Seq<usize>,
    q: Seq<usize>,
    x: int,
    y: int,
    rel: spec_fn(int, int) -> bool,
)
    requires
        pointers_descend(p),
        q.len() == p.len(),
        0 <= x < p.len(),
        0 <= y < p.len(),
        roots(q) == merged(roots(p), x, y),
        is_congruence(rel, p.len() as int),
        respects(p, rel),
        rel(x, y),
    ensures
        respects(q, rel),
{
    let n = p.len() as int;
    lemma_root_is_root(p, x);
    lemma_root_is_root(p, y);
    let rx = root(p, x);
    let ry = root(p, y);
    assert(rel(x, rx));
    assert(rel(y, ry));
    assert(rel(rx, x));
    assert(rel(rx, y));
    assert(rel(rx, ry));
    assert(rel(ry, rx));
    assert forall|k: int| 0 <= k < n implies #[trigger] rel(k, root(q, k)) by {
        lemma_root_is_root(p, k);
        assert(roots(q)[k] == root(q, k));
        assert(roots(p)[k] == root(p, k));
        assert(roots(p)[x] == rx);
        assert(roots(p)[y] == ry);
        let rk = root(p, k);
        assert(rel(k, rk));
        if rk == rx {
            assert(rel(k, ry));
        } else if rk == ry {
            assert(rel(k, rx));
        }
    }
}

/// Joining the classes of two numbers that every square congruence relates
/// keeps the forest justified.
proof fn lemma_merge_justified(p: Seq<usize>, q: Seq<usize>, x: int, y: int)
    requires
        pointers_descend(p),
        q.len() == p.len(),
        0 <= x < p.len(),
        0 <= y < p.len(),
        roots(q) == merged(roots(p), x, y),
        justified(p),
        forall|rel: spec_fn(int, int) -> bool| #[trigger]
            is_square_congruence(rel, p.len() as int) ==> rel(x, y),
    ensures
        justified(q),
{
    reveal(is_square_congruence);
    reveal(justified);
    assert forall|rel: spec_fn(int, int) -> bool| #[trigger]
        is_square_congruence(rel, q.len() as int) implies respects(q, rel) by {
        lemma_merge_respects(p, q, x, y, rel);
    }
}

/// In a justified forest, every square congruence relates a number with its
/// square, and relates combining `x` with `y` to combining their roots.
proof fn lemma_justified_relates(p: Seq<usize>, op: Operation, x: int, y: int)
    requires
        pointers_descend(p),
        universe_closed(p.len() as int),
        justified(p),
        0 <= x < p.len(),
        0 <= y < p.len(),
    ensures
        forall|rel: spec_fn(int, int) -> bool| #[trigger]
            is_square_congruence(rel, p.len() as int) ==> rel(x, square_index(x)) && rel(
                op_index(op, x, y),
                op_index(op, root(p, x), root(p, y)),
            ),
{
    reveal(is_square_congruence);
    reveal(justified);
    let n = p.len() as int;
    lemma_root_is_root(p, x);
    lemma_root_is_root(p, y);
    let rx = root(p, x);
    let ry = root(p, y);
    assert forall|rel: spec_fn(int, int) -> bool| #[trigger]
        is_square_congruence(rel, n) implies rel(x, square_index(x)) && rel(
        op_index(op, x, y),
        op_index(op, rx, ry),
    ) by {
        assert(respects(p, rel));
        assert(rel(x, rx));
        assert(rel(y, ry));
        let a = op_index(op, x, y);
        let b = op_index(op, rx, y);
        let c = op_index(op, rx, ry);
        assert(rel(a, b));
        assert(rel(b, c));
        assert(0 <= a < n && 0 <= b < n && 0 <= c < n);
        assert(rel(a, c));
        assert(rel(x, square_index(x)));
    }
}

/// In a justified forest, two numbers of one class are related by every
/// square congruence: the partition is no coarser than the least one.
pub proof fn lemma_justified_least(p: Seq<usize>, rel: spec_fn(int, int) -> bool, x: int, y: int)
    requires
        pointers_descend(p),
        justified(p),
        is_square_congruence(rel, p.len() as int),
        0 <= x < p.len(),
        0 <= y < p.len(),
        same_class(p, x, y),
    ensures
        rel(x, y),
{
    reveal(is_square_congruence);
    reveal(justified);
    assert(respects(p, rel));
    lemma_root_is_root(p, x);
    let r = root(p, x);
    assert(rel(x, r));
    assert(rel(y, root(p, y)));
    assert(rel(r, y));
}

/// A saturated forest is a congruence: numbers of one class, combined with any
/// third number on either side, give numbers of one class.
pub proof fn lemma_saturated_congruence(p: Seq<usize>, op: Operation, x: int, x2: int, y: int)
    requires
        pointers_descend(p),
        saturated(p),
        0 <= x < p.len(),
        0 <= x2 < p.len(),
        0 <= y < p.len(),
        same_class(p, x, x2),
    ensures
        same_class(p, op_index(op, x, y), op_index(op, x2, y)),
        same_class(p, op_index(op, y, x), op_index(op, y, x2)),
{
    reveal(saturated);
    assert(settled(p, op, x, y));
    assert(settled(p, op, x2, y));
    assert(settled(p, op, y, x));
    assert(settled(p, op, y, x2));
}

/// If pointers only ever decreased from `start` through `middle` to `end`, and `end`
/// equals `start`, then so does `middle`.
proof fn lemma_sandwich(start: Seq<usize>, middle: Seq<usize>, end: Seq<usize>)
    requires
        middle.len() == start.len(),
        end.len() == start.len(),
        forall|k: int| 0 <= k < start.len() ==> #[trigger] middle[k] <= start[k],
        forall|k: int| 0 <= k < start.len() ==> #[trigger] end[k] <= middle[k],
        end == start,
    ensures
        middle == start,
{
    assert(middle =~= start) by {
        assert forall|k: int| 0 <= k < start.len() implies middle[k] == start[k] by {
            assert(end[k] <= middle[k]);
        }
    }
}

/// A join that left the map of roots as it was joined two numbers of one class.
proof fn lemma_unchanged_merge(p: Seq<usize>, x: int, y: int)
    requires
        0 <= x < p.len(),
        0 <= y < p.len(),
        merged(roots(p), x, y) == roots(p),
    ensures
        same_class(p, x, y),
{
    let f = roots(p);
    assert(merged(f, x, y)[x] == f[x]);
    assert(merged(f, x, y)[y] == f[y]);
}

/// Sum of all pointers: it falls whenever a pass changes the forest.
#[verifier::opaque]
pub open spec fn pointer_total(p: Seq<usize>) -> nat
    decreases p.len(),
{
    if p.len() == 0 {
        0
    } else {
        (pointer_total(p.drop_last()) + p.last()) as nat
    }
}

proof fn lemma_total_decreases(p: Seq<usize>, q: Seq<usize>)
    requires
        q.len() == p.len(),
        forall|k: int| 0 <= k < p.len() ==> #[trigger] q[k] <= p[k],
    ensures
        pointer_total(q) <= pointer_total(p),
        q != p ==> pointer_total(q) < pointer_total(p),
    decreases p.len(),
{
    reveal(pointer_total);
    if p.len() == 0 {
        assert(q =~= p);
    } else {
        let n = p.len() - 1;
        assert(q[n] <= p[n]);
        assert forall|k: int| 0 <= k < n implies #[trigger] q.drop_last()[k] <= p.drop_last()[k] by {
            assert(q[k] <= p[k]);
        }
        lemma_total_decreases(p.drop_last(), q.drop_last());
        if q != p && q.drop_last() == p.drop_last() {
            assert(q[n] != p[n]) by {
                if q[n] == p[n] {
                    assert(q =~= p) by {
                        assert forall|k: int| 0 <= k < p.len() implies q[k] == p[k] by {
                            if k < n {
                                assert(q[k] == q.drop_last()[k]);
                                assert(p[k] == p.drop_last()[k]);
                            }
                        }
                    }
                }
            }
        }
    }
}

impl Operation {
    /// Applies the operation to two valid elements.
    pub fn apply(&self, x: &Rig, y: &Rig) -> (r: Rig)
        requires
            x.valid(),
            y.valid(),
        ensures
            r.valid(),
            r == match *self {
                Operation::Add => sum(*x, *y),
                Operation::Mul => product(*x, *y),
            },
    {
        match self {
            Operation::Add => x.add(y),
            Operation::Mul => x.mul(y),
        }
    }
}

/// Joins every element of the universe with its square.
pub fn identify_squares(u: &mut RigUnion)
    requires
        old(u).wf(),
        universe_closed(old(u)@.len() as int),
        justified(old(u)@),
    ensures
        final(u).wf(),
        final(u)@.len() == old(u)@.len(),
        justified(final(u)@),
        squares_identified(final(u)@),
{
    let n = u.len();
    let mut k: usize = 0;
    while k < n
        invariant
            u.wf(),
            u@.len() == n,
            universe_closed(n as int),
            justified(u@),
            k <= n,
            forall|x: int| 0 <= x < k ==> same_class(u@, x, #[trigger] square_index(x)),
        decreases n - k,
    {
        let rig = Rig::from(k);
        let square = rig.mul(&rig);
        let ghost before = u@;
        proof {
            lemma_round_trip(k as int, rig);
            assert(0 <= square_index(k as int) < n);
            lemma_justified_relates(before, Operation::Mul, k as int, k as int);
        }
        u.union(&rig, &square);
        proof {
            lemma_merge_justified(before, u@, k as int, square_index(k as int));
            assert forall|x: int| 0 <= x <= k implies same_class(
                u@,
                x,
                #[trigger] square_index(x),
            ) by {
                assert(0 <= square_index(x) < n);
                assert(roots(u@)[x] == root(u@, x));
                assert(roots(u@)[square_index(x)] == root(u@, square_index(x)));
                assert(roots(before)[x] == root(before, x));
                assert(roots(before)[square_index(x)] == root(before, square_index(x)));
                assert(roots(before)[k as int] == root(before, k as int));
                assert(roots(before)[square_index(k as int)] == root(
                    before,
                    square_index(k as int),
                ));
            }
        }
        k = k + 1;
    }
    proof {
        reveal(squares_identified);
    }
}

/// The effect of one join of a sweep on what the sweep keeps track of.
proof fn lemma_join_step(
    start: Seq<usize>,
    before: Seq<usize>,
    after: Seq<usize>,
    op: Operation,
    i: int,
    j: int,
)
    requires
        pointers_descend(before),
        before.len() == start.len(),
        after.len() == start.len(),
        universe_closed(start.len() as int),
        0 <= i < start.len(),
        0 <= j < start.len(),
        justified(before),
        roots(after) == merged(
            roots(before),
            op_index(op, i, j),
            op_index(op, root(before, i), root(before, j)),
        ),
        forall|k: int| 0 <= k < start.len() ==> #[trigger] after[k] <= before[k],
        forall|k: int| 0 <= k < start.len() ==> #[trigger] before[k] <= start[k],
    ensures
        justified(after),
        forall|k: int| 0 <= k < start.len() ==> #[trigger] after[k] <= start[k],
        squares_identified(before) ==> squares_identified(after),
        after == start ==> before == start && settled(start, op, i, j),
{
    let n = start.len() as int;
    lemma_root_is_root(before, i);
    lemma_root_is_root(before, j);
    let x = op_index(op, i, j);
    let y = op_index(op, root(before, i), root(before, j));
    assert(0 <= x < n && 0 <= y < n);
    lemma_justified_relates(before, op, i, j);
    lemma_merge_justified(before, after, x, y);
    assert forall|k: int| 0 <= k < n implies #[trigger] after[k] <= start[k] by {
        assert(after[k] <= before[k]);
        assert(before[k] <= start[k]);
    }
    reveal(squares_identified);
    if squares_identified(before) {
        assert forall|z: int| 0 <= z < n implies same_class(after, z, #[trigger] square_index(z)) by {
            let sz = square_index(z);
            assert(0 <= sz < n);
            assert(roots(after)[z] == root(after, z));
            assert(roots(after)[sz] == root(after, sz));
            assert(roots(before)[z] == root(before, z));
            assert(roots(before)[sz] == root(before, sz));
            assert(same_class(before, z, sz));
        }
    }
    if after == start {
        lemma_sandwich(start, before, after);
        assert(roots(after) == roots(before));
        lemma_unchanged_merge(before, x, y);
    }
}

/// One sweep of `op` over every ordered pair of the universe: where either
/// number of the pair is not its own root, the combination of the pair is
/// joined with the combination of the two roots. If the sweep left the forest
/// as it found it, every pair is settled for `op`.
#[verifier::rlimit(40)]
pub fn propagate(u: &mut RigUnion, op: Operation)
    requires
        old(u).wf(),
        universe_closed(old(u)@.len() as int),
        justified(old(u)@),
    ensures
        final(u).wf(),
        final(u)@.len() == old(u)@.len(),
        justified(final(u)@),
        squares_identified(old(u)@) ==> squares_identified(final(u)@),
        forall|k: int| 0 <= k < old(u)@.len() ==> #[trigger] final(u)@[k] <= old(u)@[k],
        final(u)@ == old(u)@ ==> forall|x: int, y: int|
            0 <= x < old(u)@.len() && 0 <= y < old(u)@.len() ==> #[trigger] settled(
                old(u)@,
                op,
                x,
                y,
            ),
{
    let ghost start = u@;
    let n = u.len();
    let mut i: usize = 0;
    while i < n
        invariant
            u.wf(),
            u@.len() == n,
            start.len() == n,
            universe_closed(n as int),
            justified(u@),
            squares_identified(start) ==> squares_identified(u@),
            i <= n,
            forall|k: int| 0 <= k < n ==> #[trigger] u@[k] <= start[k],
            u@ == start ==> forall|x: int, y: int|
                0 <= x < i && 0 <= y < n ==> #[trigger] settled(start, op, x, y),
        decreases n - i,
    {
        let mut j: usize = 0;
        while j < n
            invariant
                u.wf(),
                u@.len() == n,
                start.len() == n,
                universe_closed(n as int),
                justified(u@),
                squares_identified(start) ==> squares_identified(u@),
                i < n,
                j <= n,
                forall|k: int| 0 <= k < n ==> #[trigger] u@[k] <= start[k],
                u@ == start ==> forall|x: int, y: int|
                    0 <= x < i && 0 <= y < n ==> #[trigger] settled(start, op, x, y),
                u@ == start ==> forall|y: int| 0 <= y < j ==> #[trigger] settled(start, op, i as int, y),
            decreases n - j,
        {
            let ri = u.find(i);
            let rj = u.find(j);
            let ghost before = u@;
            proof {
                lemma_root_is_root(before, i as int);
                lemma_root_is_root(before, j as int);
            }
            if ri != i || rj != j {
                let rig_i = Rig::from(i);
                let rig_j = Rig::from(j);
                let x = op.apply(&rig_i, &rig_j);
                let y = op.apply(&Rig::from(ri), &Rig::from(rj));
                proof {
                    assert(x.index() == op_index(op, i as int, j as int));
                    assert(y.index() == op_index(op, ri as int, rj as int));
                    assert(0 <= x.index() < n);
                    assert(0 <= y.index() < n);
                    lemma_justified_relates(before, op, i as int, j as int);
                }
                u.union(&x, &y);
                proof {
                    lemma_join_step(start, before, u@, op, i as int, j as int);
                }
            } else {
                proof {
                    assert(settled(before, op, i as int, j as int));
                }
            }
            j = j + 1;
        }
        i = i + 1;
    }
}

/// A pass of an addition sweep then a multiplication sweep either left the
/// forest unchanged, which is then saturated, or lowered the pointer total.
proof fn lemma_pass_outcome(start: Seq<usize>, middle: Seq<usize>, end: Seq<usize>)
    requires
        middle.len() == start.len(),
        end.len() == start.len(),
        forall|k: int| 0 <= k < start.len() ==> #[trigger] middle[k] <= start[k],
        forall|k: int| 0 <= k < start.len() ==> #[trigger] end[k] <= middle[k],
        middle == start ==> forall|x: int, y: int|
            0 <= x < start.len() && 0 <= y < start.len() ==> #[trigger] settled(start, Operation::Add, x, y),
        end == middle ==> forall|x: int, y: int|
            0 <= x < start.len() && 0 <= y < start.len() ==> #[trigger] settled(middle, Operation::Mul, x, y),
    ensures
        end == start ==> saturated(end),
        end != start ==> pointer_total(end) < pointer_total(start),
{
    reveal(saturated);
    if end == start {
        lemma_sandwich(start, middle, end);
        assert forall|op: Operation, x: int, y: int|
            0 <= x < start.len() && 0 <= y < start.len() implies #[trigger] settled(end, op, x, y) by {
            match op {
                Operation::Add => assert(settled(start, Operation::Add, x, y)),
                Operation::Mul => assert(settled(middle, Operation::Mul, x, y)),
            }
        }
    } else {
        assert forall|k: int| 0 <= k < start.len() implies #[trigger] end[k] <= start[k] by {
            assert(end[k] <= middle[k]);
            assert(middle[k] <= start[k]);
        }
        lemma_total_decreases(start, end);
    }
}

/// One pass: a sweep of addition, then one of multiplication. Reports
/// whether the forest changed; if it did not, the forest is saturated, and if
/// it did, the pointer total fell.
pub fn saturation_pass(u: &mut RigUnion) -> (changed: bool)
    requires
        old(u).wf(),
        universe_closed(old(u)@.len() as int),
        justified(old(u)@),
    ensures
        final(u).wf(),
        final(u)@.len() == old(u)@.len(),
        justified(final(u)@),
        squares_identified(old(u)@) ==> squares_identified(final(u)@),
        changed == (final(u)@ != old(u)@),
        !changed ==> saturated(final(u)@),
        changed ==> pointer_total(final(u)@) < pointer_total(old(u)@),
{
    let snapshot = u.snapshot();
    propagate(u, Operation::Add);
    let ghost middle = u@;
    propagate(u, Operation::Mul);
    proof {
        lemma_pass_outcome(snapshot@, middle, u@);
    }
    *u != snapshot
}

/// Repeats passes until one leaves the forest unchanged; the forest is then
/// saturated.
pub fn saturate(u: &mut RigUnion)
    requires
        old(u).wf(),
        universe_closed(old(u)@.len() as int),
        justified(old(u)@),
    ensures
        final(u).wf(),
        final(u)@.len() == old(u)@.len(),
        justified(final(u)@),
        squares_identified(old(u)@) ==> squares_identified(final(u)@),
        saturated(final(u)@),
{
    let ghost n = u@.len();
    let ghost start = u@;
    loop
        invariant
            u.wf(),
            u@.len() == n,
            universe_closed(n as int),
            justified(u@),
            squares_identified(start) ==> squares_identified(u@),
        ensures
            saturated(u@),
        decreases pointer_total(u@),
    {
        let ghost before = u@;
        let changed = saturation_pass(u);
        if !changed {
            break ;
        }
        assert(pointer_total(u@) < pointer_total(before));
    }
}

/// The least congruence on the first `n` elements that joins every element
/// with its square, for the full universe of `NUM_RIGS` elements or for the
/// sixteen elements over `1` and `a` alone.
pub fn congruence_closure(n: usize) -> (u: RigUnion)
    requires
        n == 16 || n == NUM_RIGS,
    ensures
        u.wf(),
        u@.len() == n,
        squares_identified(u@),
        saturated(u@),
        forall|rel: spec_fn(int, int) -> bool, x: int, y: int|
            is_square_congruence(rel, n as int) && 0 <= x < n && 0 <= y < n && same_class(u@, x, y)
                ==> #[trigger] rel(x, y),
{
    proof {
        lemma_universe_closed(n as int);
    }
    let mut u = RigUnion::with_size(n);
    proof {
        lemma_identity_justified(u@);
    }
    identify_squares(&mut u);
    saturate(&mut u);
    proof {
        assert forall|rel: spec_fn(int, int) -> bool, x: int, y: int|
            is_square_congruence(rel, n as int) && 0 <= x < n && 0 <= y < n && same_class(
                u@,
                x,
                y,
            ) implies #[trigger] rel(x, y) by {
            lemma_justified_least(u@, rel, x, y);
        }
    }
    u
}

} // verus!
