//! Summary of a partition: the sizes of its classes, largest first.

use vstd::prelude::*;
use crate::rig::Rig;

verus! {

broadcast use vstd::seq_lib::group_to_multiset_ensures;

/// The number of elements of each class, in the order of the classes.
pub open spec fn class_lengths(classes: Seq<Vec<Rig>>) -> Seq<usize> {
    Seq::new(classes.len(), |c: int| classes[c]@.len() as usize)
}

/// No entry is smaller than a later one.
pub open spec fn descending(s: Seq<usize>) -> bool {
    forall|i: int, j: int| 0 <= i < j < s.len() ==> s[i] >= s[j]
}

proof fn lemma_insert_to_multiset(s: Seq<usize>, i: int, x: usize)
    requires
        0 <= i <= s.len(),
    ensures
        s.insert(i, x).to_multiset() == s.to_multiset().insert(x),
{
    let a = s.subrange(0, i);
    let b = s.subrange(i, s.len() as int);
    assert(s =~= a + b);
    vstd::seq_lib::lemma_multiset_commutative(a, b);
    vstd::seq_lib::lemma_multiset_commutative(a.push(x), b);
    assert(s.insert(i, x) =~= a.push(x) + b);
    assert(a.push(x).to_multiset() == a.to_multiset().insert(x));
    assert(s.insert(i, x).to_multiset() =~= s.to_multiset().insert(x));
}

/// The sizes of the classes, largest first: a descending rearrangement of the
/// class lengths.
pub fn class_sizes(classes: &Vec<Vec<Rig>>) -> (sizes: Vec<usize>)
    ensures
        descending(sizes@),
        sizes@.to_multiset() == class_lengths(classes@).to_multiset(),
{
    let ghost lengths = class_lengths(classes@);
    let mut sizes: Vec<usize> = Vec::new();
    let mut c: usize = 0;
    while c < classes.len()
        invariant
            lengths == class_lengths(classes@),
            c <= classes@.len(),
            descending(sizes@),
            sizes@.to_multiset() == lengths.subrange(0, c as int).to_multiset(),
        decreases classes@.len() - c,
    {
        let size = classes[c].len();
        let mut pos: usize = 0;
        while pos < sizes.len() && sizes[pos] >= size
            invariant
                pos <= sizes@.len(),
                forall|j: int| 0 <= j < pos ==> #[trigger] sizes@[j] >= size,
            decreases sizes@.len() - pos,
        {
            pos = pos + 1;
        }
        let ghost before = sizes@;
        sizes.insert(pos, size);
        proof {
            lemma_insert_to_multiset(before, pos as int, size);
            assert(lengths.subrange(0, c + 1) =~= lengths.subrange(0, c as int).push(size));
            assert forall|i: int, j: int| 0 <= i < j < sizes@.len() implies sizes@[i]
                >= sizes@[j] by {
                if i < pos && j > pos {
                    assert(before[i] >= before[j - 1]);
                }
                if i > pos {
                    assert(before[i - 1] >= before[j - 1]);
                }
                if i == pos && j > pos && pos < before.len() {
                    assert(before[pos as int] < size);
                    assert(before[pos as int] >= before[j - 1]);
                }
            }
        }
        c = c + 1;
    }
    proof {
        assert(lengths.subrange(0, classes@.len() as int) =~= lengths);
    }
    sizes
}

} // verus!
