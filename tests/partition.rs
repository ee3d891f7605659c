use idempotent_rig::closure::{congruence_closure, identify_squares, saturate, Operation};
use idempotent_rig::report::class_sizes;
use idempotent_rig::rig::{Rig, NUM_RIGS};
use idempotent_rig::union_find::RigUnion;

fn roots_of(u: &RigUnion) -> Vec<usize> {
    (0..u.len()).map(|k| u.find(k)).collect()
}

#[test]
fn new_partition_is_finest() {
    let u = RigUnion::new();
    assert_eq!(u.len(), NUM_RIGS);
    for k in (0..NUM_RIGS).step_by(97) {
        assert_eq!(u.find(k), k);
    }
}

#[test]
fn union_roots_class_at_smaller_root() {
    let mut u = RigUnion::with_size(64);
    u.union(&Rig::from(40), &Rig::from(17));
    assert_eq!(u.find(40), 17);
    assert_eq!(u.find(17), 17);
    u.union(&Rig::from(9), &Rig::from(63));
    u.union(&Rig::from(63), &Rig::from(40));
    for k in [9, 17, 40, 63] {
        assert_eq!(u.find(k), 9);
    }
    assert_eq!(u.find(10), 10);
}

#[test]
fn union_of_one_class_changes_no_root() {
    let mut u = RigUnion::with_size(16);
    u.union(&Rig::from(3), &Rig::from(12));
    let before = roots_of(&u);
    u.union(&Rig::from(12), &Rig::from(3));
    u.union(&Rig::from(5), &Rig::from(5));
    assert_eq!(roots_of(&u), before);
}

#[test]
fn find_is_idempotent() {
    let mut u = RigUnion::with_size(256);
    for (x, y) in [(200, 3), (150, 200), (99, 150), (255, 7), (7, 99)] {
        u.union(&Rig::from(x), &Rig::from(y));
    }
    for k in 0..256 {
        let r = u.find(k);
        assert_eq!(u.find(r), r);
        assert!(r <= k);
    }
}

#[test]
fn merge_order_does_not_matter() {
    let pairs = [(12, 5), (33, 60), (5, 60), (48, 2), (17, 33), (48, 48)];
    let mut forward = RigUnion::with_size(64);
    for (x, y) in pairs {
        forward.union(&Rig::from(x), &Rig::from(y));
    }
    let mut backward = RigUnion::with_size(64);
    for (x, y) in pairs.iter().rev() {
        backward.union(&Rig::from(*y), &Rig::from(*x));
    }
    assert_eq!(roots_of(&forward), roots_of(&backward));
    assert_eq!(forward.find(60), 5);
    assert_eq!(forward.find(48), 2);
}

#[test]
fn snapshot_compares_equal_until_a_union() {
    let mut u = RigUnion::with_size(16);
    let copy = u.snapshot();
    assert!(u == copy);
    u.union(&Rig::from(1), &Rig::from(2));
    assert!(u != copy);
}

#[test]
fn classes_partition_the_universe() {
    let mut u = RigUnion::with_size(16);
    u.union(&Rig::from(4), &Rig::from(9));
    u.union(&Rig::from(9), &Rig::from(15));
    let classes = u.get_classes();
    assert_eq!(classes.len(), 14);
    assert_eq!(classes[4], vec![Rig::from(4), Rig::from(9), Rig::from(15)]);
    let total: usize = classes.iter().map(|c| c.len()).sum();
    assert_eq!(total, 16);
    assert_eq!(class_sizes(&classes)[0], 3);
}

#[test]
fn class_sizes_are_descending() {
    let classes = vec![
        vec![Rig::from(0)],
        vec![Rig::from(1), Rig::from(2), Rig::from(3)],
        vec![],
        vec![Rig::from(4), Rig::from(5)],
        vec![Rig::from(6), Rig::from(7), Rig::from(8)],
    ];
    assert_eq!(class_sizes(&classes), vec![3, 3, 2, 1, 0]);
    assert_eq!(class_sizes(&Vec::new()), Vec::<usize>::new());
}

#[test]
fn seed_joins_each_element_with_its_square() {
    let mut u = RigUnion::with_size(16);
    identify_squares(&mut u);
    for k in 0..16 {
        let r = Rig::from(k);
        assert_eq!(u.find(k), u.find(r.mul(&r).to_int()));
    }
    // 1 + a squares to 1 + 3a, so the two share a class.
    assert_eq!(u.find(5), u.find(13));
    // 1 and a are idempotent: their seed joins change nothing.
    assert_eq!(u.find(1), 1);
    assert_eq!(u.find(4), 4);
}

fn op(o: Operation, x: usize, y: usize) -> usize {
    o.apply(&Rig::from(x), &Rig::from(y)).to_int()
}

/// The least congruence of the sixteen elements over 1 and a, computed on a
/// relation matrix without any forest.
fn brute_force_sizes() -> Vec<usize> {
    let n = 16;
    let mut rel = vec![vec![false; n]; n];
    for x in 0..n {
        rel[x][x] = true;
        let s = op(Operation::Mul, x, x);
        rel[x][s] = true;
        rel[s][x] = true;
    }
    let mut changed = true;
    while changed {
        changed = false;
        let mut join = |rel: &mut Vec<Vec<bool>>, x: usize, y: usize| {
            if !rel[x][y] {
                rel[x][y] = true;
                rel[y][x] = true;
                changed = true;
            }
        };
        for x in 0..n {
            for y in 0..n {
                for z in 0..n {
                    if rel[x][y] && rel[y][z] {
                        join(&mut rel, x, z);
                    }
                }
            }
        }
        for x in 0..n {
            for x2 in 0..n {
                if rel[x][x2] {
                    for y in 0..n {
                        for o in [Operation::Add, Operation::Mul] {
                            let (p, q) = (op(o, x, y), op(o, x2, y));
                            join(&mut rel, p, q);
                            let (p, q) = (op(o, y, x), op(o, y, x2));
                            join(&mut rel, p, q);
                        }
                    }
                }
            }
        }
    }
    let mut seen = vec![false; n];
    let mut sizes = Vec::new();
    for x in 0..n {
        if !seen[x] {
            let members: Vec<usize> = (0..n).filter(|&y| rel[x][y]).collect();
            for &y in &members {
                seen[y] = true;
            }
            sizes.push(members.len());
        }
    }
    sizes.sort();
    sizes.reverse();
    sizes
}

#[test]
fn small_universe_matches_brute_force() {
    let u = congruence_closure(16);
    let sizes = class_sizes(&u.get_classes());
    assert_eq!(sizes.iter().sum::<usize>(), 16);
    assert_eq!(sizes, brute_force_sizes());
}

#[test]
fn small_universe_closure_is_a_congruence() {
    let u = congruence_closure(16);
    for i in 0..16 {
        assert_eq!(u.find(i), u.find(op(Operation::Mul, i, i)));
        for i2 in 0..16 {
            if u.find(i) != u.find(i2) {
                continue;
            }
            for j in 0..16 {
                for o in [Operation::Add, Operation::Mul] {
                    assert_eq!(u.find(op(o, i, j)), u.find(op(o, i2, j)));
                    assert_eq!(u.find(op(o, j, i)), u.find(op(o, j, i2)));
                }
            }
        }
    }
}

#[test]
fn saturating_a_saturated_partition_changes_nothing() {
    let mut u = congruence_closure(16);
    let before = roots_of(&u);
    saturate(&mut u);
    assert_eq!(roots_of(&u), before);
}
