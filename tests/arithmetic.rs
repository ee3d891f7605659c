use idempotent_rig::rig::{Rig, NUM_RIGS};

fn rig(i: usize, a: usize, b: usize, ab: usize, ba: usize, aba: usize, bab: usize) -> Rig {
    Rig { i, a, b, ab, ba, aba, bab }
}

#[test]
fn normalise_folds_large_coefficients() {
    let r = rig(4, 5, 6, 7, 3, 0, 8).normalise();
    assert_eq!(r, rig(2, 3, 2, 3, 3, 0, 2));
}

#[test]
fn normalise_is_idempotent() {
    for v in 0..40usize {
        let r = rig(v, v + 1, v + 2, v + 3, v * 2, v * 3, v % 5);
        let once = r.normalise();
        assert_eq!(once.normalise(), once);
    }
}

#[test]
fn from_and_to_int_round_trip() {
    for n in 0..NUM_RIGS {
        let r = Rig::from(n);
        assert!(r.i < 4 && r.a < 4 && r.b < 4 && r.ab < 4);
        assert!(r.ba < 4 && r.aba < 4 && r.bab < 4);
        assert_eq!(r.to_int(), n);
    }
}

#[test]
fn from_reads_base_four_digits() {
    assert_eq!(Rig::from(0), rig(0, 0, 0, 0, 0, 0, 0));
    assert_eq!(Rig::from(1 + 4 * 2 + 16 * 3 + 4096 * 1), rig(1, 2, 3, 0, 0, 0, 1));
    assert_eq!(Rig::from(NUM_RIGS - 1), rig(3, 3, 3, 3, 3, 3, 3));
    assert_eq!(rig(0, 0, 0, 1, 0, 0, 0).to_int(), 64);
}

#[test]
fn operations_stay_in_the_universe() {
    let mut x = 0;
    while x < NUM_RIGS {
        let mut y = 0;
        while y < NUM_RIGS {
            let rx = Rig::from(x);
            let ry = Rig::from(y);
            assert!(rx.add(&ry).to_int() < NUM_RIGS);
            assert!(rx.mul(&ry).to_int() < NUM_RIGS);
            y += 61;
        }
        x += 53;
    }
}

#[test]
fn addition_adds_then_folds() {
    let x = rig(1, 2, 3, 0, 1, 2, 3);
    let y = rig(3, 3, 3, 3, 0, 1, 2);
    assert_eq!(x.add(&y), rig(2, 3, 2, 3, 1, 3, 3));
    assert_eq!(x.add(&y), y.add(&x));
}

#[test]
fn identity_squared_is_identity() {
    let one = rig(1, 0, 0, 0, 0, 0, 0);
    assert_eq!(one.mul(&one), one);
}

#[test]
fn generator_squared_is_itself() {
    let a = rig(0, 1, 0, 0, 0, 0, 0);
    assert_eq!(a.mul(&a), a);
    let b = rig(0, 0, 1, 0, 0, 0, 0);
    assert_eq!(b.mul(&b), b);
}

#[test]
fn multiplication_table_words() {
    let a = rig(0, 1, 0, 0, 0, 0, 0);
    let b = rig(0, 0, 1, 0, 0, 0, 0);
    let ab = rig(0, 0, 0, 1, 0, 0, 0);
    let ba = rig(0, 0, 0, 0, 1, 0, 0);
    let aba = rig(0, 0, 0, 0, 0, 1, 0);
    let bab = rig(0, 0, 0, 0, 0, 0, 1);
    assert_eq!(a.mul(&b), ab);
    assert_eq!(b.mul(&a), ba);
    assert_eq!(ab.mul(&a), aba);
    assert_eq!(a.mul(&ba), aba);
    assert_eq!(ba.mul(&b), bab);
    assert_eq!(aba.mul(&b), ab);
    assert_eq!(bab.mul(&a), ba);
    assert_eq!(ab.mul(&ab), ab);
    assert_eq!(aba.mul(&aba), aba);
}

#[test]
fn multiplication_folds_coefficients() {
    let two_a = rig(0, 2, 0, 0, 0, 0, 0);
    let three_a = rig(0, 3, 0, 0, 0, 0, 0);
    assert_eq!(two_a.mul(&three_a), two_a);
    let one_plus_a = rig(1, 1, 0, 0, 0, 0, 0);
    assert_eq!(one_plus_a.mul(&one_plus_a), rig(1, 3, 0, 0, 0, 0, 0));
    let a_plus_b = rig(0, 1, 1, 0, 0, 0, 0);
    assert_eq!(a_plus_b.mul(&a_plus_b), rig(0, 1, 1, 1, 1, 0, 0));
}
