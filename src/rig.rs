//! Elements of the rig: seven coefficients over the basis monomials
//! `1, a, b, ab, ba, aba, bab`, and their dense radix-4 numbering.

use vstd::prelude::*;

verus! {

/// Number of elements with every coefficient in `{0, 1, 2, 3}`: `4^7`.
pub const NUM_RIGS: usize = 16384;

/// An element of the rig, as the coefficients of its seven basis monomials.
#[derive(Clone, Copy, Debug, PartialEq, Eq, Structural, Hash)]
pub struct Rig {
    pub i: usize,
    pub a: usize,
    pub b: usize,
    pub ab: usize,
    pub ba: usize,
    pub aba: usize,
    pub bab: usize,
}

impl Rig {
    /// Every coefficient lies in `{0, 1, 2, 3}`.
    pub open spec fn valid(&self) -> bool {
        &&& self.i < 4
        &&& self.a < 4
        &&& self.b < 4
        &&& self.ab < 4
        &&& self.ba < 4
        &&& self.aba < 4
        &&& self.bab < 4
    }

    /// The radix-4 number of the element: coefficient `k` is digit `k`.
    pub open spec fn index(&self) -> int {
        self.i + 4 * self.a + 16 * self.b + 64 * self.ab + 256 * self.ba + 1024 * self.aba + 4096
            * self.bab
    }
}

/// The element numbered `n`: its coefficients are the base-4 digits of `n`.
pub open spec fn decode(n: int) -> Rig {
    Rig {
        i: (n % 4) as usize,
        a: (n / 4 % 4) as usize,
        b: (n / 16 % 4) as usize,
        ab: (n / 64 % 4) as usize,
        ba: (n / 256 % 4) as usize,
        aba: (n / 1024 % 4) as usize,
        bab: (n / 4096 % 4) as usize,
    }
}

/// The fold applied to each coefficient: values from 4 up are brought back to
/// 2 or 3, keeping their parity, since `4x = 2x` in an idempotent rig.
pub open spec fn fold(v: int) -> int {
    if v >= 4 {
        v % 2 + 2
    } else {
        v
    }
}

/// Every coefficient folded.
pub open spec fn normalised(r: Rig) -> Rig {
    Rig {
        i: fold(r.i as int) as usize,
        a: fold(r.a as int) as usize,
        b: fold(r.b as int) as usize,
        ab: fold(r.ab as int) as usize,
        ba: fold(r.ba as int) as usize,
        aba: fold(r.aba as int) as usize,
        bab: fold(r.bab as int) as usize,
    }
}

/// The sum: coefficients added slot by slot, then folded.
pub open spec fn sum(x: Rig, y: Rig) -> Rig {
    Rig {
        i: fold(x.i + y.i) as usize,
        a: fold(x.a + y.a) as usize,
        b: fold(x.b + y.b) as usize,
        ab: fold(x.ab + y.ab) as usize,
        ba: fold(x.ba + y.ba) as usize,
        aba: fold(x.aba + y.aba) as usize,
        bab: fold(x.bab + y.bab) as usize,
    }
}

/// The product: the bilinear table of the reduced words, then folded.
pub open spec fn product(x: Rig, y: Rig) -> Rig {
    Rig {
        i: fold(x.i * y.i) as usize,
        a: fold(x.i * y.a + x.a * y.i + x.a * y.a) as usize,
        b: fold(x.i * y.b + x.b * y.i + x.b * y.b) as usize,
        ab: fold(
            x.i * y.ab + x.ab * y.i + x.ab * y.ab + x.a * y.b + x.a * y.ab + x.a * y.bab + x.ab * y.b
                + x.ab * y.bab + x.aba * y.b + x.aba * y.ab + x.aba * y.bab,
        ) as usize,
        ba: fold(
            x.i * y.ba + x.ba * y.i + x.ba * y.ba + x.b * y.a + x.b * y.ba + x.b * y.aba + x.ba * y.a
                + x.ba * y.aba + x.bab * y.a + x.bab * y.ba + x.bab * y.aba,
        ) as usize,
        aba: fold(
            x.i * y.aba + x.aba * y.i + x.aba * y.aba + x.a * y.ba + x.a * y.aba + x.ab * y.a + x.ab
                * y.ba + x.ab * y.aba + x.aba * y.a + x.aba * y.ba,
        ) as usize,
        bab: fold(
            x.i * y.bab + x.bab * y.i + x.bab * y.bab + x.b * y.ab + x.b * y.bab + x.ba * y.b + x.ba
                * y.ab + x.ba * y.bab + x.bab * y.b + x.bab * y.ab,
        ) as usize,
    }
}

proof fn lemma_small_products()
    ensures
        forall|p: int, q: int| 0 <= p < 4 && 0 <= q < 4 ==> 0 <= #[trigger] (p * q) <= 9,
{
    assert forall|p: int, q: int| 0 <= p < 4 && 0 <= q < 4 implies 0 <= #[trigger] (p * q) <= 9 by {
        assert(0 <= p * q <= 9) by (nonlinear_arith)
            requires
                0 <= p < 4,
                0 <= q < 4,
        ;
    }
}

proof fn lemma_digits_of_index(i: u64, a: u64, b: u64, ab: u64, ba: u64, aba: u64, bab: u64)
    by (bit_vector)
    requires
        i < 4,
        a < 4,
        b < 4,
        ab < 4,
        ba < 4,
        aba < 4,
        bab < 4,
    ensures
        ({
            let m = i + 4 * a + 16 * b + 64 * ab + 256 * ba + 1024 * aba + 4096 * bab;
            &&& m % 4 == i
            &&& m / 4 % 4 == a
            &&& m / 16 % 4 == b
            &&& m / 64 % 4 == ab
            &&& m / 256 % 4 == ba
            &&& m / 1024 % 4 == aba
            &&& m / 4096 % 4 == bab
        }),
{
}

proof fn lemma_unpack(n: usize)
    by (bit_vector)
    ensures
        n & 3 == n % 4,
        (n >> 2) & 3 == n / 4 % 4,
        (n >> 4) & 3 == n / 16 % 4,
        (n >> 6) & 3 == n / 64 % 4,
        (n >> 8) & 3 == n / 256 % 4,
        (n >> 10) & 3 == n / 1024 % 4,
        (n >> 12) & 3 == n / 4096 % 4,
{
}

proof fn lemma_pack(d: usize)
    by (bit_vector)
    requires
        d < 4,
    ensures
        d << 2 == 4 * d,
        d << 4 == 16 * d,
        d << 6 == 64 * d,
        d << 8 == 256 * d,
        d << 10 == 1024 * d,
        d << 12 == 4096 * d,
{
}

fn fold_coefficient(v: usize) -> (r: usize)
    ensures
        r as int == fold(v as int),
        r < 4,
{
    if v >= 4 {
        v % 2 + 2
    } else {
        v
    }
}

impl Rig {
    /// The element numbered `i`, reading the low fourteen bits of `i` as seven
    /// base-4 digits.
    pub fn from(i: usize) -> (r: Rig)
        ensures
            r.valid(),
            r == decode(i as int),
    {
        proof {
            lemma_unpack(i);
        }
        Rig {
            i: i & 3,
            a: (i >> 2) & 3,
            b: (i >> 4) & 3,
            ab: (i >> 6) & 3,
            ba: (i >> 8) & 3,
            aba: (i >> 10) & 3,
            bab: (i >> 12) & 3,
        }
    }

    /// The number of a valid element.
    pub fn to_int(&self) -> (r: usize)
        requires
            self.valid(),
        ensures
            r as int == self.index(),
            r < NUM_RIGS,
    {
        proof {
            lemma_pack(self.a);
            lemma_pack(self.b);
            lemma_pack(self.ab);
            lemma_pack(self.ba);
            lemma_pack(self.aba);
            lemma_pack(self.bab);
        }
        self.i + (self.a << 2) + (self.b << 4) + (self.ab << 6) + (self.ba << 8) + (self.aba << 10)
            + (self.bab << 12)
    }

    /// Folds every coefficient into `{0, 1, 2, 3}`.
    pub fn normalise(&self) -> (r: Rig)
        ensures
            r == normalised(*self),
            r.valid(),
    {
        Rig {
            i: fold_coefficient(self.i),
            a: fold_coefficient(self.a),
            b: fold_coefficient(self.b),
            ab: fold_coefficient(self.ab),
            ba: fold_coefficient(self.ba),
            aba: fold_coefficient(self.aba),
            bab: fold_coefficient(self.bab),
        }
    }

    /// The sum of two valid elements.
    pub fn add(&self, other: &Rig) -> (r: Rig)
        requires
            self.valid(),
            other.valid(),
        ensures
            r == sum(*self, *other),
            r.valid(),
    {
        Rig {
            i: self.i + other.i,
            a: self.a + other.a,
            b: self.b + other.b,
            ab: self.ab + other.ab,
            ba: self.ba + other.ba,
            aba: self.aba + other.aba,
            bab: self.bab + other.bab,
        }.normalise()
    }

    /// The product of two valid elements.
    pub fn mul(&self, other: &Rig) -> (r: Rig)
        requires
            self.valid(),
            other.valid(),
        ensures
            r == product(*self, *other),
            r.valid(),
    {
        proof {
            lemma_small_products();
        }
        let x = self;
        let y = other;
        Rig {
            i: x.i * y.i,
            a: x.i * y.a + x.a * y.i + x.a * y.a,
            b: x.i * y.b + x.b * y.i + x.b * y.b,
            ab: x.i * y.ab + x.ab * y.i + x.ab * y.ab + x.a * y.b + x.a * y.ab + x.a * y.bab + x.ab
                * y.b + x.ab * y.bab + x.aba * y.b + x.aba * y.ab + x.aba * y.bab,
            ba: x.i * y.ba + x.ba * y.i + x.ba * y.ba + x.b * y.a + x.b * y.ba + x.b * y.aba + x.ba
                * y.a + x.ba * y.aba + x.bab * y.a + x.bab * y.ba + x.bab * y.aba,
            aba: x.i * y.aba + x.aba * y.i + x.aba * y.aba + x.a * y.ba + x.a * y.aba + x.ab * y.a
                + x.ab * y.ba + x.ab * y.aba + x.aba * y.a + x.aba * y.ba,
            bab: x.i * y.bab + x.bab * y.i + x.bab * y.bab + x.b * y.ab + x.b * y.bab + x.ba * y.b
                + x.ba * y.ab + x.ba * y.bab + x.bab * y.b + x.bab * y.ab,
        }.normalise()
    }
}

/// Folding is idempotent: a folded element folds to itself.
pub proof fn lemma_normalise_idempotent(r: Rig)
    ensures
        normalised(normalised(r)) == normalised(r),
{
}

/// Numbering and decoding are mutual inverses on the universe: decoding a
/// number in `[0, NUM_RIGS)` gives a valid element with that number, and a
/// valid element decodes back from its number.
pub proof fn lemma_round_trip(n: int, r: Rig)
    requires
        0 <= n < NUM_RIGS,
        r.valid(),
    ensures
        decode(n).valid(),
        decode(n).index() == n,
        decode(r.index()) == r,
        0 <= r.index() < NUM_RIGS,
{
    let d = decode(n);
    assert(d.index() == n) by (nonlinear_arith)
        requires
            0 <= n < 16384,
            d.i == n % 4,
            d.a == n / 4 % 4,
            d.b == n / 16 % 4,
            d.ab == n / 64 % 4,
            d.ba == n / 256 % 4,
            d.aba == n / 1024 % 4,
            d.bab == n / 4096 % 4,
            d.index() == d.i + 4 * d.a + 16 * d.b + 64 * d.ab + 256 * d.ba + 1024 * d.aba + 4096
                * d.bab,
    ;
    lemma_digits_of_index(
        r.i as u64,
        r.a as u64,
        r.b as u64,
        r.ab as u64,
        r.ba as u64,
        r.aba as u64,
        r.bab as u64,
    );
}

/// Sums and products of valid elements are valid, so their numbers lie in
/// `[0, NUM_RIGS)`.
pub proof fn lemma_operations_closed(x: Rig, y: Rig)
    requires
        x.valid(),
        y.valid(),
    ensures
        sum(x, y).valid(),
        product(x, y).valid(),
        0 <= sum(x, y).index() < NUM_RIGS,
        0 <= product(x, y).index() < NUM_RIGS,
{
    lemma_small_products();
}

} // verus!
