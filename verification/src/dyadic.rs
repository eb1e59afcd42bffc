//! Arithmetic in double precision, carried out on integers.
//!
//! A double precision number that is not zero is a mantissa of 53 bits times
//! a power of two. Every operation here gives the exact result rounded to the
//! nearest such number, to the one with the even mantissa where two are
//! equally near. All numbers that occur lie far inside the range in which
//! double precision keeps 53 bits.

use vstd::prelude::*;
use vstd::arithmetic::div_mod::lemma_fundamental_div_mod;
use vstd::arithmetic::power2::{
    lemma2_to64, lemma2_to64_rest, lemma_pow2_adds, lemma_pow2_pos,
    lemma_pow2_strictly_increases, lemma_pow2_unfold, pow2,
};

verus! {

/// The least mantissa of 53 bits: two to the power 52.
pub const TWO52: u64 = 0x10_0000_0000_0000;

/// One more than the largest mantissa of 53 bits: two to the power 53.
pub const TWO53: u64 = 0x20_0000_0000_0000;

/// The number `mant * 2^exp`.
pub struct Dyadic {
    pub mant: int,
    pub exp: int,
}

impl Dyadic {
    /// Zero.
    pub open spec fn zero() -> Dyadic {
        Dyadic { mant: 0, exp: 0 }
    }

    /// This number times `2^k`.
    pub open spec fn scaled(self, k: int) -> Dyadic {
        Dyadic { mant: self.mant, exp: self.exp + k }
    }

    /// This number with the opposite sign.
    pub open spec fn negated(self) -> Dyadic {
        Dyadic { mant: -self.mant, exp: self.exp }
    }
}

/// The integer nearest to `n / d`, the even one where two are equally near.
pub open spec fn nearest_even(n: int, d: int) -> int {
    let q = n / d;
    let r = n % d;
    if 2 * r < d || (2 * r == d && q % 2 == 0) {
        q
    } else {
        q + 1
    }
}

/// How far `n / d` is from having a quotient of 53 bits.
pub open spec fn round_measure(n: int, d: int) -> int {
    if n >= 0x20_0000_0000_0000 * d {
        n - 0x10_0000_0000_0000 * d
    } else if n < 0x10_0000_0000_0000 * d {
        0x10_0000_0000_0000 * d - n
    } else {
        0
    }
}

/// The positive fraction `n / d` rounded to 53 bits.
///
/// The fraction is first brought between `2^52` and `2^53` by doubling `d` or
/// `n`, which the exponent of the result makes good for. The quotient is then
/// rounded to the nearest integer; where that gives `2^53`, the result is
/// `2^52` with the exponent one higher.
pub open spec fn round53(n: int, d: int) -> Dyadic
    decreases round_measure(n, d),
{
    if n <= 0 || d <= 0 {
        Dyadic::zero()
    } else if n >= 0x20_0000_0000_0000 * d {
        round53(n, 2 * d).scaled(1)
    } else if n < 0x10_0000_0000_0000 * d {
        round53(2 * n, d).scaled(-1)
    } else {
        let m = nearest_even(n, d);
        if m == TWO53 {
            Dyadic { mant: TWO52 as int, exp: 1 }
        } else {
            Dyadic { mant: m, exp: 0 }
        }
    }
}

/// The part of an exponent that scales up: `e` where it is positive.
pub open spec fn scale_up(e: int) -> nat {
    if e >= 0 {
        e as nat
    } else {
        0
    }
}

/// The part of an exponent that scales down: `-e` where `e` is negative.
pub open spec fn scale_down(e: int) -> nat {
    if e < 0 {
        (-e) as nat
    } else {
        0
    }
}

/// Twice the distance from `n / d` to `r`, both multiplied by `d` and by
/// whatever power of two makes them integers.
pub open spec fn twice_distance(n: int, d: int, r: Dyadic) -> int {
    2 * (n * pow2(scale_down(r.exp)) - r.mant * (d * pow2(scale_up(r.exp))))
}

/// One unit in the last bit of `r`, multiplied as in `twice_distance`.
pub open spec fn last_bit(d: int, r: Dyadic) -> int {
    d * pow2(scale_up(r.exp))
}

/// `round53` rounds to the nearest: the result has a mantissa of 53 bits, it
/// lies within half a unit of its last bit of `n / d`, and where it lies
/// exactly half a unit away its mantissa is even.
pub proof fn lemma_round53_nearest(n: int, d: int)
    requires
        n > 0,
        d > 0,
    ensures
        TWO52 <= round53(n, d).mant < TWO53,
        -last_bit(d, round53(n, d)) <= twice_distance(n, d, round53(n, d)) <= last_bit(
            d,
            round53(n, d),
        ),
        twice_distance(n, d, round53(n, d)) == last_bit(d, round53(n, d)) || twice_distance(
            n,
            d,
            round53(n, d),
        ) == -last_bit(d, round53(n, d)) ==> round53(n, d).mant % 2 == 0,
        n >= 0x10_0000_0000_0000 * d ==> round53(n, d).exp >= 0,
        n < 0x20_0000_0000_0000 * d ==> round53(n, d).exp <= 1,
    decreases round_measure(n, d),
{
    lemma2_to64();
    let r = round53(n, d);
    if n >= 0x20_0000_0000_0000 * d {
        let inner = round53(n, 2 * d);
        lemma_round53_nearest(n, 2 * d);
        lemma_pow2_unfold((inner.exp + 1) as nat);
        let t = pow2(inner.exp as nat) as int;
        assert(d * (2 * t) == (2 * d) * t) by (nonlinear_arith);
    } else if n < 0x10_0000_0000_0000 * d {
        let inner = round53(2 * n, d);
        lemma_round53_nearest(2 * n, d);
        if inner.exp == 1 {
            assert(pow2(1) == 2 && pow2(0) == 1);
            assert((2 * n) * 1 == 2 * (n * 1));
            assert(d * 2 == 2 * (d * 1));
            let m = inner.mant;
            assert(m * (2 * (d * 1)) == 2 * (m * (d * 1))) by (nonlinear_arith);
        } else {
            lemma_pow2_unfold((-inner.exp + 1) as nat);
            let t = pow2((-inner.exp) as nat) as int;
            assert((2 * n) * t == n * (2 * t)) by (nonlinear_arith);
        }
    } else {
        lemma_fundamental_div_mod(n, d);
        let q = n / d;
        let rem = n % d;
        assert(0x10_0000_0000_0000 <= q < 0x20_0000_0000_0000) by (nonlinear_arith)
            requires
                n == d * q + rem,
                0 <= rem < d,
                0x10_0000_0000_0000 * d <= n < 0x20_0000_0000_0000 * d,
        ;
        assert(pow2(1) == 2 && pow2(0) == 1);
        assert(n * 1 == n && d * 1 == d);
        let m = nearest_even(n, d);
        if m == TWO53 {
            assert(0x10_0000_0000_0000 * (d * 2) == (q + 1) * d) by (nonlinear_arith)
                requires
                    q + 1 == 0x20_0000_0000_0000,
            ;
            assert((q + 1) * d == d * q + d) by (nonlinear_arith);
        } else if m == q {
            assert(q * d == d * q) by (nonlinear_arith);
        } else {
            assert((q + 1) * d == d * q + d) by (nonlinear_arith);
        }
    }
}

/// Rounds the fraction `n / d` to 53 bits and hands back mantissa and
/// exponent.
pub fn round_ratio(n: u128, d: u128) -> (r: (u64, i32))
    requires
        0 < n < 0x40_0000_0000_0000_0000_0000_0000_0000,
        0 < d < TWO53,
    ensures
        round53(n as int, d as int).mant == r.0,
        round53(n as int, d as int).exp == r.1,
        TWO52 <= r.0 < TWO53,
        -110 <= r.1 <= 70,
{
    let mut den: u128 = d;
    let mut num: u128 = n;
    let mut e: i32 = 0;
    proof {
        lemma2_to64();
    }
    while num >= 0x20_0000_0000_0000 * den
        invariant
            0 < den < 0x8_0000_0000_0000_0000,
            num == n,
            0 < n < 0x40_0000_0000_0000_0000_0000_0000_0000,
            0 < d < TWO53,
            0 <= e <= 66,
            den >= pow2(e as nat),
            e > 0 ==> num >= 0x10_0000_0000_0000 * den,
            e == 0 ==> den == d,
            round53(n as int, d as int) == round53(num as int, den as int).scaled(e as int),
        decreases num - 0x10_0000_0000_0000 * den,
    {
        proof {
            lemma_pow2_unfold((e + 1) as nat);
            if e >= 65 {
                lemma_pow2_monotone(65, e as nat);
                lemma_pow2_values();
            }
        }
        den = den * 2;
        e = e + 1;
    }
    while num < 0x10_0000_0000_0000 * den
        invariant
            0 < den < 0x8_0000_0000_0000_0000,
            0 < num < 0x40_0000_0000_0000_0000_0000_0000_0000,
            0 < d < TWO53,
            -106 <= e <= 66,
            e > 0 ==> num >= 0x10_0000_0000_0000 * den,
            e <= 0 ==> den == d,
            e <= 0 ==> num >= pow2((-e) as nat),
            num < 0x20_0000_0000_0000 * den,
            round53(n as int, d as int) == round53(num as int, den as int).scaled(e as int),
        decreases
                (if num < 0x10_0000_0000_0000 * den {
                    0x10_0000_0000_0000 * den - num
                } else {
                    0
                }),
    {
        proof {
            lemma_pow2_unfold((-e + 1) as nat);
            if e <= -105 {
                lemma_pow2_monotone(105, (-e) as nat);
                lemma_pow2_values();
            }
        }
        num = num * 2;
        e = e - 1;
    }
    let q: u128 = num / den;
    let r: u128 = num % den;
    proof {
        lemma_fundamental_div_mod(num as int, den as int);
        assert(0x10_0000_0000_0000 <= q < 0x20_0000_0000_0000) by (nonlinear_arith)
            requires
                num == den * q + r,
                0 <= r < den,
                0x10_0000_0000_0000 * den <= num < 0x20_0000_0000_0000 * den,
        ;
    }
    let m: u128 = if 2 * r < den || (2 * r == den && q % 2 == 0) {
        q
    } else {
        q + 1
    };
    if m == TWO53 as u128 {
        (TWO52, e + 1)
    } else {
        (m as u64, e)
    }
}

/// The powers of two grow with the exponent.
pub proof fn lemma_pow2_monotone(a: nat, b: nat)
    requires
        a <= b,
    ensures
        pow2(a) <= pow2(b),
{
    if a < b {
        lemma_pow2_strictly_increases(a, b);
    }
}

/// Some powers of two beyond the sixty-fourth.
pub proof fn lemma_pow2_values()
    ensures
        pow2(52) == 0x10_0000_0000_0000,
        pow2(53) == 0x20_0000_0000_0000,
        pow2(64) == 0x1_0000_0000_0000_0000,
        pow2(65) == 0x2_0000_0000_0000_0000,
        pow2(105) == 0x200_0000_0000_0000_0000_0000_0000,
{
    lemma2_to64();
    lemma2_to64_rest();
    lemma_pow2_unfold(65);
    lemma_pow2_adds(64, 41);
    assert(pow2(64) * pow2(41) == 0x200_0000_0000_0000_0000_0000_0000) by (nonlinear_arith)
        requires
            pow2(64) == 0x1_0000_0000_0000_0000,
            pow2(41) == 0x200_0000_0000,
    ;
}

/// The integer `i` as a double precision number.
pub open spec fn int_to_dyadic(i: int) -> Dyadic {
    if i > 0 {
        round53(i, 1)
    } else if i < 0 {
        round53(-i, 1).negated()
    } else {
        Dyadic::zero()
    }
}

/// The quotient of two positive double precision numbers.
pub open spec fn dyadic_div(x: Dyadic, y: Dyadic) -> Dyadic {
    round53(x.mant, y.mant).scaled(x.exp - y.exp)
}

/// The product of two double precision numbers.
pub open spec fn dyadic_mul(x: Dyadic, y: Dyadic) -> Dyadic {
    if x.mant == 0 || y.mant == 0 {
        Dyadic::zero()
    } else if (x.mant < 0) == (y.mant < 0) {
        round53(x.mant * y.mant, 1).scaled(x.exp + y.exp)
    } else {
        round53(-(x.mant * y.mant), 1).scaled(x.exp + y.exp).negated()
    }
}

/// The sum of two double precision numbers.
pub open spec fn dyadic_add(x: Dyadic, y: Dyadic) -> Dyadic {
    if x.mant == 0 {
        y
    } else if y.mant == 0 {
        x
    } else {
        let lo = if x.exp <= y.exp {
            x.exp
        } else {
            y.exp
        };
        let s = x.mant * pow2((x.exp - lo) as nat) + y.mant * pow2((y.exp - lo) as nat);
        if s > 0 {
            round53(s, 1).scaled(lo)
        } else if s < 0 {
            round53(-s, 1).scaled(lo).negated()
        } else {
            Dyadic::zero()
        }
    }
}

/// The integer part of a double precision number: the number with what
/// follows the binary point cut off.
pub open spec fn dyadic_trunc(x: Dyadic) -> int {
    if x.exp >= 0 {
        x.mant * pow2(x.exp as nat)
    } else if x.mant >= 0 {
        x.mant / (pow2((-x.exp) as nat) as int)
    } else {
        -((-x.mant) / (pow2((-x.exp) as nat) as int))
    }
}

/// `i` where it is within the range of `isize`, else the end of the range
/// that is nearer to it.
pub open spec fn saturated(i: int) -> int {
    if i < isize::MIN {
        isize::MIN as int
    } else if i > isize::MAX {
        isize::MAX as int
    } else {
        i
    }
}

/// A double precision number: zero, or a sign, a mantissa of 53 bits and an
/// exponent.
#[derive(Clone, Copy, Debug)]
pub struct Binary {
    pub negative: bool,
    pub mantissa: u64,
    pub exponent: i32,
}

impl Binary {
    /// The number that this stands for.
    pub open spec fn value(self) -> Dyadic {
        Dyadic {
            mant: if self.negative {
                -(self.mantissa as int)
            } else {
                self.mantissa as int
            },
            exp: self.exponent as int,
        }
    }

    /// Whether this is zero, written in the one way that zero is written,
    /// or has a mantissa of 53 bits and an exponent of at most `limit` either
    /// way.
    pub open spec fn within(self, limit: int) -> bool {
        ||| self.mantissa == 0 && self.exponent == 0 && !self.negative
        ||| TWO52 <= self.mantissa < TWO53 && -limit <= self.exponent <= limit
    }

    /// Converts an integer.
    pub fn from_int(i: i128) -> (r: Binary)
        requires
            -0x1_0000_0000_0000_0000 <= i <= 0x1_0000_0000_0000_0000,
        ensures
            r.value() == int_to_dyadic(i as int),
            r.within(110),
            i != 0 ==> r.mantissa != 0,
            i > 0 ==> !r.negative,
    {
        if i == 0 {
            Binary { negative: false, mantissa: 0, exponent: 0 }
        } else if i > 0 {
            let (m, e) = round_ratio(i as u128, 1);
            Binary { negative: false, mantissa: m, exponent: e }
        } else {
            let (m, e) = round_ratio((-i) as u128, 1);
            Binary { negative: true, mantissa: m, exponent: e }
        }
    }

    /// Divides one positive number by another.
    pub fn div(self, by: Binary) -> (r: Binary)
        requires
            self.within(110),
            by.within(110),
            self.mantissa != 0 && !self.negative,
            by.mantissa != 0 && !by.negative,
        ensures
            r.value() == dyadic_div(self.value(), by.value()),
            r.within(330),
            r.mantissa != 0 && !r.negative,
    {
        let (m, e) = round_ratio(self.mantissa as u128, by.mantissa as u128);
        Binary { negative: false, mantissa: m, exponent: e + (self.exponent - by.exponent) }
    }

    /// Multiplies two numbers.
    pub fn mul(self, by: Binary) -> (r: Binary)
        requires
            self.within(330),
            by.within(110),
        ensures
            r.value() == dyadic_mul(self.value(), by.value()),
            r.within(550),
    {
        if self.mantissa == 0 || by.mantissa == 0 {
            return Binary { negative: false, mantissa: 0, exponent: 0 };
        }
        assert(self.mantissa * by.mantissa < 0x400_0000_0000_0000_0000_0000_0000
            && self.mantissa * by.mantissa > 0) by (nonlinear_arith)
            requires
                0 < self.mantissa < 0x20_0000_0000_0000,
                0 < by.mantissa < 0x20_0000_0000_0000,
        ;
        let n: u128 = (self.mantissa as u128) * (by.mantissa as u128);
        let (m, e) = round_ratio(n, 1);
        proof {
            let x = self.value().mant;
            let y = by.value().mant;
            assert(x * y == n || x * y == -n) by (nonlinear_arith)
                requires
                    n == self.mantissa * by.mantissa,
                    x == self.mantissa || x == -self.mantissa,
                    y == by.mantissa || y == -by.mantissa,
            ;
            assert(((x < 0) == (y < 0)) ==> x * y == n) by (nonlinear_arith)
                requires
                    n == self.mantissa * by.mantissa,
                    n > 0,
                    x == self.mantissa || x == -self.mantissa,
                    y == by.mantissa || y == -by.mantissa,
                    (x < 0) == (y < 0) ==> (x == self.mantissa) == (y == by.mantissa),
                    self.mantissa > 0,
                    by.mantissa > 0,
            ;
            assert(((x < 0) != (y < 0)) ==> x * y == -n) by (nonlinear_arith)
                requires
                    n == self.mantissa * by.mantissa,
                    n > 0,
                    x == self.mantissa || x == -self.mantissa,
                    y == by.mantissa || y == -by.mantissa,
                    (x < 0) != (y < 0) ==> (x == self.mantissa) != (y == by.mantissa),
                    self.mantissa > 0,
                    by.mantissa > 0,
            ;
        }
        Binary {
            negative: self.negative != by.negative,
            mantissa: m,
            exponent: e + (self.exponent + by.exponent),
        }
    }
}

/// Computes a power of two.
pub fn power_of_two(k: u32) -> (p: u128)
    requires
        k <= 64,
    ensures
        p == pow2(k as nat),
        1 <= p <= 0x1_0000_0000_0000_0000,
{
    let mut p: u128 = 1;
    let mut i: u32 = 0;
    proof {
        lemma2_to64();
        lemma2_to64_rest();
    }
    while i < k
        invariant
            i <= k <= 64,
            p == pow2(i as nat),
            1 <= p <= 0x1_0000_0000_0000_0000,
            pow2(64) == 0x1_0000_0000_0000_0000,
        decreases k - i,
    {
        proof {
            lemma_pow2_unfold((i + 1) as nat);
            lemma_pow2_monotone((i + 1) as nat, 64);
        }
        p = p * 2;
        i = i + 1;
    }
    p
}

/// The number `magnitude`, or its opposite where `negative` is set, brought
/// into the range of `isize`.
pub fn saturate(negative: bool, magnitude: u128) -> (i: isize)
    requires
        magnitude <= 0x1_0000_0000_0000_0000_0000,
    ensures
        i == saturated(if negative { -(magnitude as int) } else { magnitude as int }),
{
    if negative {
        if magnitude > (isize::MAX as u128) + 1 {
            isize::MIN
        } else {
            (-(magnitude as i128)) as isize
        }
    } else {
        if magnitude > isize::MAX as u128 {
            isize::MAX
        } else {
            magnitude as isize
        }
    }
}

/// Doubling the denominator `j` times on the way to 53 bits raises the
/// exponent by `j`.
pub proof fn lemma_round_doubled(n: int, d: int, j: nat)
    requires
        d > 0,
        n >= 0x10_0000_0000_0000 * (d * pow2(j)),
    ensures
        round53(n, d) == round53(n, d * pow2(j)).scaled(j as int),
    decreases j,
{
    if j == 0 {
        assert(pow2(0) == 1) by {
            lemma2_to64();
        }
        assert(d * 1 == d);
    } else {
        lemma_pow2_unfold(j);
        lemma_pow2_pos((j - 1) as nat);
        let h = pow2((j - 1) as nat) as int;
        assert(d * pow2(j) == (2 * d) * h) by (nonlinear_arith)
            requires
                pow2(j) == 2 * h,
        ;
        assert(n >= 0x20_0000_0000_0000 * d) by (nonlinear_arith)
            requires
                n >= 0x10_0000_0000_0000 * ((2 * d) * h),
                h >= 1,
                d > 0,
        ;
        lemma_round_doubled(n, 2 * d, (j - 1) as nat);
    }
}

/// What `round53` gives for a fraction that needs no doubling.
pub proof fn lemma_round_in_place(n: int, d: int, q: int, r: int)
    requires
        d > 0,
        n == q * d + r,
        0 <= r < d,
        0x10_0000_0000_0000 <= q < 0x20_0000_0000_0000,
    ensures
        2 * r < d || (2 * r == d && q % 2 == 0) ==> round53(n, d) == (Dyadic { mant: q, exp: 0 }),
        !(2 * r < d || (2 * r == d && q % 2 == 0)) && q + 1 < 0x20_0000_0000_0000 ==> round53(n, d)
            == (Dyadic { mant: q + 1, exp: 0 }),
        !(2 * r < d || (2 * r == d && q % 2 == 0)) && q + 1 == 0x20_0000_0000_0000 ==> round53(n, d)
            == (Dyadic { mant: 0x10_0000_0000_0000, exp: 1 }),
{
    vstd::arithmetic::div_mod::lemma_fundamental_div_mod_converse(n, d, q, r);
    assert(0x10_0000_0000_0000 * d <= n < 0x20_0000_0000_0000 * d) by (nonlinear_arith)
        requires
            d > 0,
            n == q * d + r,
            0 <= r < d,
            0x10_0000_0000_0000 <= q < 0x20_0000_0000_0000,
    ;
}

/// Adding a number that is more than 2^54 times smaller changes nothing:
/// the sum, rounded, is the larger number.
pub proof fn lemma_add_far_apart(a: int, p: int, g: nat)
    requires
        0x10_0000_0000_0000 <= a < 0x20_0000_0000_0000,
        0 < p < 0x20_0000_0000_0000,
        g >= 55,
    ensures
        a * pow2(g) - p > 0,
        round53(a * pow2(g) + p, 1) == (Dyadic { mant: a, exp: g as int }),
        round53(a * pow2(g) - p, 1) == (Dyadic { mant: a, exp: g as int }),
{
    lemma2_to64_rest();
    lemma_pow2_monotone(55, g);
    lemma_pow2_unfold(g);
    let t = pow2(g) as int;
    let h = pow2((g - 1) as nat) as int;
    assert(t >= 0x80_0000_0000_0000 && t == 2 * h);
    let up = a * t + p;
    let down = a * t - p;
    assert(1 * t == t);
    // the sum
    assert(up >= 0x10_0000_0000_0000 * (1 * t)) by (nonlinear_arith)
        requires
            up == a * t + p,
            a >= 0x10_0000_0000_0000,
            t > 0,
            p > 0,
    ;
    lemma_round_doubled(up, 1, g);
    lemma_round_in_place(up, t, a, p);
    // the difference
    if a > 0x10_0000_0000_0000 {
        assert(down == (a - 1) * t + (t - p) && down >= 0x10_0000_0000_0000 * (1 * t))
            by (nonlinear_arith)
            requires
                down == a * t - p,
                a > 0x10_0000_0000_0000,
                t > p,
                p > 0,
        ;
        lemma_round_doubled(down, 1, g);
        lemma_round_in_place(down, t, a - 1, t - p);
    } else {
        assert(1 * h == h);
        assert(down == 0x1f_ffff_ffff_ffff * h + (h - p) && down >= 0x10_0000_0000_0000 * (1 * h))
            by (nonlinear_arith)
            requires
                down == a * t - p,
                a == 0x10_0000_0000_0000,
                t == 2 * h,
                h > p,
                p > 0,
        ;
        lemma_round_doubled(down, 1, (g - 1) as nat);
        lemma_round_in_place(down, h, 0x1f_ffff_ffff_ffff, h - p);
    }
}

impl Binary {
    /// Cuts off what follows the binary point and brings the result into the
    /// range of `isize`.
    pub fn trunc_to_isize(self) -> (i: isize)
        requires
            self.within(2000),
        ensures
            i == saturated(dyadic_trunc(self.value())),
    {
        proof {
            lemma2_to64();
            lemma_pow2_values();
        }
        if self.mantissa == 0 {
            assert(0 * pow2(0) == 0);
            0
        } else if self.exponent >= 0 {
            if self.exponent >= 12 {
                proof {
                    lemma_pow2_monotone(12, self.exponent as nat);
                    let t = pow2(self.exponent as nat) as int;
                    let m = self.mantissa as int;
                    assert(m * t >= 0x1_0000_0000_0000_0000) by (nonlinear_arith)
                        requires
                            m >= 0x10_0000_0000_0000,
                            t >= 0x1000,
                    ;
                    assert((-m) * t == -(m * t)) by (nonlinear_arith);
                }
                if self.negative {
                    isize::MIN
                } else {
                    isize::MAX
                }
            } else {
                let p = power_of_two(self.exponent as u32);
                proof {
                    lemma_pow2_monotone(self.exponent as nat, 11);
                    let m = self.mantissa as int;
                    assert(m * p < 0x1_0000_0000_0000_0000 && m * p >= 0) by (nonlinear_arith)
                        requires
                            0 <= m < 0x20_0000_0000_0000,
                            0 < p <= 0x800,
                    ;
                    assert((-m) * p == -(m * p)) by (nonlinear_arith);
                }
                saturate(self.negative, (self.mantissa as u128) * p)
            }
        } else {
            if self.exponent <= -53 {
                proof {
                    lemma_pow2_monotone(53, (-self.exponent) as nat);
                    let t = pow2((-self.exponent) as nat) as int;
                    vstd::arithmetic::div_mod::lemma_basic_div(self.mantissa as int, t);
                }
                0
            } else {
                let p = power_of_two((-self.exponent) as u32);
                saturate(self.negative, (self.mantissa as u128) / p)
            }
        }
    }

    /// Adds two numbers.
    pub fn add(self, other: Binary) -> (r: Binary)
        requires
            self.within(1000),
            other.within(1000),
        ensures
            r.value() == dyadic_add(self.value(), other.value()),
            r.within(1200),
    {
        if self.mantissa == 0 {
            return other;
        }
        if other.mantissa == 0 {
            return self;
        }
        let (hi, lo) = if self.exponent >= other.exponent {
            (self, other)
        } else {
            (other, self)
        };
        let gap: i32 = hi.exponent - lo.exponent;
        let ghost a = hi.mantissa as int;
        let ghost p = lo.mantissa as int;
        let ghost t = pow2(gap as nat) as int;
        let ghost s = hi.value().mant * t + lo.value().mant * 1;
        proof {
            lemma2_to64();
            assert(pow2(0) == 1);
            assert(dyadic_add(self.value(), other.value()) == (if s > 0 {
                round53(s, 1).scaled(lo.exponent as int)
            } else if s < 0 {
                round53(-s, 1).scaled(lo.exponent as int).negated()
            } else {
                Dyadic::zero()
            }));
            assert((-a) * t == -(a * t)) by (nonlinear_arith);
        }
        if gap > 64 {
            proof {
                lemma_add_far_apart(a, p, gap as nat);
            }
            hi
        } else {
            let t_exec = power_of_two(gap as u32);
            assert(0 < a * t < 0x20_0000_0000_0000_0000_0000_0000_0000) by (nonlinear_arith)
                requires
                    0 < a < 0x20_0000_0000_0000,
                    0 < t <= 0x1_0000_0000_0000_0000,
            ;
            let big: i128 = (hi.mantissa as i128) * (t_exec as i128);
            let signed_big: i128 = if hi.negative { -big } else { big };
            let small: i128 = lo.mantissa as i128;
            let signed_small: i128 = if lo.negative { -small } else { small };
            let sum: i128 = signed_big + signed_small;
            assert(sum == s);
            if sum == 0 {
                Binary { negative: false, mantissa: 0, exponent: 0 }
            } else if sum > 0 {
                let (m, e) = round_ratio(sum as u128, 1);
                Binary { negative: false, mantissa: m, exponent: e + lo.exponent }
            } else {
                let (m, e) = round_ratio((-sum) as u128, 1);
                Binary { negative: true, mantissa: m, exponent: e + lo.exponent }
            }
        }
    }
}

} // verus!
