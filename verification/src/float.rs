//! Double-precision numbers as bit patterns.
//!
//! The library carries a double as its 64 IEEE 754 bits. Order, equality and
//! the conversions from and to integers are integer computations on those bits
//! and are proved here; sums, products, quotients, parsing and printing are left
//! to the host (see [`crate::host`]).
use vstd::prelude::*;
use vstd::arithmetic::power2::{lemma2_to64, lemma2_to64_rest, lemma_pow2_adds, lemma_pow2_pos, lemma_pow2_strictly_increases, lemma_pow2_unfold, pow2};

verus! {

/// A double, as its IEEE 754 bit pattern.
#[derive(Clone, Copy, Debug, PartialEq, Eq, Structural)]
pub struct F64 {
    pub bits: u64,
}

/// The outcome of a three-way comparison.
#[derive(Clone, Copy, Debug, PartialEq, Eq, Structural)]
pub enum Rank {
    Less,
    Equal,
    Greater,
}

/// How two integers rank.
pub open spec fn rank_int(a: int, b: int) -> Rank {
    if a < b {
        Rank::Less
    } else if a == b {
        Rank::Equal
    } else {
        Rank::Greater
    }
}

/// How two integers rank, executably.
pub fn rank_i128(a: i128, b: i128) -> (r: Rank)
    ensures
        r == rank_int(a as int, b as int),
{
    if a < b {
        Rank::Less
    } else if a == b {
        Rank::Equal
    } else {
        Rank::Greater
    }
}

impl F64 {
    /// The bits below the sign.
    pub open spec fn magnitude(self) -> int {
        (self.bits % 0x8000_0000_0000_0000) as int
    }

    /// Is the sign bit set?
    pub open spec fn negative(self) -> bool {
        self.bits >= 0x8000_0000_0000_0000
    }

    /// Is this not a number?
    pub open spec fn is_nan(self) -> bool {
        self.magnitude() > 0x7ff0_0000_0000_0000
    }

    /// Is this neither an infinity nor not a number?
    pub open spec fn is_finite(self) -> bool {
        self.magnitude() < 0x7ff0_0000_0000_0000
    }

    /// The position of a number in the order of doubles; both zeros share one.
    pub open spec fn key(self) -> int {
        if self.negative() {
            -self.magnitude()
        } else {
            self.magnitude()
        }
    }

    /// The IEEE comparison: nothing ranks against not-a-number.
    pub open spec fn order(self, other: F64) -> Option<Rank> {
        if self.is_nan() || other.is_nan() {
            None
        } else {
            Some(rank_int(self.key(), other.key()))
        }
    }

    /// Is this a zero (of either sign)?
    pub open spec fn is_zero(self) -> bool {
        self.magnitude() == 0
    }

    fn magnitude_exec(self) -> (m: u64)
        ensures
            m == self.magnitude(),
            m < 0x8000_0000_0000_0000,
    {
        self.bits % 0x8000_0000_0000_0000
    }

    /// Is this not a number?
    pub fn nan(self) -> (r: bool)
        ensures
            r == self.is_nan(),
    {
        self.magnitude_exec() > 0x7ff0_0000_0000_0000
    }

    /// Is this neither an infinity nor not a number?
    pub fn finite(self) -> (r: bool)
        ensures
            r == self.is_finite(),
    {
        self.magnitude_exec() < 0x7ff0_0000_0000_0000
    }

    /// Is this a zero (of either sign)?
    pub fn zero(self) -> (r: bool)
        ensures
            r == self.is_zero(),
    {
        self.magnitude_exec() == 0
    }

    /// The position in the order of doubles.
    pub fn position(self) -> (k: i64)
        ensures
            k == self.key(),
    {
        let m: i64 = self.magnitude_exec() as i64;
        if self.bits >= 0x8000_0000_0000_0000 {
            -m
        } else {
            m
        }
    }

    /// The IEEE comparison.
    pub fn compare(self, other: F64) -> (r: Option<Rank>)
        ensures
            r == self.order(other),
    {
        if self.nan() || other.nan() {
            None
        } else {
            Some(rank_i128(self.position() as i128, other.position() as i128))
        }
    }

    /// The canonical not-a-number.
    pub open spec fn nan_value() -> F64 {
        F64 { bits: 0x7ff8_0000_0000_0000 }
    }

    /// The canonical not-a-number, executably.
    pub fn quiet_nan() -> (r: F64)
        ensures
            r == F64::nan_value(),
            r.is_nan(),
    {
        F64 { bits: 0x7ff8_0000_0000_0000 }
    }

    /// The same number without its sign.
    pub open spec fn abs_value(self) -> F64 {
        F64 { bits: (self.bits % 0x8000_0000_0000_0000) as u64 }
    }

    /// The same number without its sign, executably.
    pub fn abs(self) -> (r: F64)
        ensures
            r == self.abs_value(),
    {
        F64 { bits: self.bits % 0x8000_0000_0000_0000 }
    }
}

// ---------------------------------------------------------------- integers to doubles

/// The largest `e` with `2^e <= m` (0 for 0).
pub open spec fn ilog2(m: nat) -> nat
    decreases m,
{
    if m < 2 {
        0
    } else {
        1 + ilog2(m / 2)
    }
}

/// `m / 2^s`, rounded to the nearest integer, ties to even.
pub open spec fn round_shift(m: nat, s: nat) -> nat {
    let d = pow2(s);
    let q = m / d;
    let r = m % d;
    if 2 * r > d || (2 * r == d && q % 2 == 1) {
        q + 1
    } else {
        q
    }
}

/// The bits of the double nearest to `m > 0` (ties to even): the exponent, and
/// the leading 53 bits without the implied one. A carry out of the rounding
/// moves into the exponent.
pub open spec fn magnitude_bits(m: nat) -> int {
    let e = ilog2(m);
    let significand = if e <= 52 {
        m * pow2((52 - e) as nat)
    } else {
        round_shift(m, (e - 52) as nat)
    };
    (e + 1023) * 0x10_0000_0000_0000 + (significand - 0x10_0000_0000_0000)
}

/// The bits of the double nearest to the integer `x`.
pub open spec fn int_bits(x: int) -> int {
    if x == 0 {
        0
    } else if x > 0 {
        magnitude_bits(x as nat)
    } else {
        0x8000_0000_0000_0000 + magnitude_bits((-x) as nat)
    }
}

/// The double nearest to the integer `x`.
pub open spec fn float_of(x: int) -> F64 {
    F64 { bits: int_bits(x) as u64 }
}

/// The logarithm is that of the highest bit.
pub proof fn lemma_ilog2(m: nat)
    requires
        m > 0,
    ensures
        pow2(ilog2(m)) <= m < pow2(ilog2(m) + 1),
    decreases m,
{
    if m < 2 {
        lemma2_to64();
    } else {
        lemma_ilog2(m / 2);
        let e = ilog2(m / 2);
        lemma_pow2_unfold(e + 1);
        lemma_pow2_unfold(e + 2);
        assert(ilog2(m) == e + 1);
    }
}

proof fn lemma_ilog2_bound(m: nat, k: nat)
    requires
        0 < m < pow2(k),
    ensures
        ilog2(m) < k,
{
    lemma_ilog2(m);
    if ilog2(m) >= k {
        if ilog2(m) > k {
            lemma_pow2_strictly_increases(k, ilog2(m));
        }
    }
}

/// A significand has 53 bits, or is the next power of two.
pub proof fn lemma_significand(m: nat)
    requires
        m > 0,
    ensures
        ({
            let e = ilog2(m);
            let significand = if e <= 52 {
                m * pow2((52 - e) as nat)
            } else {
                round_shift(m, (e - 52) as nat)
            };
            0x10_0000_0000_0000 <= significand <= 0x20_0000_0000_0000
        }),
{
    lemma_ilog2(m);
    lemma2_to64_rest();
    let e = ilog2(m);
    if e <= 52 {
        let k = (52 - e) as nat;
        lemma_pow2_adds(e, k);
        lemma_pow2_adds(e + 1, k);
        lemma_pow2_pos(k);
        assert(m * pow2(k) >= pow2(e) * pow2(k)) by (nonlinear_arith)
            requires
                m >= pow2(e),
                pow2(k) > 0,
        ;
        assert(m * pow2(k) < pow2(e + 1) * pow2(k)) by (nonlinear_arith)
            requires
                m < pow2(e + 1),
                pow2(k) > 0,
        ;
    } else {
        let s = (e - 52) as nat;
        let d = pow2(s);
        lemma_pow2_pos(s);
        lemma_pow2_adds(52, s);
        lemma_pow2_adds(53, s);
        let q = m / d;
        assert(q >= 0x10_0000_0000_0000) by (nonlinear_arith)
            requires
                m >= 0x10_0000_0000_0000 * d,
                d > 0,
                q == m / d,
        ;
        assert(q < 0x20_0000_0000_0000) by (nonlinear_arith)
            requires
                m < 0x20_0000_0000_0000 * d,
                d > 0,
                q == m / d,
        ;
    }
}

/// `2^s` for a shift that fits.
fn two_to(s: u32) -> (r: u128)
    requires
        s < 128,
    ensures
        r == pow2(s as nat),
{
    let mut r: u128 = 1;
    let mut i: u32 = 0;
    proof {
        lemma2_to64();
        lemma_pow2_adds(64, 63);
        lemma2_to64_rest();
    }
    while i < s
        invariant
            i <= s < 128,
            r == pow2(i as nat),
            pow2(127) == 0x8000_0000_0000_0000_0000_0000_0000_0000,
        decreases s - i,
    {
        proof {
            lemma_pow2_unfold((i + 1) as nat);
            if i + 1 < 127 {
                lemma_pow2_strictly_increases((i + 1) as nat, 127);
            }
        }
        r = r * 2;
        i += 1;
    }
    r
}

fn magnitude_bits_exec(m: u128) -> (r: u64)
    requires
        0 < m <= 0x8000_0000_0000_0000_0000_0000_0000_0000,
    ensures
        r == magnitude_bits(m as nat),
        r < 0x7ff0_0000_0000_0000,
{
    let mut e: u32 = 0;
    let mut t: u128 = m;
    proof {
        lemma_i128_log(m as nat);
    }
    while t >= 2
        invariant
            0 < t <= m,
            m <= 0x8000_0000_0000_0000_0000_0000_0000_0000,
            e + ilog2(t as nat) == ilog2(m as nat),
            ilog2(m as nat) < 128,
        decreases t,
    {
        assert(ilog2(t as nat) == 1 + ilog2((t / 2) as nat));
        t = t / 2;
        e += 1;
    }
    proof {
        lemma_significand(m as nat);
        lemma_ilog2(m as nat);
        lemma2_to64_rest();
    }
    let significand: u128 = if e <= 52 {
        let f: u128 = two_to(52 - e);
        m * f
    } else {
        let d: u128 = two_to(e - 52);
        proof {
            lemma_pow2_pos((e - 52) as nat);
        }
        let q: u128 = m / d;
        let rem: u128 = m % d;
        proof {
            lemma_pow2_unfold((e - 52) as nat);
            if e - 52 < 75 {
                lemma_pow2_strictly_increases((e - 52) as nat, 75);
            }
            lemma_pow2_adds(64, 11);
            lemma2_to64();
        }
        let up: bool = 2 * rem > d || (2 * rem == d && q % 2 == 1);
        if up {
            proof {
                assert(q + 1 == round_shift(m as nat, (e - 52) as nat));
            }
            q + 1
        } else {
            q
        }
    };
    (e as u64 + 1023) * 0x10_0000_0000_0000 + (significand as u64 - 0x10_0000_0000_0000)
}

proof fn lemma_i128_log(m: nat)
    requires
        0 < m <= 0x8000_0000_0000_0000_0000_0000_0000_0000,
    ensures
        ilog2(m) < 128,
{
    lemma2_to64();
    lemma2_to64_rest();
    lemma_pow2_adds(64, 64);
    lemma_ilog2_bound(m, 128);
}

/// The double nearest to an integer (ties to even).
pub fn float_from(x: i128) -> (r: F64)
    ensures
        r == float_of(x as int),
        r.is_finite(),
        r.bits == int_bits(x as int),
{
    if x == 0 {
        F64 { bits: 0 }
    } else if x > 0 {
        F64 { bits: magnitude_bits_exec(x as u128) }
    } else {
        let m: u128 = if x == i128::MIN {
            0x8000_0000_0000_0000_0000_0000_0000_0000
        } else {
            (-x) as u128
        };
        let b: u64 = magnitude_bits_exec(m);
        F64 { bits: 0x8000_0000_0000_0000 + b }
    }
}

// ---------------------------------------------------------------- doubles to integers

/// The integer part of the number whose bits below the sign are `mag`.
pub open spec fn whole_part(mag: int) -> int {
    let exponent = mag / 0x10_0000_0000_0000;
    let significand = 0x10_0000_0000_0000 + mag % 0x10_0000_0000_0000;
    if exponent == 0 {
        0
    } else if exponent >= 1075 {
        significand * pow2((exponent - 1075) as nat)
    } else {
        significand / (pow2((1075 - exponent) as nat) as int)
    }
}

/// Clamps an integer into a range.
pub open spec fn clamp(x: int, lo: int, hi: int) -> int {
    if x < lo {
        lo
    } else if x > hi {
        hi
    } else {
        x
    }
}

/// The number truncated toward zero and clamped into `i64`; not-a-number is 0.
pub open spec fn truncated(x: F64) -> int {
    if x.is_nan() {
        0
    } else if x.negative() {
        clamp(-whole_part(x.magnitude()), i64::MIN as int, i64::MAX as int)
    } else {
        clamp(whole_part(x.magnitude()), i64::MIN as int, i64::MAX as int)
    }
}

/// The whole part, or `None` when it is 2^63 or more.
fn whole_part_exec(mag: u64) -> (r: Option<u64>)
    requires
        mag <= 0x7ff0_0000_0000_0000,
    ensures
        match r {
            Some(w) => w == whole_part(mag as int) && w < 0x8000_0000_0000_0000,
            None => whole_part(mag as int) >= 0x8000_0000_0000_0000,
        },
{
    let exponent: u64 = mag / 0x10_0000_0000_0000;
    let significand: u64 = 0x10_0000_0000_0000 + mag % 0x10_0000_0000_0000;
    proof {
        lemma2_to64();
        lemma2_to64_rest();
    }
    if exponent == 0 {
        Some(0)
    } else if exponent >= 1086 {
        proof {
            let k = (exponent - 1075) as nat;
            if k > 11 {
                lemma_pow2_strictly_increases(11, k);
            }
            assert(significand * pow2(k) >= 0x10_0000_0000_0000 * 0x800) by (nonlinear_arith)
                requires
                    significand >= 0x10_0000_0000_0000,
                    pow2(k) >= 0x800,
            ;
        }
        None
    } else if exponent >= 1075 {
        let f: u128 = two_to((exponent - 1075) as u32);
        proof {
            let k = (exponent - 1075) as nat;
            if k < 10 {
                lemma_pow2_strictly_increases(k, 10);
            }
            assert(significand * pow2(k) < 0x20_0000_0000_0000 * 0x400) by (nonlinear_arith)
                requires
                    significand < 0x20_0000_0000_0000,
                    0 <= pow2(k) <= 0x400,
            ;
            lemma_pow2_pos(k);
            assert(significand * pow2(k) >= 0) by (nonlinear_arith)
                requires
                    significand >= 0,
                    pow2(k) >= 0,
            ;
        }
        Some((significand as u128 * f) as u64)
    } else if exponent >= 1022 {
        let d: u128 = two_to((1075 - exponent) as u32);
        proof {
            lemma_pow2_pos((1075 - exponent) as nat);
            let d1 = pow2((1075 - exponent) as nat) as int;
            assert(0 <= significand as int / d1 <= significand) by (nonlinear_arith)
                requires
                    d1 >= 1,
                    significand >= 0,
            ;
        }
        Some((significand as u128 / d) as u64)
    } else {
        proof {
            let k = (1075 - exponent) as nat;
            lemma_pow2_strictly_increases(53, k);
            assert(significand as int / (pow2(k) as int) == 0) by (nonlinear_arith)
                requires
                    0 <= significand < pow2(k),
            ;
        }
        Some(0)
    }
}

/// The number truncated toward zero and clamped into `i64`; not-a-number is 0.
pub fn truncate(x: F64) -> (r: i64)
    ensures
        r == truncated(x),
{
    if x.nan() {
        return 0;
    }
    let w: Option<u64> = whole_part_exec(x.magnitude_exec());
    if x.bits >= 0x8000_0000_0000_0000 {
        match w {
            Some(n) => -(n as i64),
            None => i64::MIN,
        }
    } else {
        match w {
            Some(n) => n as i64,
            None => i64::MAX,
        }
    }
}

/// Is the number an integer below 2^53 in size?
pub open spec fn small_integer(x: F64) -> bool {
    &&& x.is_finite()
    &&& -0x20_0000_0000_0000 < truncated(x) < 0x20_0000_0000_0000
    &&& float_of(truncated(x)).key() == x.key()
}

/// Is the number an integer below 2^53 in size?
pub fn is_small_integer(x: F64) -> (r: bool)
    ensures
        r == small_integer(x),
{
    if !x.finite() {
        return false;
    }
    let n: i64 = truncate(x);
    if n <= -0x20_0000_0000_0000 || n >= 0x20_0000_0000_0000 {
        return false;
    }
    let back: F64 = float_from(n as i128);
    back.position() == x.position()
}

} // verus!
