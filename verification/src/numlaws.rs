//! What doubles are of integers and integers of doubles, to the last bit, and how
//! answers are found and hashes turned.
use vstd::prelude::*;
use vstd::arithmetic::power2::{lemma2_to64, lemma2_to64_rest, lemma_pow2_adds, lemma_pow2_pos, lemma_pow2_strictly_increases, pow2};
use crate::float::{float_of, ilog2, lemma_ilog2, lemma_significand, magnitude_bits, round_shift, truncated, whole_part, F64};
use crate::fxhash::{hashed, little, mixed, rotl5};
use crate::host::{answer, bool_answer, float_answer, int_answer, text_answer, ticks_answer, Log, Query};
use crate::value::Datum;

verus! {

/// A quotient by a power of two is rounded to the nearest integer, and of two equally
/// near ones to the even one.
pub proof fn lemma_rounded_to_nearest(m: nat, s: nat)
    ensures
        ({
            let q = round_shift(m, s);
            let d = pow2(s);
            &&& 2 * (q * d - m) <= d
            &&& 2 * (m - q * d) <= d
            &&& 2 * (q * d - m) == d || 2 * (m - q * d) == d ==> q % 2 == 0
        }),
{
    lemma_pow2_pos(s);
    let d = pow2(s);
    let (q, r) = (m / d, m % d);
    assert(m == q * d + r && 0 <= r < d) by (nonlinear_arith)
        requires
            q == m / d,
            r == m % d,
            d > 0,
    ;
    assert((q + 1) * d == q * d + d) by (nonlinear_arith);
}

/// A double nearest to a number of more than 53 bits: with `2^e <= m < 2^(e+1)`, its
/// exponent is `e + 1023` and its digits are the number's first 53, rounded to the
/// nearest and to the even one of two; a carry goes into the exponent.
pub open spec fn nearest_double(m: int, e: nat, digits: nat, bits: int) -> bool {
    let d = pow2((e - 52) as nat);
    &&& e >= 53
    &&& pow2(e) <= m < pow2(e + 1)
    &&& 2 * (digits * d - m) <= d
    &&& 2 * (m - digits * d) <= d
    &&& 2 * (digits * d - m) == d || 2 * (m - digits * d) == d ==> digits % 2 == 0
    &&& bits == (e + 1023) * 0x10_0000_0000_0000 + digits - 0x10_0000_0000_0000
}

/// A double nearest to an integer, with its sign.
pub open spec fn nearest_signed(n: i64, e: nat, digits: nat, x: F64) -> bool {
    if n < 0 {
        nearest_double(-n, e, digits, x.bits - 0x8000_0000_0000_0000)
    } else {
        nearest_double(n as int, e, digits, x.bits as int)
    }
}

/// The double of an integer of more than 53 bits is the nearest one, with the
/// integer's sign.
pub proof fn lemma_large_integer_double(n: i64)
    requires
        n >= 0x20_0000_0000_0000 || n <= -0x20_0000_0000_0000,
    ensures
        exists|e: nat, digits: nat| #[trigger] nearest_signed(n, e, digits, float_of(n as int)),
{
    let m: nat = (if n < 0 {
        -n
    } else {
        n as int
    }) as nat;
    lemma_ilog2(m);
    lemma_significand(m);
    lemma2_to64();
    lemma2_to64_rest();
    let e = ilog2(m);
    if e < 53 {
        if e + 1 < 53 {
            lemma_pow2_strictly_increases(e + 1, 53);
        }
        assert(false);
    }
    if e > 63 {
        lemma_pow2_strictly_increases(63, e);
        assert(false);
    }
    let digits = round_shift(m, (e - 52) as nat);
    lemma_rounded_to_nearest(m, (e - 52) as nat);
    let bits = magnitude_bits(m);
    assert(0 <= bits < 0x8000_0000_0000_0000);
    assert(nearest_double(m as int, e, digits, bits));
    assert(nearest_signed(n, e, digits, float_of(n as int)));
}

/// A double cut off toward zero: nothing is left of one below 1 in size, and none of
/// not-a-number; of one with digits behind the point the whole ones are, in size, and
/// the sign stays.
pub proof fn lemma_cut_off(x: F64)
    ensures
        ({
            let mag = x.bits as int % 0x8000_0000_0000_0000;
            let exponent = mag / 0x10_0000_0000_0000;
            let digits = 0x10_0000_0000_0000 + mag % 0x10_0000_0000_0000;
            let n = truncated(x);
            let size = if n < 0 {
                -n
            } else {
                n
            };
            &&& mag > 0x7ff0_0000_0000_0000 ==> n == 0
            &&& exponent < 1023 ==> n == 0
            &&& 1023 <= exponent < 1075 ==> {
                let unit = pow2((1075 - exponent) as nat);
                size * unit <= digits < (size + 1) * unit
            }
            &&& 1075 <= exponent <= 1085 ==> size == digits * pow2((exponent - 1075) as nat)
            &&& x.bits >= 0x8000_0000_0000_0000 ==> n <= 0
            &&& x.bits < 0x8000_0000_0000_0000 ==> n >= 0
        }),
{
    let mag = x.bits as int % 0x8000_0000_0000_0000;
    let exponent = mag / 0x10_0000_0000_0000;
    let digits = 0x10_0000_0000_0000 + mag % 0x10_0000_0000_0000;
    lemma2_to64();
    lemma2_to64_rest();
    let w = whole_part(mag);
    if exponent < 1075 && exponent > 0 {
        let k = (1075 - exponent) as nat;
        let unit = pow2(k) as int;
        lemma_pow2_pos(k);
        assert(w == digits / unit);
        assert(w * unit <= digits < (w + 1) * unit && w >= 0) by (nonlinear_arith)
            requires
                w == digits / unit,
                unit > 0,
                digits >= 0,
        ;
        if exponent < 1023 {
            if k > 53 {
                lemma_pow2_strictly_increases(53, k);
            }
            assert(w == 0) by (nonlinear_arith)
                requires
                    w == digits / unit,
                    0 <= digits < unit,
            ;
        } else {
            if k > 1 {
                lemma_pow2_strictly_increases(0, k);
            }
            assert(w <= digits) by (nonlinear_arith)
                requires
                    w * unit <= digits,
                    unit >= 1,
                    w >= 0,
            ;
        }
    } else if 1075 <= exponent <= 1085 {
        let k = (exponent - 1075) as nat;
        lemma_pow2_pos(k);
        if k < 10 {
            lemma_pow2_strictly_increases(k, 10);
        }
        assert(pow2(10) == 0x400);
        assert(0 <= w <= 0x20_0000_0000_0000 * 0x400 - 0x400) by (nonlinear_arith)
            requires
                w == digits * pow2(k),
                0 <= digits <= 0x20_0000_0000_0000 - 1,
                1 <= pow2(k) <= 0x400,
        ;
    } else if exponent > 1085 && mag <= 0x7ff0_0000_0000_0000 {
        let k = (exponent - 1075) as nat;
        lemma_pow2_pos(k);
        assert(w >= 0) by (nonlinear_arith)
            requires
                w == digits * pow2(k),
                digits >= 0,
                pow2(k) > 0,
        ;
    }
}

/// A question has the first answer that was given to it, and none where none was.
pub proof fn lemma_first_answer(log: Log, q: Query, i: int)
    ensures
        0 <= i < log.len() && log[i].0 == q && (forall|k: int| 0 <= k < i ==> (#[trigger] log[k]).0 != q)
            ==> answer(log, q) == Some(log[i].1),
        (forall|k: int| 0 <= k < log.len() ==> (#[trigger] log[k]).0 != q) ==> answer(log, q) is None,
    decreases log.len(),
{
    if log.len() > 0 && log[0].0 != q {
        let rest = log.drop_first();
        lemma_first_answer(rest, q, i - 1);
        assert forall|k: int| 0 <= k < rest.len() implies rest[k] == #[trigger] log[k + 1] by {}
        if 0 <= i < log.len() && log[i].0 == q && (forall|k: int|
            0 <= k < i ==> (#[trigger] log[k]).0 != q) {
            assert(i > 0);
            assert(rest[i - 1] == log[i]);
            assert forall|k: int| 0 <= k < i - 1 implies (#[trigger] rest[k]).0 != q by {
                assert(rest[k] == log[k + 1]);
            }
        }
        if forall|k: int| 0 <= k < log.len() ==> (#[trigger] log[k]).0 != q {
            assert forall|k: int| 0 <= k < rest.len() implies (#[trigger] rest[k]).0 != q by {
                assert(rest[k] == log[k + 1]);
            }
        }
    }
}

/// An answer of the kind that was asked for is taken as it is; without an answer, the
/// question itself is what comes back.
pub proof fn lemma_answers_taken(log: Log, q: Query)
    ensures
        answer(log, q) matches Some(Datum::F64(x)) ==> float_answer(log, q) == Ok::<F64, Query>(x),
        answer(log, q) matches Some(Datum::Str(t)) ==> text_answer(log, q) == Ok::<Seq<char>, Query>(t),
        answer(log, q) matches Some(Datum::I64(n)) ==> int_answer(log, q) == Ok::<i64, Query>(n)
            && ticks_answer(log, q) == Ok::<Option<i64>, Query>(Some(n)),
        answer(log, q) matches Some(Datum::Bool(v)) ==> bool_answer(log, q) == Ok::<bool, Query>(v),
        answer(log, q) == Some(Datum::Null) ==> ticks_answer(log, q) == Ok::<Option<i64>, Query>(None),
        answer(log, q) is None ==> float_answer(log, q) == Err::<F64, Query>(q) && text_answer(log, q)
            == Err::<Seq<char>, Query>(q) && int_answer(log, q) == Err::<i64, Query>(q) && bool_answer(
            log,
            q,
        ) == Err::<bool, Query>(q) && ticks_answer(log, q) == Err::<Option<i64>, Query>(q),
{
}

/// A turn by five bits: what falls out on the left comes in on the right.
pub proof fn lemma_turned(h: u64)
    ensures
        rotl5(h) == (h % 0x800_0000_0000_0000) * 32 + h / 0x800_0000_0000_0000,
{
    assert(((h << 5) | (h >> 59)) == (h % 0x800_0000_0000_0000) * 32 + h / 0x800_0000_0000_0000)
        by (bit_vector);
}

/// Bytes are hashed eight at a time, as the number that they write, the lowest first;
/// what is left over as four and then one by one.
pub proof fn lemma_hashed_by_words(h: u64, a: Seq<u8>, b: Seq<u8>)
    ensures
        a.len() == 8 ==> hashed(h, a + b) == hashed(mixed(h, little(a) as u64), b),
        a.len() == 4 && b.len() < 4 ==> hashed(h, a + b) == hashed(mixed(h, little(a) as u64), b),
        a.len() == 1 && b.len() < 3 ==> hashed(h, a + b) == hashed(mixed(h, a[0] as u64), b),
        hashed(h, Seq::empty()) == h,
        a.len() == 1 ==> little(a + b) == a[0] + 256 * little(b),
{
    let s = a + b;
    if a.len() == 8 {
        assert(s.take(8) =~= a);
        assert(s.skip(8) =~= b);
    }
    if a.len() == 4 {
        assert(s.take(4) =~= a);
        assert(s.skip(4) =~= b);
    }
    if a.len() == 1 {
        assert(s.drop_first() =~= b);
    }
}

} // verus!
