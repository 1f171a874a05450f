//! Comparisons and exact temporal arithmetic on values.
use vstd::prelude::*;
use crate::expr::{ArithOp, CmpOp};
use crate::float::{clamp, float_from, float_of, rank_i128, rank_int, F64, Rank};
use crate::host::{ask1, ask2, bool_answer, float_answer, get_bool, get_float, get_ticks, ticks_answer, Answers, Ask, HostOp, Log, Query};
use crate::text::{chars_of, same_text};
use crate::value::{comparable, decimal_order, rank_decimals, Date, DateTime, Datum, Decimal, Duration, TimeUnit, Value};

verus! {

// ---------------------------------------------------------------- orders

/// Does a comparison outcome satisfy the operator? Operands that do not rank
/// satisfy none.
pub open spec fn satisfies(rank: Option<Rank>, op: CmpOp) -> bool {
    match rank {
        None => false,
        Some(Rank::Less) => op is Lt || op is Le || op is Ne,
        Some(Rank::Equal) => op is Eq || op is Le || op is Ge,
        Some(Rank::Greater) => op is Gt || op is Ge || op is Ne,
    }
}

/// Does a comparison outcome satisfy the operator?
pub fn cmp_ord(rank: Option<Rank>, op: CmpOp) -> (r: bool)
    ensures
        r == satisfies(rank, op),
{
    match rank {
        None => false,
        Some(Rank::Less) => matches!(op, CmpOp::Lt | CmpOp::Le | CmpOp::Ne),
        Some(Rank::Equal) => matches!(op, CmpOp::Eq | CmpOp::Le | CmpOp::Ge),
        Some(Rank::Greater) => matches!(op, CmpOp::Gt | CmpOp::Ge | CmpOp::Ne),
    }
}

/// The operator with its operands exchanged.
pub open spec fn flipped(op: CmpOp) -> CmpOp {
    match op {
        CmpOp::Lt => CmpOp::Gt,
        CmpOp::Le => CmpOp::Ge,
        CmpOp::Gt => CmpOp::Lt,
        CmpOp::Ge => CmpOp::Le,
        CmpOp::Eq => CmpOp::Eq,
        CmpOp::Ne => CmpOp::Ne,
    }
}

/// The operator with its operands exchanged.
pub fn flip(op: CmpOp) -> (r: CmpOp)
    ensures
        r == flipped(op),
{
    match op {
        CmpOp::Lt => CmpOp::Gt,
        CmpOp::Le => CmpOp::Ge,
        CmpOp::Gt => CmpOp::Lt,
        CmpOp::Ge => CmpOp::Le,
        CmpOp::Eq => CmpOp::Eq,
        CmpOp::Ne => CmpOp::Ne,
    }
}

/// The rank with its operands exchanged.
pub open spec fn reversed(r: Rank) -> Rank {
    match r {
        Rank::Less => Rank::Greater,
        Rank::Equal => Rank::Equal,
        Rank::Greater => Rank::Less,
    }
}

/// Exchanging the operands and flipping the operator changes nothing.
pub proof fn lemma_flip_exchanges(rank: Rank, op: CmpOp)
    ensures
        satisfies(Some(rank), op) == satisfies(Some(reversed(rank)), flipped(op)),
{
}

/// The alphabetical order of texts by character.
pub open spec fn text_order(a: Seq<char>, b: Seq<char>) -> Rank
    decreases a.len(),
{
    if a.len() == 0 && b.len() == 0 {
        Rank::Equal
    } else if a.len() == 0 {
        Rank::Less
    } else if b.len() == 0 {
        Rank::Greater
    } else if a[0] != b[0] {
        rank_int(a[0] as int, b[0] as int)
    } else {
        text_order(a.drop_first(), b.drop_first())
    }
}

/// The alphabetical order of texts by character.
pub fn rank_texts(a: &str, b: &str) -> (r: Rank)
    ensures
        r == text_order(a@, b@),
{
    let x: Vec<char> = chars_of(a);
    let y: Vec<char> = chars_of(b);
    let mut i: usize = 0;
    assert(x@.skip(0) =~= x@);
    assert(y@.skip(0) =~= y@);
    while i < x.len() && i < y.len()
        invariant
            x@ == a@,
            y@ == b@,
            i <= x@.len(),
            i <= y@.len(),
            text_order(a@, b@) == text_order(x@.skip(i as int), y@.skip(i as int)),
        decreases x.len() - i,
    {
        let c: char = x[i];
        let d: char = y[i];
        if c != d {
            return if c < d {
                Rank::Less
            } else {
                Rank::Greater
            };
        }
        assert(x@.skip(i as int).drop_first() =~= x@.skip(i + 1));
        assert(y@.skip(i as int).drop_first() =~= y@.skip(i + 1));
        i += 1;
    }
    if i < y.len() {
        Rank::Less
    } else if i < x.len() {
        Rank::Greater
    } else {
        Rank::Equal
    }
}

/// Texts rank equal just when they are the same.
pub proof fn lemma_text_order_equal(a: Seq<char>, b: Seq<char>)
    ensures
        (text_order(a, b) is Equal) <==> a == b,
    decreases a.len(),
{
    if a.len() > 0 && b.len() > 0 {
        if a[0] == b[0] {
            lemma_text_order_equal(a.drop_first(), b.drop_first());
            if a.drop_first() == b.drop_first() {
                assert(a =~= seq![a[0]] + a.drop_first());
                assert(b =~= seq![b[0]] + b.drop_first());
            }
        }
    } else if a.len() == 0 && b.len() == 0 {
        assert(a =~= b);
    }
}

/// Exchanging two texts reverses their rank.
pub proof fn lemma_text_order_reversed(a: Seq<char>, b: Seq<char>)
    ensures
        text_order(b, a) == reversed(text_order(a, b)),
    decreases a.len(),
{
    if a.len() > 0 && b.len() > 0 && a[0] == b[0] {
        lemma_text_order_reversed(a.drop_first(), b.drop_first());
    }
}

/// The alphabetical order is transitive.
pub proof fn lemma_text_order_less(a: Seq<char>, b: Seq<char>, c: Seq<char>)
    requires
        text_order(a, b) == Rank::Less,
        text_order(b, c) == Rank::Less,
    ensures
        text_order(a, c) == Rank::Less,
    decreases a.len(),
{
    if a.len() > 0 && b.len() > 0 && c.len() > 0 && a[0] == b[0] && b[0] == c[0] {
        lemma_text_order_less(a.drop_first(), b.drop_first(), c.drop_first());
    }
}

// ---------------------------------------------------------------- temporal arithmetic

/// Clamps an `i128` into `i64`.
pub fn sat_i128(x: i128) -> (r: i64)
    ensures
        r == clamp(x as int, i64::MIN as int, i64::MAX as int),
{
    if x < i64::MIN as i128 {
        i64::MIN
    } else if x > i64::MAX as i128 {
        i64::MAX
    } else {
        x as i64
    }
}

/// The finer of two units.
pub open spec fn finer(a: TimeUnit, b: TimeUnit) -> TimeUnit {
    if a.per_sec() >= b.per_sec() {
        a
    } else {
        b
    }
}

/// The finer of two units.
pub fn finer_unit(a: TimeUnit, b: TimeUnit) -> (r: TimeUnit)
    ensures
        r == finer(a, b),
{
    if a.per_sec() >= b.per_sec() {
        a
    } else {
        b
    }
}

/// The same time in ticks of a unit that is as fine or finer.
pub open spec fn lifted(ticks: int, from: TimeUnit, to: TimeUnit) -> int {
    ticks * (to.per_sec() / from.per_sec())
}

/// The same time in ticks of a unit that is as fine or finer.
pub fn lift_ticks(ticks: i64, from: TimeUnit, to: TimeUnit) -> (r: i128)
    requires
        to.per_sec() >= from.per_sec(),
    ensures
        r == lifted(ticks as int, from, to),
        -0x8000_0000_0000_0000 * 1_000_000_000 <= r <= 0x7fff_ffff_ffff_ffff * 1_000_000_000,
{
    let factor: i128 = (to.per_sec() / from.per_sec()) as i128;
    assert(1 <= factor <= 1_000_000_000);
    assert(-0x8000_0000_0000_0000 * 1_000_000_000 <= ticks * factor <= 0x7fff_ffff_ffff_ffff
        * 1_000_000_000) by (nonlinear_arith)
        requires
            1 <= factor <= 1_000_000_000,
            -0x8000_0000_0000_0000 <= ticks <= 0x7fff_ffff_ffff_ffff,
    ;
    ticks as i128 * factor
}

/// The exact order of two tick counts of possibly different units.
pub open spec fn tick_order(a: int, ua: TimeUnit, b: int, ub: TimeUnit) -> Rank {
    let u = finer(ua, ub);
    rank_int(lifted(a, ua, u), lifted(b, ub, u))
}

/// The exact order of two tick counts of possibly different units.
pub fn rank_ticks(a: i64, ua: TimeUnit, b: i64, ub: TimeUnit) -> (r: Rank)
    ensures
        r == tick_order(a as int, ua, b as int, ub),
{
    let u: TimeUnit = finer_unit(ua, ub);
    rank_i128(lift_ticks(a, ua, u), lift_ticks(b, ub, u))
}

/// The sum of two tick counts in their finer unit, clamped into `i64`.
pub open spec fn tick_sum(a: int, ua: TimeUnit, b: int, ub: TimeUnit) -> i64 {
    let u = finer(ua, ub);
    clamp(lifted(a, ua, u) + lifted(b, ub, u), i64::MIN as int, i64::MAX as int) as i64
}

/// The difference of two tick counts in their finer unit, clamped into `i64`.
pub open spec fn tick_diff(a: int, ua: TimeUnit, b: int, ub: TimeUnit) -> i64 {
    let u = finer(ua, ub);
    clamp(lifted(a, ua, u) - lifted(b, ub, u), i64::MIN as int, i64::MAX as int) as i64
}

/// Typed arithmetic on instants and spans, exact in integer ticks; `None` for
/// every other combination. Operands of different units are lifted to the finer
/// one, and an overflow is clamped.
pub open spec fn temporal(l: Datum, op: ArithOp, r: Datum, log: Log) -> Result<Option<Datum>, Query> {
    match (l, r) {
        (Datum::DateTime(a), Datum::DateTime(b)) => if op is Sub {
            Ok(
                Some(
                    Datum::Duration(
                        Duration {
                            ticks: tick_diff(a.ticks as int, a.unit, b.ticks as int, b.unit),
                            unit: finer(a.unit, b.unit),
                        },
                    ),
                ),
            )
        } else {
            Ok(None)
        },
        (Datum::DateTime(a), Datum::Duration(s)) => if op is Add {
            Ok(
                Some(
                    Datum::DateTime(
                        DateTime {
                            ticks: tick_sum(a.ticks as int, a.unit, s.ticks as int, s.unit),
                            unit: finer(a.unit, s.unit),
                        },
                    ),
                ),
            )
        } else if op is Sub {
            Ok(
                Some(
                    Datum::DateTime(
                        DateTime {
                            ticks: tick_diff(a.ticks as int, a.unit, s.ticks as int, s.unit),
                            unit: finer(a.unit, s.unit),
                        },
                    ),
                ),
            )
        } else {
            Ok(None)
        },
        (Datum::Duration(s), Datum::DateTime(a)) => if op is Add {
            Ok(
                Some(
                    Datum::DateTime(
                        DateTime {
                            ticks: tick_sum(a.ticks as int, a.unit, s.ticks as int, s.unit),
                            unit: finer(a.unit, s.unit),
                        },
                    ),
                ),
            )
        } else {
            Ok(None)
        },
        (Datum::Duration(a), Datum::Duration(b)) => match op {
            ArithOp::Add => Ok(
                Some(
                    Datum::Duration(
                        Duration {
                            ticks: tick_sum(a.ticks as int, a.unit, b.ticks as int, b.unit),
                            unit: finer(a.unit, b.unit),
                        },
                    ),
                ),
            ),
            ArithOp::Sub => Ok(
                Some(
                    Datum::Duration(
                        Duration {
                            ticks: tick_diff(a.ticks as int, a.unit, b.ticks as int, b.unit),
                            unit: finer(a.unit, b.unit),
                        },
                    ),
                ),
            ),
            ArithOp::Div => {
                let u = finer(a.unit, b.unit);
                let q = Query {
                    op: HostOp::Arith(ArithOp::Div),
                    args: seq![
                        Datum::F64(float_of(lifted(a.ticks as int, a.unit, u))),
                        Datum::F64(float_of(lifted(b.ticks as int, b.unit, u))),
                    ],
                };
                match float_answer(log, q) {
                    Ok(x) => Ok(Some(Datum::F64(x))),
                    Err(e) => Err(e),
                }
            },
            _ => Ok(None),
        },
        (Datum::Duration(a), Datum::I64(n)) => if op is Mul {
            Ok(Some(Datum::Duration(scaled(a, n))))
        } else {
            Ok(None)
        },
        (Datum::I64(n), Datum::Duration(a)) => if op is Mul {
            Ok(Some(Datum::Duration(scaled(a, n))))
        } else {
            Ok(None)
        },
        _ => Ok(None),
    }
}

/// A span repeated `n` times, clamped into `i64` ticks.
pub open spec fn scaled(a: Duration, n: i64) -> Duration {
    Duration {
        ticks: clamp(a.ticks * n, i64::MIN as int, i64::MAX as int) as i64,
        unit: a.unit,
    }
}

fn sum_ticks(a: i64, ua: TimeUnit, b: i64, ub: TimeUnit) -> (r: i64)
    ensures
        r == tick_sum(a as int, ua, b as int, ub),
{
    let u: TimeUnit = finer_unit(ua, ub);
    sat_i128(lift_ticks(a, ua, u) + lift_ticks(b, ub, u))
}

fn diff_ticks(a: i64, ua: TimeUnit, b: i64, ub: TimeUnit) -> (r: i64)
    ensures
        r == tick_diff(a as int, ua, b as int, ub),
{
    let u: TimeUnit = finer_unit(ua, ub);
    sat_i128(lift_ticks(a, ua, u) - lift_ticks(b, ub, u))
}

fn repeat_span(a: Duration, n: i64) -> (r: Duration)
    ensures
        r == scaled(a, n),
{
    assert(-0x4000_0000_0000_0000_0000_0000_0000_0000 <= a.ticks * n
        <= 0x4000_0000_0000_0000_0000_0000_0000_0000) by (nonlinear_arith)
        requires
            -0x8000_0000_0000_0000 <= a.ticks <= 0x7fff_ffff_ffff_ffff,
            -0x8000_0000_0000_0000 <= n <= 0x7fff_ffff_ffff_ffff,
    ;
    Duration { ticks: sat_i128(a.ticks as i128 * n as i128), unit: a.unit }
}

/// Does the outcome of an executable function agree with its specification?
/// A missing answer is reported as the same question.
pub open spec fn agree<T, M>(r: Result<T, Ask>, s: Result<M, Query>, same: spec_fn(T, M) -> bool) -> bool {
    match (r, s) {
        (Ok(t), Ok(m)) => same(t, m),
        (Err(a), Err(q)) => a@ == q,
        _ => false,
    }
}

/// An optional value agrees with an optional datum.
pub open spec fn same_option(v: Option<Value>, d: Option<Datum>) -> bool {
    match (v, d) {
        (Some(a), Some(b)) => a@ == b,
        (None, None) => true,
        _ => false,
    }
}

/// Typed arithmetic on instants and spans (see [`temporal`]).
pub fn temporal_op(l: &Value, op: ArithOp, r: &Value, host: &Answers) -> (out: Result<Option<Value>, Ask>)
    ensures
        agree(out, temporal(l@, op, r@, host@), |v, d| same_option(v, d)),
{
    match (l, r) {
        (Value::DateTime(a), Value::DateTime(b)) => {
            if matches!(op, ArithOp::Sub) {
                let d: Duration = Duration {
                    ticks: diff_ticks(a.ticks, a.unit, b.ticks, b.unit),
                    unit: finer_unit(a.unit, b.unit),
                };
                Ok(Some(Value::Duration(d)))
            } else {
                Ok(None)
            }
        },
        (Value::DateTime(a), Value::Duration(s)) => {
            if matches!(op, ArithOp::Add) {
                let t: DateTime = DateTime {
                    ticks: sum_ticks(a.ticks, a.unit, s.ticks, s.unit),
                    unit: finer_unit(a.unit, s.unit),
                };
                Ok(Some(Value::DateTime(t)))
            } else if matches!(op, ArithOp::Sub) {
                let t: DateTime = DateTime {
                    ticks: diff_ticks(a.ticks, a.unit, s.ticks, s.unit),
                    unit: finer_unit(a.unit, s.unit),
                };
                Ok(Some(Value::DateTime(t)))
            } else {
                Ok(None)
            }
        },
        (Value::Duration(s), Value::DateTime(a)) => {
            if matches!(op, ArithOp::Add) {
                let t: DateTime = DateTime {
                    ticks: sum_ticks(a.ticks, a.unit, s.ticks, s.unit),
                    unit: finer_unit(a.unit, s.unit),
                };
                Ok(Some(Value::DateTime(t)))
            } else {
                Ok(None)
            }
        },
        (Value::Duration(a), Value::Duration(b)) => {
            let u: TimeUnit = finer_unit(a.unit, b.unit);
            match op {
                ArithOp::Add => {
                    let d: Duration = Duration {
                        ticks: sum_ticks(a.ticks, a.unit, b.ticks, b.unit),
                        unit: u,
                    };
                    Ok(Some(Value::Duration(d)))
                },
                ArithOp::Sub => {
                    let d: Duration = Duration {
                        ticks: diff_ticks(a.ticks, a.unit, b.ticks, b.unit),
                        unit: u,
                    };
                    Ok(Some(Value::Duration(d)))
                },
                ArithOp::Div => {
                    let x: F64 = float_from(lift_ticks(a.ticks, a.unit, u));
                    let y: F64 = float_from(lift_ticks(b.ticks, b.unit, u));
                    let ask: Ask = ask2(HostOp::Arith(ArithOp::Div), Value::F64(x), Value::F64(y));
                    match get_float(host, ask) {
                        Ok(q) => Ok(Some(Value::F64(q))),
                        Err(e) => Err(e),
                    }
                },
                _ => Ok(None),
            }
        },
        (Value::Duration(a), Value::I64(n)) => {
            if matches!(op, ArithOp::Mul) {
                Ok(Some(Value::Duration(repeat_span(*a, *n))))
            } else {
                Ok(None)
            }
        },
        (Value::I64(n), Value::Duration(a)) => {
            if matches!(op, ArithOp::Mul) {
                Ok(Some(Value::Duration(repeat_span(*a, *n))))
            } else {
                Ok(None)
            }
        },
        _ => Ok(None),
    }
}

/// Adding a span to an instant and taking it off again gives the instant back,
/// where nothing is clamped.
pub proof fn lemma_span_undone(t: DateTime, s: Duration)
    requires
        ({
            let u = finer(t.unit, s.unit);
            let sum = lifted(t.ticks as int, t.unit, u) + lifted(s.ticks as int, s.unit, u);
            i64::MIN <= sum <= i64::MAX && i64::MIN <= lifted(t.ticks as int, t.unit, u) <= i64::MAX
        }),
    ensures
        ({
            let u = finer(t.unit, s.unit);
            let sum = tick_sum(t.ticks as int, t.unit, s.ticks as int, s.unit);
            tick_diff(sum as int, u, s.ticks as int, s.unit) == lifted(t.ticks as int, t.unit, u)
        }),
{
    let u = finer(t.unit, s.unit);
    let sum = tick_sum(t.ticks as int, t.unit, s.ticks as int, s.unit);
    assert(finer(u, s.unit) == u);
    assert(lifted(sum as int, u, u) == sum) by {
        assert(u.per_sec() / u.per_sec() == 1);
    }
}

/// The difference of two instants, added to the earlier operand, gives the
/// later one back, where nothing is clamped.
pub proof fn lemma_difference_undone(a: DateTime, b: DateTime)
    requires
        a.unit == b.unit,
        i64::MIN <= a.ticks - b.ticks <= i64::MAX,
    ensures
        ({
            let d = tick_diff(a.ticks as int, a.unit, b.ticks as int, b.unit);
            tick_sum(b.ticks as int, b.unit, d as int, a.unit) == a.ticks
        }),
{
    let u = a.unit;
    assert(u.per_sec() / u.per_sec() == 1);
    let d = tick_diff(a.ticks as int, u, b.ticks as int, u);
    assert(d == a.ticks - b.ticks);
}

// ---------------------------------------------------------------- datetime comparison

/// Comparison of an instant or span with another, with a text that is read at
/// its unit, or with an integer of raw ticks; `None` for every other pair. A
/// text that does not parse is only unequal.
pub open spec fn temporal_verdict(l: Datum, op: CmpOp, r: Datum, log: Log) -> Result<Option<bool>, Query> {
    match (l, r) {
        (Datum::DateTime(a), Datum::DateTime(b)) => Ok(
            Some(
                satisfies(Some(tick_order(a.ticks as int, a.unit, b.ticks as int, b.unit)), op),
            ),
        ),
        (Datum::DateTime(a), Datum::Str(s)) => {
            let q = Query { op: HostOp::ParseDateTime { unit: a.unit }, args: seq![Datum::Str(s)] };
            match ticks_answer(log, q) {
                Ok(Some(t)) => Ok(
                    Some(satisfies(Some(rank_int(a.ticks as int, t as int)), op)),
                ),
                Ok(None) => Ok(Some(op is Ne)),
                Err(e) => Err(e),
            }
        },
        (Datum::Str(s), Datum::DateTime(b)) => {
            let q = Query { op: HostOp::ParseDateTime { unit: b.unit }, args: seq![Datum::Str(s)] };
            match ticks_answer(log, q) {
                Ok(Some(t)) => Ok(
                    Some(satisfies(Some(rank_int(t as int, b.ticks as int)), op)),
                ),
                Ok(None) => Ok(Some(op is Ne)),
                Err(e) => Err(e),
            }
        },
        (Datum::DateTime(a), Datum::I64(n)) => Ok(
            Some(satisfies(Some(rank_int(a.ticks as int, n as int)), op)),
        ),
        (Datum::I64(n), Datum::DateTime(b)) => Ok(
            Some(satisfies(Some(rank_int(n as int, b.ticks as int)), op)),
        ),
        (Datum::Duration(a), Datum::Duration(b)) => Ok(
            Some(
                satisfies(Some(tick_order(a.ticks as int, a.unit, b.ticks as int, b.unit)), op),
            ),
        ),
        (Datum::Duration(a), Datum::Str(s)) => {
            let q = Query { op: HostOp::ParseDuration { unit: a.unit }, args: seq![Datum::Str(s)] };
            match ticks_answer(log, q) {
                Ok(Some(t)) => Ok(
                    Some(satisfies(Some(rank_int(a.ticks as int, t as int)), op)),
                ),
                Ok(None) => Ok(Some(op is Ne)),
                Err(e) => Err(e),
            }
        },
        (Datum::Str(s), Datum::Duration(b)) => {
            let q = Query { op: HostOp::ParseDuration { unit: b.unit }, args: seq![Datum::Str(s)] };
            match ticks_answer(log, q) {
                Ok(Some(t)) => Ok(
                    Some(satisfies(Some(rank_int(t as int, b.ticks as int)), op)),
                ),
                Ok(None) => Ok(Some(op is Ne)),
                Err(e) => Err(e),
            }
        },
        (Datum::Duration(a), Datum::I64(n)) => Ok(
            Some(satisfies(Some(rank_int(a.ticks as int, n as int)), op)),
        ),
        (Datum::I64(n), Datum::Duration(b)) => Ok(
            Some(satisfies(Some(rank_int(n as int, b.ticks as int)), op)),
        ),
        _ => Ok(None),
    }
}

/// How two 64-bit integers rank.
pub open spec fn rank64(a: i64, b: i64) -> Rank {
    rank_int(a as int, b as int)
}

/// How two 128-bit integers rank.
pub open spec fn rank128(a: i128, b: i128) -> Rank {
    rank_int(a as int, b as int)
}

/// How two 64-bit integers rank.
pub fn rank_i64(a: i64, b: i64) -> (r: Rank)
    ensures
        r == rank64(a, b),
{
    if a < b {
        Rank::Less
    } else if a == b {
        Rank::Equal
    } else {
        Rank::Greater
    }
}

/// Compares ticks with those read from a text; `left` tells on which side the
/// ticks stand.
fn ticks_against(ticks: i64, left: bool, parsed: Result<Option<i64>, Ask>, op: CmpOp) -> (r: Result<
    Option<bool>,
    Ask,
>)
    ensures
        match parsed {
            Ok(Some(t)) => r == Ok::<Option<bool>, Ask>(
                Some(
                    satisfies(
                        Some(
                            if left {
                                rank64(ticks, t)
                            } else {
                                rank64(t, ticks)
                            },
                        ),
                        op,
                    ),
                ),
            ),
            Ok(None) => r == Ok::<Option<bool>, Ask>(Some(op is Ne)),
            Err(e) => r == Err::<Option<bool>, Ask>(e),
        },
{
    match parsed {
        Ok(Some(t)) => {
            let rank: Rank = if left {
                rank_i64(ticks, t)
            } else {
                rank_i64(t, ticks)
            };
            Ok(Some(cmp_ord(Some(rank), op)))
        },
        Ok(None) => Ok(Some(matches!(op, CmpOp::Ne))),
        Err(e) => Err(e),
    }
}

/// Exact comparison where an operand is an instant or a span (see
/// [`temporal_verdict`]).
pub fn dt_cmp(l: &Value, op: CmpOp, r: &Value, host: &Answers) -> (out: Result<Option<bool>, Ask>)
    ensures
        agree(out, temporal_verdict(l@, op, r@, host@), |a, b| a == b),
{
    match (l, r) {
        (Value::DateTime(a), Value::DateTime(b)) => Ok(
            Some(cmp_ord(Some(rank_ticks(a.ticks, a.unit, b.ticks, b.unit)), op)),
        ),
        (Value::DateTime(a), Value::Str(s)) => {
            let ask: Ask = ask1(HostOp::ParseDateTime { unit: a.unit }, Value::Str(s.clone()));
            ticks_against(a.ticks, true, get_ticks(host, ask), op)
        },
        (Value::Str(s), Value::DateTime(b)) => {
            let ask: Ask = ask1(HostOp::ParseDateTime { unit: b.unit }, Value::Str(s.clone()));
            ticks_against(b.ticks, false, get_ticks(host, ask), op)
        },
        (Value::DateTime(a), Value::I64(n)) => Ok(Some(cmp_ord(Some(rank_i64(a.ticks, *n)), op))),
        (Value::I64(n), Value::DateTime(b)) => Ok(Some(cmp_ord(Some(rank_i64(*n, b.ticks)), op))),
        (Value::Duration(a), Value::Duration(b)) => Ok(
            Some(cmp_ord(Some(rank_ticks(a.ticks, a.unit, b.ticks, b.unit)), op)),
        ),
        (Value::Duration(a), Value::Str(s)) => {
            let ask: Ask = ask1(HostOp::ParseDuration { unit: a.unit }, Value::Str(s.clone()));
            ticks_against(a.ticks, true, get_ticks(host, ask), op)
        },
        (Value::Str(s), Value::Duration(b)) => {
            let ask: Ask = ask1(HostOp::ParseDuration { unit: b.unit }, Value::Str(s.clone()));
            ticks_against(b.ticks, false, get_ticks(host, ask), op)
        },
        (Value::Duration(a), Value::I64(n)) => Ok(Some(cmp_ord(Some(rank_i64(a.ticks, *n)), op))),
        (Value::I64(n), Value::Duration(b)) => Ok(Some(cmp_ord(Some(rank_i64(*n, b.ticks)), op))),
        _ => Ok(None),
    }
}

// ---------------------------------------------------------------- numeric view

/// A value as a double, where it has one: numbers, booleans as 0 and 1, and the
/// tick or day counts of temporal values.
pub open spec fn numeric(d: Datum, log: Log) -> Result<Option<F64>, Query> {
    match d {
        Datum::Bool(b) => Ok(
            Some(
                float_of(
                    if b {
                        1
                    } else {
                        0
                    },
                ),
            ),
        ),
        Datum::I64(n) => Ok(Some(float_of(n as int))),
        Datum::F64(x) => Ok(Some(x)),
        Datum::Dec(x) => match float_answer(
            log,
            Query { op: HostOp::DecFloat, args: seq![Datum::Dec(x)] },
        ) {
            Ok(f) => Ok(Some(f)),
            Err(e) => Err(e),
        },
        Datum::DateTime(t) => Ok(Some(float_of(t.ticks as int))),
        Datum::Duration(t) => Ok(Some(float_of(t.ticks as int))),
        Datum::Date(t) => Ok(Some(float_of(t.epoch_day as int))),
        Datum::Time(t) => Ok(Some(float_of(t.ticks as int))),
        _ => Ok(None),
    }
}

/// A value as a double, where it has one.
pub fn as_float(v: &Value, host: &Answers) -> (r: Result<Option<F64>, Ask>)
    ensures
        agree(r, numeric(v@, host@), |a, b| a == b),
{
    match v {
        Value::Bool(b) => Ok(
            Some(
                float_from(
                    if *b {
                        1
                    } else {
                        0
                    },
                ),
            ),
        ),
        Value::I64(n) => Ok(Some(float_from(*n as i128))),
        Value::F64(x) => Ok(Some(*x)),
        Value::Dec(d) => match get_float(host, ask1(HostOp::DecFloat, Value::Dec(*d))) {
            Ok(f) => Ok(Some(f)),
            Err(e) => Err(e),
        },
        Value::DateTime(t) => Ok(Some(float_from(t.ticks as i128))),
        Value::Duration(t) => Ok(Some(float_from(t.ticks as i128))),
        Value::Date(t) => Ok(Some(float_from(t.epoch_day as i128))),
        Value::Time(t) => Ok(Some(float_from(t.ticks as i128))),
        _ => Ok(None),
    }
}

/// How a decimal cell ranks against a decimal literal: exactly, or by their
/// doubles where no common scale fits.
pub open spec fn decimal_rank(a: Decimal, b: Decimal, log: Log) -> Result<Option<Rank>, Query> {
    if comparable(a, b) {
        Ok(Some(decimal_order(a, b)))
    } else {
        match float_answer(log, Query { op: HostOp::DecFloat, args: seq![Datum::Dec(a)] }) {
            Err(e) => Err(e),
            Ok(x) => match float_answer(
                log,
                Query { op: HostOp::DecFloat, args: seq![Datum::Dec(b)] },
            ) {
                Err(e) => Err(e),
                Ok(y) => Ok(x.order(y)),
            },
        }
    }
}

/// Compares a decimal cell with a decimal literal without rounding either.
pub fn dec_cmp(unscaled: i128, scale: u8, op: CmpOp, lit: &Decimal, host: &Answers) -> (r: Result<bool, Ask>)
    ensures
        agree(
            r,
            decimal_rank(Decimal { unscaled, scale }, *lit, host@),
            |b, rank| b == satisfies(rank, op),
        ),
{
    let a: Decimal = Decimal { unscaled, scale };
    match rank_decimals(a, *lit) {
        Some(rank) => Ok(cmp_ord(Some(rank), op)),
        None => match get_float(host, ask1(HostOp::DecFloat, Value::Dec(a))) {
            Err(e) => Err(e),
            Ok(x) => match get_float(host, ask1(HostOp::DecFloat, Value::Dec(*lit))) {
                Err(e) => Err(e),
                Ok(y) => Ok(cmp_ord(x.compare(y), op)),
            },
        },
    }
}

/// Compares two unscaled values of one scale.
pub fn dec_cmp_i128(a: i128, op: CmpOp, b: i128) -> (r: bool)
    ensures
        r == satisfies(Some(rank128(a, b)), op),
{
    cmp_ord(Some(rank_i128(a, b)), op)
}

// ---------------------------------------------------------------- general comparison

/// Equality of two values that have no common order.
pub open spec fn unordered_equal(l: Datum, r: Datum, log: Log) -> Result<bool, Query> {
    match (l, r) {
        (Datum::Resource(a), Datum::Resource(b)) => Ok(a == b),
        (Datum::Struct(_), Datum::Struct(_)) => bool_answer(
            log,
            Query { op: HostOp::Alike, args: seq![l, r] },
        ),
        (Datum::List(_), Datum::List(_)) => bool_answer(
            log,
            Query { op: HostOp::Alike, args: seq![l, r] },
        ),
        _ => Ok(false),
    }
}

/// The comparison of two values. A missing operand satisfies nothing; temporal
/// operands compare exactly; texts alphabetically; everything numeric by its
/// double; what is left knows only equality.
pub open spec fn compared(l: Datum, op: CmpOp, r: Datum, log: Log) -> Result<bool, Query> {
    if l is Null || r is Null {
        Ok(false)
    } else {
        match temporal_verdict(l, op, r, log) {
            Err(e) => Err(e),
            Ok(Some(b)) => Ok(b),
            Ok(None) => match (l, r) {
                (Datum::Str(a), Datum::Str(b)) => Ok(satisfies(Some(text_order(a, b)), op)),
                _ => match numeric(l, log) {
                    Err(e) => Err(e),
                    Ok(x) => match numeric(r, log) {
                        Err(e) => Err(e),
                        Ok(y) => match (x, y) {
                            (Some(a), Some(b)) => Ok(satisfies(a.order(b), op)),
                            _ => match op {
                                CmpOp::Eq => unordered_equal(l, r, log),
                                CmpOp::Ne => match unordered_equal(l, r, log) {
                                    Ok(b) => Ok(!b),
                                    Err(e) => Err(e),
                                },
                                _ => Ok(false),
                            },
                        },
                    },
                },
            },
        }
    }
}

fn equal_unordered(l: &Value, r: &Value, host: &Answers) -> (out: Result<bool, Ask>)
    ensures
        agree(out, unordered_equal(l@, r@, host@), |a, b| a == b),
{
    match (l, r) {
        (Value::Resource(a), Value::Resource(b)) => Ok(same_text(a.as_str(), b.as_str())),
        (Value::Struct(_), Value::Struct(_)) => get_bool(
            host,
            ask2(HostOp::Alike, l.dup(), r.dup()),
        ),
        (Value::List(_), Value::List(_)) => get_bool(host, ask2(HostOp::Alike, l.dup(), r.dup())),
        _ => Ok(false),
    }
}

/// Compares two values (see [`compared`]).
pub fn compare(l: &Value, op: CmpOp, r: &Value, host: &Answers) -> (out: Result<bool, Ask>)
    ensures
        agree(out, compared(l@, op, r@, host@), |a, b| a == b),
{
    if l.is_null() || r.is_null() {
        return Ok(false);
    }
    match dt_cmp(l, op, r, host) {
        Err(e) => {
            return Err(e);
        },
        Ok(Some(b)) => {
            return Ok(b);
        },
        Ok(None) => {},
    }
    if let (Value::Str(a), Value::Str(b)) = (l, r) {
        return Ok(cmp_ord(Some(rank_texts(a.as_str(), b.as_str())), op));
    }
    let x: Option<F64> = match as_float(l, host) {
        Err(e) => {
            return Err(e);
        },
        Ok(x) => x,
    };
    let y: Option<F64> = match as_float(r, host) {
        Err(e) => {
            return Err(e);
        },
        Ok(y) => y,
    };
    match (x, y) {
        (Some(a), Some(b)) => Ok(cmp_ord(a.compare(b), op)),
        _ => match op {
            CmpOp::Eq => equal_unordered(l, r, host),
            CmpOp::Ne => match equal_unordered(l, r, host) {
                Ok(b) => Ok(!b),
                Err(e) => Err(e),
            },
            _ => Ok(false),
        },
    }
}

/// A comparison with a missing operand holds for no operator.
pub proof fn lemma_null_compares_false(l: Datum, op: CmpOp, r: Datum, log: Log)
    requires
        l is Null || r is Null,
    ensures
        compared(l, op, r, log) == Ok::<bool, Query>(false),
{
}

} // verus!
