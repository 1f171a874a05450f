//! Aggregates.
//!
//! An accumulator keeps its exact lanes (counts, decimal sums in 128 bits,
//! instants in ticks, first and last texts, distinct texts) and the extremes of
//! its doubles itself; the double-precision sums are carried by the host, over the
//! values noted since the last time they were settled.
use vstd::prelude::*;
use crate::chunk::{dup_opt_text, opt_text};
use crate::compare::{agree, as_float, numeric};
use crate::expr::ArithOp;
use crate::float::{float_from, float_of, truncate, truncated, Rank, F64};
use crate::host::{answer, ask1, ask2, float_answer, get_float, Answers, Ask, HostOp, Log, Query};
use crate::text::{owned, same_text};
use crate::value::{data, dup_texts, dup_values, fits_i128, pow10_i128, rescale_up, rescaled, ten_to, texts, DateTime, Datum, Decimal, TimeUnit, Value};

verus! {

/// An aggregate function.
#[derive(Clone, Copy, Debug, PartialEq, Eq, Structural)]
pub enum AggFunc {
    Sum,
    Avg,
    Min,
    Max,
    Std,
    CountDistinct,
    First,
    Last,
    Pct(u8),
}

// ---------------------------------------------------------------- rounding

/// `num / den` for `den > 0`, rounded to the nearest integer, ties to even.
pub open spec fn half_even(num: int, den: int) -> int {
    let q = num / den;
    let r = num % den;
    if 2 * r > den || (2 * r == den && q % 2 == 1) {
        q + 1
    } else {
        q
    }
}

/// Truncating division with the parts that rounding needs, against the floor
/// division of the specification.
proof fn lemma_half_even_sign(num: int, den: int, q: int, r: int)
    requires
        den > 0,
        num == q * den + r,
        num >= 0 ==> 0 <= r < den,
        num < 0 ==> -den < r <= 0,
    ensures
        half_even(num, den) == (if 2 * (if r < 0 {
            -r
        } else {
            r
        }) > den || (2 * (if r < 0 {
            -r
        } else {
            r
        }) == den && q % 2 != 0) {
            if num < 0 {
                q - 1
            } else {
                q + 1
            }
        } else {
            q
        }),
{
    if num >= 0 || r == 0 {
        vstd::arithmetic::div_mod::lemma_fundamental_div_mod_converse(num, den, q, r);
    } else {
        assert(num == (q - 1) * den + (r + den)) by (nonlinear_arith)
            requires
                num == q * den + r,
        ;
        vstd::arithmetic::div_mod::lemma_fundamental_div_mod_converse(num, den, q - 1, r + den);
    }
}

/// Integer division rounded to the nearest integer, ties to even.
pub fn div_round_half_even(num: i128, den: i128) -> (r: i128)
    requires
        0 < den <= 0x3fff_ffff_ffff_ffff_ffff_ffff_ffff_ffff,
    ensures
        r == half_even(num as int, den as int),
{
    let m: u128 = if num < 0 {
        (-(num + 1)) as u128 + 1
    } else {
        num as u128
    };
    let d: u128 = den as u128;
    let qa: u128 = m / d;
    let ra: u128 = m % d;
    proof {
        vstd::arithmetic::div_mod::lemma_fundamental_div_mod(m as int, d as int);
        vstd::arithmetic::div_mod::lemma_mod_bound(m as int, d as int);
        if num < 0 {
            assert(num == (-qa) * d + (-ra)) by (nonlinear_arith)
                requires
                    -num == d * qa + ra,
            ;
            lemma_half_even_sign(num as int, d as int, -(qa as int), -(ra as int));
        } else {
            assert(num == qa * d + ra) by (nonlinear_arith)
                requires
                    num == d * qa + ra,
            ;
            lemma_half_even_sign(num as int, d as int, qa as int, ra as int);
        }
        assert(qa <= m && (ra > 0 ==> qa < m)) by (nonlinear_arith)
            requires
                m == d * qa + ra,
                d >= 1,
                qa >= 0,
                ra >= 0,
        ;
    }
    let up: bool = 2 * ra > d || (2 * ra == d && qa % 2 == 1);
    let q: u128 = if up {
        qa + 1
    } else {
        qa
    };
    if num >= 0 {
        q as i128
    } else if q == 0x8000_0000_0000_0000_0000_0000_0000_0000 {
        i128::MIN
    } else {
        -(q as i128)
    }
}

/// A decimal brought to another scale: exactly to a larger one, rounded to a
/// smaller one (ties to even); `None` where 128 bits do not hold it.
pub open spec fn at_scale(d: Decimal, scale: u8) -> Option<i128> {
    if scale >= d.scale {
        if scale - d.scale <= 38 && fits_i128(rescaled(d, scale as nat)) {
            Some(rescaled(d, scale as nat) as i128)
        } else {
            None
        }
    } else if d.scale - scale <= 37 {
        Some(half_even(d.unscaled as int, ten_to((d.scale - scale) as nat)) as i128)
    } else {
        None
    }
}

fn rescale(d: Decimal, scale: u8) -> (r: Option<i128>)
    ensures
        r == at_scale(d, scale),
{
    if scale >= d.scale {
        rescale_up(d, scale)
    } else if d.scale - scale <= 37 {
        match pow10_i128(d.scale - scale) {
            Some(p) => {
                proof {
                    crate::value::lemma_ten_to_pos((d.scale - scale) as nat);
                    crate::value::lemma_ten_to_mono((d.scale - scale) as nat, 37);
                    reveal_with_fuel(ten_to, 38);
                }
                Some(div_round_half_even(d.unscaled, p))
            },
            None => None,
        }
    } else {
        None
    }
}

// ---------------------------------------------------------------- exact lanes

/// The exact decimal lane: sum and extremes of unscaled values at one scale.
#[derive(Clone, Copy, Debug, PartialEq, Eq, Structural)]
pub struct DecLane {
    pub scale: Option<u8>,
    pub sum: i128,
    pub min: i128,
    pub max: i128,
    pub overflow: bool,
}

/// The exact instant lane: extremes in ticks of one unit.
#[derive(Clone, Copy, Debug, PartialEq, Eq, Structural)]
pub struct DtLane {
    pub unit: Option<TimeUnit>,
    pub min: i64,
    pub max: i64,
}

/// The smaller of two integers.
pub open spec fn lesser(a: int, b: int) -> int {
    if b < a {
        b
    } else {
        a
    }
}

/// The larger of two integers.
pub open spec fn greater(a: int, b: int) -> int {
    if b > a {
        b
    } else {
        a
    }
}

impl DecLane {
    /// Nothing noted yet.
    pub open spec fn empty() -> DecLane {
        DecLane { scale: None, sum: 0, min: i128::MAX, max: i128::MIN, overflow: false }
    }

    /// The lane's scale: its own, or the first one it meets.
    pub open spec fn scale_or(self, s: u8) -> u8 {
        match self.scale {
            Some(x) => x,
            None => s,
        }
    }

    /// The lane with one more decimal. A sum that leaves 128 bits, or a decimal
    /// that has no value at the lane's scale, marks the lane as overflown.
    pub open spec fn with(self, d: Decimal) -> DecLane {
        let s = self.scale_or(d.scale);
        match at_scale(d, s) {
            Some(u) => if fits_i128(self.sum + u) {
                DecLane {
                    scale: Some(s),
                    sum: (self.sum + u) as i128,
                    min: lesser(self.min as int, u as int) as i128,
                    max: greater(self.max as int, u as int) as i128,
                    overflow: self.overflow,
                }
            } else {
                DecLane { scale: Some(s), overflow: true, ..self }
            },
            None => DecLane { scale: Some(s), overflow: true, ..self },
        }
    }

    /// The lane followed by another one.
    pub open spec fn join(self, o: DecLane) -> DecLane {
        match o.scale {
            None => DecLane { overflow: self.overflow || o.overflow, ..self },
            Some(os) => {
                let s = self.scale_or(os);
                let ok = os == s && fits_i128(self.sum + o.sum);
                DecLane {
                    scale: Some(s),
                    sum: if ok {
                        (self.sum + o.sum) as i128
                    } else {
                        self.sum
                    },
                    min: lesser(self.min as int, o.min as int) as i128,
                    max: greater(self.max as int, o.max as int) as i128,
                    overflow: self.overflow || o.overflow || !ok,
                }
            },
        }
    }

    fn new() -> (r: DecLane)
        ensures
            r == DecLane::empty(),
    {
        DecLane { scale: None, sum: 0, min: i128::MAX, max: i128::MIN, overflow: false }
    }

    fn note(&mut self, d: Decimal)
        ensures
            *final(self) == old(self).with(d),
    {
        proof {
            if d.scale == old(self).scale_or(d.scale) {
                assert(ten_to(0) == 1);
            }
        }
        let s: u8 = match self.scale {
            Some(x) => x,
            None => d.scale,
        };
        self.scale = Some(s);
        match rescale(d, s) {
            Some(u) => match self.sum.checked_add(u) {
                Some(t) => {
                    self.sum = t;
                    if u < self.min {
                        self.min = u;
                    }
                    if u > self.max {
                        self.max = u;
                    }
                },
                None => {
                    self.overflow = true;
                },
            },
            None => {
                self.overflow = true;
            },
        }
    }

    fn append(&mut self, o: &DecLane)
        ensures
            *final(self) == old(self).join(*o),
    {
        if let Some(os) = o.scale {
            let s: u8 = match self.scale {
                Some(x) => x,
                None => os,
            };
            self.scale = Some(s);
            if os == s {
                match self.sum.checked_add(o.sum) {
                    Some(t) => {
                        self.sum = t;
                    },
                    None => {
                        self.overflow = true;
                    },
                }
            } else {
                self.overflow = true;
            }
            if o.min < self.min {
                self.min = o.min;
            }
            if o.max > self.max {
                self.max = o.max;
            }
        }
        if o.overflow {
            self.overflow = true;
        }
    }
}

impl DtLane {
    /// Nothing noted yet.
    pub open spec fn empty() -> DtLane {
        DtLane { unit: None, min: i64::MAX, max: i64::MIN }
    }

    /// The lane with one more instant; it keeps the first unit it met.
    pub open spec fn with(self, t: DateTime) -> DtLane {
        DtLane {
            unit: match self.unit {
                Some(u) => Some(u),
                None => Some(t.unit),
            },
            min: lesser(self.min as int, t.ticks as int) as i64,
            max: greater(self.max as int, t.ticks as int) as i64,
        }
    }

    /// The lane followed by another one.
    pub open spec fn join(self, o: DtLane) -> DtLane {
        match o.unit {
            None => self,
            Some(ou) => DtLane {
                unit: match self.unit {
                    Some(u) => Some(u),
                    None => Some(ou),
                },
                min: lesser(self.min as int, o.min as int) as i64,
                max: greater(self.max as int, o.max as int) as i64,
            },
        }
    }

    fn new() -> (r: DtLane)
        ensures
            r == DtLane::empty(),
    {
        DtLane { unit: None, min: i64::MAX, max: i64::MIN }
    }

    fn note(&mut self, t: DateTime)
        ensures
            *final(self) == old(self).with(t),
    {
        if self.unit.is_none() {
            self.unit = Some(t.unit);
        }
        if t.ticks < self.min {
            self.min = t.ticks;
        }
        if t.ticks > self.max {
            self.max = t.ticks;
        }
    }

    fn append(&mut self, o: &DtLane)
        ensures
            *final(self) == old(self).join(*o),
    {
        if let Some(ou) = o.unit {
            if self.unit.is_none() {
                self.unit = Some(ou);
            }
            if o.min < self.min {
                self.min = o.min;
            }
            if o.max > self.max {
                self.max = o.max;
            }
        }
    }
}

// ---------------------------------------------------------------- accumulators

/// The running double-precision moments.
#[derive(Clone, Copy, Debug, PartialEq, Eq, Structural)]
pub struct Moments {
    pub sum: F64,
    pub sum_sq: F64,
    pub min: F64,
    pub max: F64,
}

impl Moments {
    /// The moments of nothing: sums of 0, and infinities as extremes.
    pub open spec fn empty() -> Moments {
        Moments {
            sum: F64 { bits: 0 },
            sum_sq: F64 { bits: 0 },
            min: F64 { bits: 0x7ff0_0000_0000_0000 },
            max: F64 { bits: 0xfff0_0000_0000_0000 },
        }
    }
}

/// A running aggregate of one group.
#[derive(Debug)]
pub struct AggAcc {
    pub func: AggFunc,
    pub n: i64,
    pub moments: Moments,
    pub pending: Vec<Value>,
    pub dec: DecLane,
    pub dt: DtLane,
    pub first: Option<String>,
    pub last: Option<String>,
    pub distinct: Vec<String>,
}

/// What an [`AggAcc`] is.
#[verifier::ext_equal]
pub struct Acc {
    pub func: AggFunc,
    pub n: int,
    pub moments: Moments,
    pub pending: Seq<Datum>,
    pub dec: DecLane,
    pub dt: DtLane,
    pub first: Option<Seq<char>>,
    pub last: Option<Seq<char>>,
    pub distinct: Set<Seq<char>>,
}

/// A count that stays at the largest there is.
pub open spec fn sat_add(a: int, b: int) -> int {
    if a + b > i64::MAX {
        i64::MAX as int
    } else {
        a + b
    }
}

/// Adds to a count.
pub fn add_count(a: i64, b: i64) -> (r: i64)
    requires
        a >= 0,
        b >= 0,
    ensures
        r == sat_add(a as int, b as int),
{
    if a > i64::MAX - b {
        i64::MAX
    } else {
        a + b
    }
}

/// Does the value have a number?
pub open spec fn is_numeric(d: Datum) -> bool {
    d is Bool || d is I64 || d is F64 || d is Dec || d is DateTime || d is Duration || d is Date
        || d is Time
}

fn has_number(v: &Value) -> (r: bool)
    ensures
        r == is_numeric(v@),
{
    matches!(
        v,
        Value::Bool(_) | Value::I64(_) | Value::F64(_) | Value::Dec(_) | Value::DateTime(_) | Value::Duration(_) | Value::Date(_) | Value::Time(_)
    )
}

/// Does the function work on the texts of values?
pub open spec fn of_text(f: AggFunc) -> bool {
    f is CountDistinct || f is First || f is Last
}

/// Does the function work on the texts of values?
pub fn needs_text(f: AggFunc) -> (r: bool)
    ensures
        r == of_text(f),
{
    matches!(f, AggFunc::CountDistinct | AggFunc::First | AggFunc::Last)
}

impl Acc {
    /// Nothing noted yet.
    pub open spec fn empty(func: AggFunc) -> Acc {
        Acc {
            func,
            n: 0,
            moments: Moments::empty(),
            pending: Seq::empty(),
            dec: DecLane::empty(),
            dt: DtLane::empty(),
            first: None,
            last: None,
            distinct: Set::empty(),
        }
    }

    /// The aggregate with one more value, whose text is `text`. Numeric
    /// functions pass over what has no number, text functions over empty texts.
    pub open spec fn with(self, d: Datum, text: Seq<char>) -> Acc {
        match self.func {
            AggFunc::CountDistinct => if text.len() == 0 {
                self
            } else {
                Acc { distinct: self.distinct.insert(text), ..self }
            },
            AggFunc::First => if self.first is Some || text.len() == 0 {
                self
            } else {
                Acc { first: Some(text), ..self }
            },
            AggFunc::Last => if text.len() == 0 {
                self
            } else {
                Acc { last: Some(text), ..self }
            },
            AggFunc::Pct(_) => if is_numeric(d) {
                Acc { pending: self.pending.push(d), ..self }
            } else {
                self
            },
            _ => if is_numeric(d) {
                Acc {
                    n: sat_add(self.n, 1),
                    pending: self.pending.push(d),
                    dec: match d {
                        Datum::Dec(x) => self.dec.with(x),
                        _ => self.dec,
                    },
                    dt: match d {
                        Datum::DateTime(t) => self.dt.with(t),
                        _ => self.dt,
                    },
                    ..self
                }
            } else {
                self
            },
        }
    }

    /// The least and the greatest double, the pending values included.
    pub open spec fn extremes(self, log: Log) -> Result<(F64, F64), Query> {
        if self.func is Pct {
            Ok((self.moments.min, self.moments.max))
        } else {
            match doubles(self.pending, self.pending.len(), log) {
                Err(e) => Err(e),
                Ok(xs) => Ok((least_of(self.moments.min, xs), greatest_of(self.moments.max, xs))),
            }
        }
    }

    /// The moments with the pending values carried on. The sums are asked for
    /// where the function is made of them.
    pub open spec fn settled(self, log: Log) -> Result<Moments, Query> {
        if self.pending.len() == 0 || self.func is Pct {
            Ok(self.moments)
        } else {
            match doubles(self.pending, self.pending.len(), log) {
                Err(e) => Err(e),
                Ok(xs) => {
                    let min = least_of(self.moments.min, xs);
                    let max = greatest_of(self.moments.max, xs);
                    if of_sums(self.func) {
                        match sums_answer(log, sums_query(self.moments, xs)) {
                            Err(e) => Err(e),
                            Ok((sum, sum_sq)) => Ok(Moments { sum, sum_sq, min, max }),
                        }
                    } else {
                        Ok(Moments { min, max, ..self.moments })
                    }
                },
            }
        }
    }

    /// The aggregate followed by one of a later run of rows.
    pub open spec fn join(self, o: Acc, log: Log) -> Result<Acc, Query> {
        match self.settled(log) {
            Err(e) => Err(e),
            Ok(a) => match o.settled(log) {
                Err(e) => Err(e),
                Ok(b) => match combined(self.func, a, b, log) {
                    Err(e) => Err(e),
                    Ok(m) => Ok(
                        Acc {
                            func: self.func,
                            n: sat_add(self.n, o.n),
                            moments: m,
                            pending: if self.func is Pct {
                                self.pending + o.pending
                            } else {
                                Seq::empty()
                            },
                            dec: self.dec.join(o.dec),
                            dt: self.dt.join(o.dt),
                            first: if self.first is Some {
                                self.first
                            } else {
                                o.first
                            },
                            last: if o.last is Some {
                                o.last
                            } else {
                                self.last
                            },
                            distinct: self.distinct.union(o.distinct),
                        },
                    ),
                },
            },
        }
    }
}

/// Is the function made of the sums of doubles?
pub open spec fn of_sums(f: AggFunc) -> bool {
    f is Sum || f is Avg || f is Std
}

fn needs_sums(f: AggFunc) -> (r: bool)
    ensures
        r == of_sums(f),
{
    matches!(f, AggFunc::Sum | AggFunc::Avg | AggFunc::Std)
}

/// The lesser of two doubles, the first where they rank equal; not-a-number is
/// passed over.
pub open spec fn least(a: F64, b: F64) -> F64 {
    if a.is_nan() || (!b.is_nan() && b.key() < a.key()) {
        b
    } else {
        a
    }
}

/// The greater of two doubles, the first where they rank equal; not-a-number is
/// passed over.
pub open spec fn greatest(a: F64, b: F64) -> F64 {
    if a.is_nan() || (!b.is_nan() && b.key() > a.key()) {
        b
    } else {
        a
    }
}

/// The least of a double and a run of doubles.
pub open spec fn least_of(a: F64, xs: Seq<F64>) -> F64
    decreases xs.len(),
{
    if xs.len() == 0 {
        a
    } else {
        least(least_of(a, xs.drop_last()), xs.last())
    }
}

/// The greatest of a double and a run of doubles.
pub open spec fn greatest_of(a: F64, xs: Seq<F64>) -> F64
    decreases xs.len(),
{
    if xs.len() == 0 {
        a
    } else {
        greatest(greatest_of(a, xs.drop_last()), xs.last())
    }
}

fn lower(a: F64, b: F64) -> (r: F64)
    ensures
        r == least(a, b),
{
    if a.nan() {
        return b;
    }
    match b.compare(a) {
        Some(Rank::Less) => b,
        _ => a,
    }
}

fn higher(a: F64, b: F64) -> (r: F64)
    ensures
        r == greatest(a, b),
{
    if a.nan() {
        return b;
    }
    match b.compare(a) {
        Some(Rank::Greater) => b,
        _ => a,
    }
}

/// The doubles as values.
pub open spec fn double_data(xs: Seq<F64>) -> Seq<Datum> {
    Seq::new(xs.len(), |i: int| Datum::F64(xs[i]))
}

/// The question for the sums carried on over doubles.
pub open spec fn sums_query(m: Moments, xs: Seq<F64>) -> Query {
    Query {
        op: HostOp::Sums,
        args: seq![Datum::F64(m.sum), Datum::F64(m.sum_sq), Datum::List(double_data(xs))],
    }
}

/// The answer as two sums: a list of two doubles.
pub open spec fn sums_answer(log: Log, q: Query) -> Result<(F64, F64), Query> {
    match answer(log, q) {
        Some(Datum::List(s)) => if s.len() == 2 && s[0] is F64 && s[1] is F64 {
            Ok((s[0]->F64_0, s[1]->F64_0))
        } else {
            Err(q)
        },
        _ => Err(q),
    }
}

/// The moments of two runs in one, the earlier run first.
pub open spec fn combined(func: AggFunc, a: Moments, b: Moments, log: Log) -> Result<Moments, Query> {
    let min = least(a.min, b.min);
    let max = greatest(a.max, b.max);
    if of_sums(func) {
        match op2(ArithOp::Add, a.sum, b.sum, log) {
            Err(e) => Err(e),
            Ok(sum) => match op2(ArithOp::Add, a.sum_sq, b.sum_sq, log) {
                Err(e) => Err(e),
                Ok(sum_sq) => Ok(Moments { sum, sum_sq, min, max }),
            },
        }
    } else {
        Ok(Moments { min, max, ..a })
    }
}

fn combine(func: AggFunc, a: Moments, b: Moments, host: &Answers) -> (r: Result<Moments, Ask>)
    ensures
        agree(r, combined(func, a, b, host@), |x: Moments, y: Moments| x == y),
{
    let min: F64 = lower(a.min, b.min);
    let max: F64 = higher(a.max, b.max);
    if !needs_sums(func) {
        return Ok(Moments { sum: a.sum, sum_sq: a.sum_sq, min, max });
    }
    match ask_op2(ArithOp::Add, a.sum, b.sum, host) {
        Err(e) => Err(e),
        Ok(sum) => match ask_op2(ArithOp::Add, a.sum_sq, b.sum_sq, host) {
            Err(e) => Err(e),
            Ok(sum_sq) => Ok(Moments { sum, sum_sq, min, max }),
        },
    }
}

fn get_sums(host: &Answers, ask: Ask) -> (r: Result<(F64, F64), Ask>)
    ensures
        agree(r, sums_answer(host@, ask@), |a: (F64, F64), b: (F64, F64)| a == b),
{
    match host.lookup(&ask) {
        Some(v) => {
            if let Value::List(s) = v {
                assert(v@->List_0.len() == s@.len());
                if s.len() == 2 {
                    assert(forall|i: int| 0 <= i < 2 ==> v@->List_0[i] == s@[i]@);
                    if let (Value::F64(a), Value::F64(b)) = (&s[0], &s[1]) {
                        return Ok((*a, *b));
                    }
                }
            }
            Err(ask)
        },
        None => Err(ask),
    }
}

fn ask_sums(m: Moments, xs: &Vec<F64>, host: &Answers) -> (r: Result<(F64, F64), Ask>)
    ensures
        agree(
            r,
            sums_answer(host@, sums_query(m, xs@)),
            |a: (F64, F64), b: (F64, F64)| a == b,
        ),
{
    let mut vals: Vec<Value> = Vec::new();
    for i in 0..xs.len()
        invariant
            vals@.len() == i,
            forall|k: int| 0 <= k < i ==> (#[trigger] vals@[k])@ == Datum::F64(xs@[k]),
    {
        vals.push(Value::F64(xs[i]));
    }
    let list = Value::List(vals);
    assert(list@->List_0 =~= double_data(xs@));
    let mut args: Vec<Value> = Vec::new();
    args.push(Value::F64(m.sum));
    args.push(Value::F64(m.sum_sq));
    args.push(list);
    let ask = Ask { op: HostOp::Sums, args };
    assert(ask@.args =~= sums_query(m, xs@).args);
    get_sums(host, ask)
}

fn extremes_over(m: Moments, xs: &Vec<F64>) -> (r: (F64, F64))
    ensures
        r == (least_of(m.min, xs@), greatest_of(m.max, xs@)),
{
    let mut lo: F64 = m.min;
    let mut hi: F64 = m.max;
    assert(xs@.take(0) =~= Seq::empty());
    for i in 0..xs.len()
        invariant
            lo == least_of(m.min, xs@.take(i as int)),
            hi == greatest_of(m.max, xs@.take(i as int)),
    {
        assert(xs@.take(i + 1).drop_last() =~= xs@.take(i as int));
        lo = lower(lo, xs[i]);
        hi = higher(hi, xs[i]);
    }
    assert(xs@.take(xs@.len() as int) =~= xs@);
    (lo, hi)
}

impl AggAcc {
    /// The aggregate.
    pub open spec fn view(&self) -> Acc {
        Acc {
            func: self.func,
            n: self.n as int,
            moments: self.moments,
            pending: data(self.pending@),
            dec: self.dec,
            dt: self.dt,
            first: opt_text(self.first),
            last: opt_text(self.last),
            distinct: texts(self.distinct@).to_set(),
        }
    }

    /// Counts are not negative, and no distinct text is held twice.
    pub open spec fn wf(&self) -> bool {
        self.n >= 0 && texts(self.distinct@).no_duplicates()
    }

    /// An empty aggregate.
    pub fn new(func: AggFunc) -> (r: AggAcc)
        ensures
            r@ == Acc::empty(func),
            r.wf(),
    {
        let r = AggAcc {
            func,
            n: 0,
            moments: Moments {
                sum: F64 { bits: 0 },
                sum_sq: F64 { bits: 0 },
                min: F64 { bits: 0x7ff0_0000_0000_0000 },
                max: F64 { bits: 0xfff0_0000_0000_0000 },
            },
            pending: Vec::new(),
            dec: DecLane::new(),
            dt: DtLane::new(),
            first: None,
            last: None,
            distinct: Vec::new(),
        };
        assert(r@.pending =~= Seq::empty());
        assert(r@.distinct =~= Set::empty());
        r
    }

    fn has_text(&self, text: &str) -> (r: bool)
        ensures
            r == self@.distinct.contains(text@),
    {
        let ghost all = texts(self.distinct@);
        for i in 0..self.distinct.len()
            invariant
                all == texts(self.distinct@),
                forall|k: int| 0 <= k < i ==> #[trigger] all[k] != text@,
        {
            if same_text(self.distinct[i].as_str(), text) {
                assert(all[i as int] == text@);
                return true;
            }
        }
        false
    }

    /// Notes one value whose text is `text` (see [`Acc::with`]).
    pub fn observe(&mut self, v: &Value, text: &str)
        requires
            old(self).wf(),
        ensures
            final(self)@ == old(self)@.with(v@, text@),
            final(self).wf(),
    {
        let ghost before = *self;
        match self.func {
            AggFunc::CountDistinct => {
                if !text.is_empty() {
                    if !self.has_text(text) {
                        self.distinct.push(owned(text));
                        proof {
                            let a = texts(before.distinct@);
                            let b = texts(self.distinct@);
                            assert(b =~= a.push(text@));
                            assert(b.to_set() =~= a.to_set().insert(text@)) by {
                                assert forall|x: Seq<char>| b.to_set().contains(x) <==> a.to_set().insert(
                                    text@,
                                ).contains(x) by {
                                    if a.contains(x) {
                                        let i = choose|i: int| 0 <= i < a.len() && a[i] == x;
                                        assert(b[i] == x);
                                    }
                                    assert(b[a.len() as int] == text@);
                                }
                            }
                        }
                    } else {
                        assert(before@.distinct.insert(text@) =~= before@.distinct);
                    }
                }
            },
            AggFunc::First => {
                if self.first.is_none() && !text.is_empty() {
                    self.first = Some(owned(text));
                }
            },
            AggFunc::Last => {
                if !text.is_empty() {
                    self.last = Some(owned(text));
                }
            },
            AggFunc::Pct(_) => {
                if has_number(v) {
                    self.pending.push(v.dup());
                    assert(data(self.pending@) =~= data(before.pending@).push(v@));
                }
            },
            _ => {
                if has_number(v) {
                    self.n = add_count(self.n, 1);
                    self.pending.push(v.dup());
                    assert(data(self.pending@) =~= data(before.pending@).push(v@));
                    if let Value::Dec(d) = v {
                        self.dec.note(*d);
                    }
                    if let Value::DateTime(t) = v {
                        self.dt.note(*t);
                    }
                }
            },
        }
        assert(self@ =~= before@.with(v@, text@));
    }

    /// A copy of the aggregate.
    pub fn dup(&self) -> (r: AggAcc)
        ensures
            r@ == self@,
            self.wf() ==> r.wf(),
    {
        AggAcc {
            func: self.func,
            n: self.n,
            moments: self.moments,
            pending: dup_values(&self.pending),
            dec: self.dec,
            dt: self.dt,
            first: dup_opt_text(&self.first),
            last: dup_opt_text(&self.last),
            distinct: dup_texts(&self.distinct),
        }
    }

    /// The moments with the pending values carried on (see [`Acc::settled`]).
    pub fn settle(&self, host: &Answers) -> (r: Result<Moments, Ask>)
        ensures
            agree(r, self@.settled(host@), |a, b| a == b),
    {
        if self.pending.len() == 0 || matches!(self.func, AggFunc::Pct(_)) {
            return Ok(self.moments);
        }
        let xs: Vec<F64> = match to_doubles(&self.pending, host) {
            Err(e) => {
                return Err(e);
            },
            Ok(xs) => xs,
        };
        let (min, max) = extremes_over(self.moments, &xs);
        if !needs_sums(self.func) {
            return Ok(Moments { sum: self.moments.sum, sum_sq: self.moments.sum_sq, min, max });
        }
        match ask_sums(self.moments, &xs, host) {
            Err(e) => Err(e),
            Ok((sum, sum_sq)) => Ok(Moments { sum, sum_sq, min, max }),
        }
    }

    /// Carries the pending values into the moments, so that none are held.
    pub fn settle_in(&mut self, host: &Answers) -> (r: Result<(), Ask>)
        requires
            old(self).wf(),
        ensures
            final(self).wf(),
            match old(self)@.settled(host@) {
                Err(q) => r matches Err(a) && a@ == q && *final(self) == *old(self),
                Ok(m) => r is Ok && final(self)@ == (if old(self)@.func is Pct {
                    old(self)@
                } else {
                    Acc { moments: m, pending: Seq::empty(), ..old(self)@ }
                }),
            },
    {
        if matches!(self.func, AggFunc::Pct(_)) {
            return Ok(());
        }
        match self.settle(host) {
            Err(e) => Err(e),
            Ok(m) => {
                let ghost before = *self;
                self.moments = m;
                self.pending = Vec::new();
                assert(self@ =~= (Acc { moments: m, pending: Seq::empty(), ..before@ }));
                Ok(())
            },
        }
    }

    /// Folds in an aggregate of a later run of rows (see [`Acc::join`]). Where a
    /// question comes back nothing has changed.
    pub fn merge(&mut self, other: &AggAcc, host: &Answers) -> (r: Result<(), Ask>)
        requires
            old(self).wf(),
            other.wf(),
        ensures
            final(self).wf(),
            match old(self)@.join(other@, host@) {
                Err(q) => r matches Err(a) && a@ == q && *final(self) == *old(self),
                Ok(acc) => r is Ok && final(self)@ == acc,
            },
    {
        let ghost before = *self;
        let a: Moments = match self.settle(host) {
            Err(e) => {
                return Err(e);
            },
            Ok(a) => a,
        };
        let b: Moments = match other.settle(host) {
            Err(e) => {
                return Err(e);
            },
            Ok(b) => b,
        };
        let m: Moments = match combine(self.func, a, b, host) {
            Err(e) => {
                return Err(e);
            },
            Ok(m) => m,
        };
        self.moments = m;
        self.n = add_count(self.n, other.n);
        if matches!(self.func, AggFunc::Pct(_)) {
            for i in 0..other.pending.len()
                invariant
                    self.pending@.len() == before.pending@.len() + i,
                    data(self.pending@) == data(before.pending@) + data(other.pending@).take(
                        i as int,
                    ),
                    *self == (AggAcc { pending: self.pending, moments: m, n: self.n, ..before }),
                    self.n == sat_add(before.n as int, other.n as int),
            {
                let ghost sofar = data(self.pending@);
                self.pending.push(other.pending[i].dup());
                assert(data(self.pending@) =~= sofar.push(data(other.pending@)[i as int]));
                assert(data(other.pending@).take(i + 1) =~= data(other.pending@).take(
                    i as int,
                ).push(data(other.pending@)[i as int]));
            }
            assert(data(other.pending@).take(other.pending@.len() as int) =~= data(
                other.pending@,
            ));
        } else {
            self.pending = Vec::new();
        }
        self.dec.append(&other.dec);
        self.dt.append(&other.dt);
        if self.first.is_none() {
            self.first = crate::chunk::dup_opt_text(&other.first);
        }
        if other.last.is_some() {
            self.last = crate::chunk::dup_opt_text(&other.last);
        }
        let ghost had = texts(self.distinct@);
        let ghost new = texts(other.distinct@);
        let ghost frozen = *self;
        for i in 0..other.distinct.len()
            invariant
                new == texts(other.distinct@),
                texts(self.distinct@).no_duplicates(),
                texts(self.distinct@).to_set() == had.to_set().union(new.take(i as int).to_set()),
                *self == (AggAcc { distinct: self.distinct, ..frozen }),
        {
            let ghost sofar = texts(self.distinct@);
            let t: &String = &other.distinct[i];
            assert(new[i as int] == t@);
            assert(new.take(i + 1) =~= new.take(i as int).push(new[i as int]));
            proof {
                lemma_push_set(new.take(i as int), new[i as int]);
            }
            if !self.has_text(t.as_str()) {
                self.distinct.push(t.clone());
                assert(texts(self.distinct@) =~= sofar.push(t@));
                proof {
                    lemma_push_set(sofar, t@);
                }
            }
            assert(texts(self.distinct@).to_set() =~= had.to_set().union(
                new.take(i + 1).to_set(),
            ));
        }
        assert(new.take(new.len() as int) =~= new);
        assert(self@ =~= before@.join(other@, host@)->Ok_0);
        Ok(())
    }
}

proof fn lemma_push_set(s: Seq<Seq<char>>, x: Seq<char>)
    ensures
        s.push(x).to_set() == s.to_set().insert(x),
{
    assert forall|y: Seq<char>| s.push(x).to_set().contains(y) <==> s.to_set().insert(x).contains(
        y,
    ) by {
        if s.contains(y) {
            let i = choose|i: int| 0 <= i < s.len() && s[i] == y;
            assert(s.push(x)[i] == y);
        }
        assert(s.push(x)[s.len() as int] == x);
    }
    assert(s.push(x).to_set() =~= s.to_set().insert(x));
}

// ---------------------------------------------------------------- results

/// The extra fractional digits of an exact decimal mean.
pub const DEC_AVG_EXTRA: u8 = 6;

/// A scale with the extra digits of a mean, as far as a scale reaches.
pub open spec fn mean_scale(scale: u8) -> u8 {
    if scale + DEC_AVG_EXTRA > u8::MAX {
        u8::MAX
    } else {
        (scale + DEC_AVG_EXTRA) as u8
    }
}

impl Acc {
    /// The exact decimal result of a sum, an extreme or a mean; `None` where the
    /// aggregate has none. A mean is the exact quotient, rounded half to even to
    /// six more digits.
    pub open spec fn decimal(self) -> Option<Decimal> {
        match self.dec.scale {
            None => None,
            Some(scale) => if self.dec.overflow {
                None
            } else {
                match self.func {
                    AggFunc::Sum => Some(Decimal { unscaled: self.dec.sum, scale }),
                    AggFunc::Min => if self.n > 0 {
                        Some(Decimal { unscaled: self.dec.min, scale })
                    } else {
                        None
                    },
                    AggFunc::Max => if self.n > 0 {
                        Some(Decimal { unscaled: self.dec.max, scale })
                    } else {
                        None
                    },
                    AggFunc::Avg => {
                        let num = self.dec.sum * ten_to((mean_scale(scale) - scale) as nat);
                        if self.n > 0 && fits_i128(num) {
                            Some(
                                Decimal {
                                    unscaled: half_even(num, self.n) as i128,
                                    scale: mean_scale(scale),
                                },
                            )
                        } else {
                            None
                        }
                    },
                    _ => None,
                }
            },
        }
    }

    /// The exact instant of an extreme; `None` where the aggregate has none.
    pub open spec fn instant(self) -> Option<DateTime> {
        match self.dt.unit {
            None => None,
            Some(unit) => if self.n <= 0 {
                None
            } else {
                match self.func {
                    AggFunc::Min => Some(DateTime { ticks: self.dt.min, unit }),
                    AggFunc::Max => Some(DateTime { ticks: self.dt.max, unit }),
                    _ => None,
                }
            },
        }
    }
}

impl AggAcc {
    /// The exact decimal result (see [`Acc::decimal`]).
    pub fn dec_value(&self) -> (r: Option<Decimal>)
        requires
            self.wf(),
        ensures
            r == self@.decimal(),
    {
        let scale: u8 = match self.dec.scale {
            None => {
                return None;
            },
            Some(s) => s,
        };
        if self.dec.overflow {
            return None;
        }
        match self.func {
            AggFunc::Sum => Some(Decimal { unscaled: self.dec.sum, scale }),
            AggFunc::Min => if self.n > 0 {
                Some(Decimal { unscaled: self.dec.min, scale })
            } else {
                None
            },
            AggFunc::Max => if self.n > 0 {
                Some(Decimal { unscaled: self.dec.max, scale })
            } else {
                None
            },
            AggFunc::Avg => {
                if self.n <= 0 {
                    return None;
                }
                let out: u8 = if scale > u8::MAX - DEC_AVG_EXTRA {
                    u8::MAX
                } else {
                    scale + DEC_AVG_EXTRA
                };
                match pow10_i128(out - scale) {
                    None => None,
                    Some(factor) => match self.dec.sum.checked_mul(factor) {
                        None => None,
                        Some(num) => Some(
                            Decimal {
                                unscaled: div_round_half_even(num, self.n as i128),
                                scale: out,
                            },
                        ),
                    },
                }
            },
            _ => None,
        }
    }

    /// The exact instant of an extreme (see [`Acc::instant`]).
    pub fn dt_value(&self) -> (r: Option<DateTime>)
        ensures
            r == self@.instant(),
    {
        let unit: TimeUnit = match self.dt.unit {
            None => {
                return None;
            },
            Some(u) => u,
        };
        if self.n <= 0 {
            return None;
        }
        match self.func {
            AggFunc::Min => Some(DateTime { ticks: self.dt.min, unit }),
            AggFunc::Max => Some(DateTime { ticks: self.dt.max, unit }),
            _ => None,
        }
    }

    /// The number of distinct texts.
    pub fn distinct_count(&self) -> (r: usize)
        requires
            self.wf(),
        ensures
            r == self@.distinct.len(),
    {
        proof {
            texts(self.distinct@).unique_seq_to_set();
        }
        self.distinct.len()
    }

    /// The first text, or nothing.
    pub fn first_str(&self) -> (r: String)
        ensures
            r@ == (match self@.first {
                Some(s) => s,
                None => Seq::empty(),
            }),
    {
        match &self.first {
            Some(s) => s.clone(),
            None => String::new(),
        }
    }

    /// The last text, or nothing.
    pub fn last_str(&self) -> (r: String)
        ensures
            r@ == (match self@.last {
                Some(s) => s,
                None => Seq::empty(),
            }),
    {
        match &self.last {
            Some(s) => s.clone(),
            None => String::new(),
        }
    }
}

// ---------------------------------------------------------------- double-precision results

/// An arithmetic operation of the host.
pub open spec fn op2(op: ArithOp, x: F64, y: F64, log: Log) -> Result<F64, Query> {
    float_answer(log, Query { op: HostOp::Arith(op), args: seq![Datum::F64(x), Datum::F64(y)] })
}

fn ask_op2(op: ArithOp, x: F64, y: F64, host: &Answers) -> (r: Result<F64, Ask>)
    ensures
        agree(r, op2(op, x, y, host@), |a, b| a == b),
{
    get_float(host, ask2(HostOp::Arith(op), Value::F64(x), Value::F64(y)))
}

/// The sample standard deviation from the moments of `n > 1` values:
/// the root of `(Σx² − Σx·mean) / (n − 1)`.
pub open spec fn deviation(m: Moments, n: int, log: Log) -> Result<F64, Query> {
    match op2(ArithOp::Div, m.sum, float_of(n), log) {
        Err(e) => Err(e),
        Ok(mean) => match op2(ArithOp::Mul, m.sum, mean, log) {
            Err(e) => Err(e),
            Ok(t) => match op2(ArithOp::Sub, m.sum_sq, t, log) {
                Err(e) => Err(e),
                Ok(u) => match op2(ArithOp::Sub, float_of(n), float_of(1), log) {
                    Err(e) => Err(e),
                    Ok(k) => match op2(ArithOp::Div, u, k, log) {
                        Err(e) => Err(e),
                        Ok(v) => float_answer(
                            log,
                            Query { op: HostOp::Sqrt, args: seq![Datum::F64(v)] },
                        ),
                    },
                },
            },
        },
    }
}

fn std_deviation(m: Moments, n: i64, host: &Answers) -> (r: Result<F64, Ask>)
    ensures
        agree(r, deviation(m, n as int, host@), |a, b| a == b),
{
    let fl: F64 = float_from(n as i128);
    match ask_op2(ArithOp::Div, m.sum, fl, host) {
        Err(e) => Err(e),
        Ok(mean) => match ask_op2(ArithOp::Mul, m.sum, mean, host) {
            Err(e) => Err(e),
            Ok(t) => match ask_op2(ArithOp::Sub, m.sum_sq, t, host) {
                Err(e) => Err(e),
                Ok(u) => match ask_op2(ArithOp::Sub, fl, float_from(1), host) {
                    Err(e) => Err(e),
                    Ok(k) => match ask_op2(ArithOp::Div, u, k, host) {
                        Err(e) => Err(e),
                        Ok(v) => get_float(host, ask1(HostOp::Sqrt, Value::F64(v))),
                    },
                },
            },
        },
    }
}

/// The doubles of numeric values, in order.
pub open spec fn doubles(vals: Seq<Datum>, n: nat, log: Log) -> Result<Seq<F64>, Query>
    decreases n,
{
    if n == 0 {
        Ok(Seq::empty())
    } else {
        match doubles(vals, (n - 1) as nat, log) {
            Err(e) => Err(e),
            Ok(s) => match numeric(vals[n - 1], log) {
                Err(e) => Err(e),
                Ok(Some(x)) => Ok(s.push(x)),
                Ok(None) => Ok(s),
            },
        }
    }
}

proof fn lemma_doubles_stop(vals: Seq<Datum>, n: nat, m: nat, log: Log)
    requires
        n <= m,
        doubles(vals, n, log) is Err,
    ensures
        doubles(vals, m, log) == doubles(vals, n, log),
    decreases m - n,
{
    if n < m {
        lemma_doubles_stop(vals, n, (m - 1) as nat, log);
    }
}

fn to_doubles(vals: &Vec<Value>, host: &Answers) -> (r: Result<Vec<F64>, Ask>)
    ensures
        agree(
            r,
            doubles(data(vals@), vals@.len(), host@),
            |a: Vec<F64>, b: Seq<F64>| a@ == b,
        ),
{
    let ghost d = data(vals@);
    let mut out: Vec<F64> = Vec::new();
    for i in 0..vals.len()
        invariant
            d == data(vals@),
            doubles(d, i as nat, host@) == Ok::<Seq<F64>, Query>(out@),
    {
        assert(d[i as int] == vals@[i as int]@);
        match as_float(&vals[i], host) {
            Err(e) => {
                proof {
                    lemma_doubles_stop(d, (i + 1) as nat, d.len(), host@);
                }
                return Err(e);
            },
            Ok(Some(x)) => {
                out.push(x);
            },
            Ok(None) => {},
        }
    }
    Ok(out)
}

/// A sequence of doubles with `x` put in its place behind all that are not
/// above it.
pub open spec fn insert_sorted(s: Seq<F64>, x: F64) -> Seq<F64>
    decreases s.len(),
{
    if s.len() == 0 || s.last().key() <= x.key() {
        s.push(x)
    } else {
        insert_sorted(s.drop_last(), x).push(s.last())
    }
}

/// The doubles in ascending order.
pub open spec fn sorted_doubles(s: Seq<F64>) -> Seq<F64>
    decreases s.len(),
{
    if s.len() == 0 {
        s
    } else {
        insert_sorted(sorted_doubles(s.drop_last()), s.last())
    }
}

proof fn lemma_insert_sorted(s: Seq<F64>, x: F64)
    requires
        forall|i: int, j: int| 0 <= i <= j < s.len() ==> s[i].key() <= s[j].key(),
    ensures
        ({
            let t = insert_sorted(s, x);
            &&& t.len() == s.len() + 1
            &&& forall|i: int, j: int| 0 <= i <= j < t.len() ==> t[i].key() <= t[j].key()
            &&& t.to_multiset() == s.to_multiset().insert(x)
            &&& t.last().key() == (if s.len() > 0 && s.last().key() > x.key() {
                s.last().key()
            } else {
                x.key()
            })
        }),
    decreases s.len(),
{
    broadcast use vstd::seq_lib::group_to_multiset_ensures;

    if s.len() == 0 || s.last().key() <= x.key() {
    } else {
        lemma_insert_sorted(s.drop_last(), x);
        let u = insert_sorted(s.drop_last(), x);
        assert(s =~= s.drop_last().push(s.last()));
        assert(u.push(s.last()).to_multiset() =~= s.to_multiset().insert(x));
    }
}

/// Sorting puts the same doubles into ascending order.
pub proof fn lemma_sorted_doubles(s: Seq<F64>)
    ensures
        ({
            let t = sorted_doubles(s);
            &&& t.len() == s.len()
            &&& forall|i: int, j: int| 0 <= i <= j < t.len() ==> t[i].key() <= t[j].key()
            &&& t.to_multiset() == s.to_multiset()
        }),
    decreases s.len(),
{
    broadcast use vstd::seq_lib::group_to_multiset_ensures;

    if s.len() > 0 {
        lemma_sorted_doubles(s.drop_last());
        lemma_insert_sorted(sorted_doubles(s.drop_last()), s.last());
        assert(s =~= s.drop_last().push(s.last()));
    }
}

fn insert_in_order(v: &mut Vec<F64>, x: F64)
    ensures
        final(v)@ == insert_sorted(old(v)@, x),
{
    let ghost s = v@;
    let mut at: usize = v.len();
    assert(s.take(s.len() as int) =~= s);
    let ghost tail = Seq::<F64>::empty();
    assert(insert_sorted(s, x) =~= insert_sorted(s.take(at as int), x) + s.skip(at as int));
    while at > 0 && v[at - 1].position() > x.position()
        invariant
            v@ == s,
            at <= s.len(),
            insert_sorted(s, x) == insert_sorted(s.take(at as int), x) + s.skip(at as int),
        decreases at,
    {
        let ghost k = at as int;
        proof {
            assert(s.take(k).drop_last() =~= s.take(k - 1));
            assert(insert_sorted(s.take(k), x) == insert_sorted(s.take(k - 1), x).push(s[k - 1]));
            assert(insert_sorted(s.take(k - 1), x).push(s[k - 1]) + s.skip(k) =~= insert_sorted(
                s.take(k - 1),
                x,
            ) + s.skip(k - 1));
        }
        at -= 1;
    }
    v.insert(at, x);
    proof {
        let k = at as int;
        assert(insert_sorted(s.take(k), x) == s.take(k).push(x));
        assert(v@ =~= s.take(k).push(x) + s.skip(k));
    }
}

fn sort_doubles(v: &Vec<F64>) -> (r: Vec<F64>)
    ensures
        r@ == sorted_doubles(v@),
{
    let mut r: Vec<F64> = Vec::new();
    assert(v@.take(0) =~= Seq::empty());
    for i in 0..v.len()
        invariant
            r@ == sorted_doubles(v@.take(i as int)),
    {
        assert(v@.take(i + 1).drop_last() =~= v@.take(i as int));
        insert_in_order(&mut r, v[i]);
    }
    assert(v@.take(v@.len() as int) =~= v@);
    r
}

/// The order statistics at `rank` and the next whole rank above it, joined in
/// the proportion of the rank's fraction.
pub open spec fn interpolated(v: Seq<F64>, rank: F64, log: Log) -> Result<F64, Query> {
    let top = v.len() - 1;
    let lo = index_at(truncated(rank), top);
    match float_answer(log, Query { op: HostOp::Ceil, args: seq![Datum::F64(rank)] }) {
        Err(e) => Err(e),
        Ok(c) => {
            let hi = index_at(truncated(c), top);
            match op2(ArithOp::Sub, rank, float_of(truncated(rank)), log) {
                Err(e) => Err(e),
                Ok(frac) => match op2(ArithOp::Sub, v[hi], v[lo], log) {
                    Err(e) => Err(e),
                    Ok(d) => match op2(ArithOp::Mul, d, frac, log) {
                        Err(e) => Err(e),
                        Ok(t) => op2(ArithOp::Add, v[lo], t, log),
                    },
                },
            }
        },
    }
}

/// A rank as an index that is never out of range.
pub open spec fn index_at(n: int, top: int) -> int {
    if n < 0 {
        0
    } else if n > top {
        top
    } else {
        n
    }
}

/// The percentile `p` of values, interpolated linearly between the two nearest
/// order statistics; 0 for no values.
pub open spec fn percentile_of(vals: Seq<F64>, p: u8, log: Log) -> Result<F64, Query> {
    let v = sorted_doubles(vals);
    if v.len() == 0 {
        Ok(F64 { bits: 0 })
    } else if v.len() == 1 {
        Ok(v[0])
    } else {
        match op2(ArithOp::Div, float_of(p as int), float_of(100), log) {
            Err(e) => Err(e),
            Ok(q) => match op2(ArithOp::Mul, q, float_of(v.len() - 1), log) {
                Err(e) => Err(e),
                Ok(rank) => interpolated(v, rank, log),
            },
        }
    }
}

fn clamp_index(n: i64, top: usize) -> (r: usize)
    ensures
        r == index_at(n as int, top as int),
        r <= top,
{
    if n < 0 {
        0
    } else if n as u64 > top as u64 {
        top
    } else {
        n as usize
    }
}

fn interpolate(v: &Vec<F64>, rank: F64, host: &Answers) -> (r: Result<F64, Ask>)
    requires
        v@.len() > 0,
    ensures
        agree(r, interpolated(v@, rank, host@), |a, b| a == b),
{
    let top: usize = v.len() - 1;
    let floor: i64 = truncate(rank);
    let lo: usize = clamp_index(floor, top);
    match get_float(host, ask1(HostOp::Ceil, Value::F64(rank))) {
        Err(e) => Err(e),
        Ok(c) => {
            let hi: usize = clamp_index(truncate(c), top);
            match ask_op2(ArithOp::Sub, rank, float_from(floor as i128), host) {
                Err(e) => Err(e),
                Ok(frac) => match ask_op2(ArithOp::Sub, v[hi], v[lo], host) {
                    Err(e) => Err(e),
                    Ok(d) => match ask_op2(ArithOp::Mul, d, frac, host) {
                        Err(e) => Err(e),
                        Ok(t) => ask_op2(ArithOp::Add, v[lo], t, host),
                    },
                },
            }
        },
    }
}

/// The percentile of values (see [`percentile_of`]).
pub fn percentile(vals: &Vec<F64>, p: u8, host: &Answers) -> (r: Result<F64, Ask>)
    ensures
        agree(r, percentile_of(vals@, p, host@), |a, b| a == b),
{
    let v: Vec<F64> = sort_doubles(vals);
    if v.len() == 0 {
        return Ok(F64 { bits: 0 });
    }
    if v.len() == 1 {
        return Ok(v[0]);
    }
    match ask_op2(ArithOp::Div, float_from(p as i128), float_from(100), host) {
        Err(e) => Err(e),
        Ok(q) => match ask_op2(ArithOp::Mul, q, float_from((v.len() - 1) as i128), host) {
            Err(e) => Err(e),
            Ok(rank) => interpolate(&v, rank, host),
        },
    }
}

impl Acc {
    /// The double-precision result; 0 for an empty group.
    pub open spec fn number(self, log: Log) -> Result<F64, Query> {
        match self.func {
            AggFunc::Pct(p) => match doubles(self.pending, self.pending.len(), log) {
                Err(e) => Err(e),
                Ok(s) => percentile_of(s, p, log),
            },
            _ => match self.settled(log) {
                Err(e) => Err(e),
                Ok(m) => match self.func {
                    AggFunc::Sum => Ok(m.sum),
                    AggFunc::Avg => if self.n > 0 {
                        op2(ArithOp::Div, m.sum, float_of(self.n), log)
                    } else {
                        Ok(F64 { bits: 0 })
                    },
                    AggFunc::Min => if self.n > 0 {
                        Ok(m.min)
                    } else {
                        Ok(F64 { bits: 0 })
                    },
                    AggFunc::Max => if self.n > 0 {
                        Ok(m.max)
                    } else {
                        Ok(F64 { bits: 0 })
                    },
                    AggFunc::Std => if self.n > 1 {
                        deviation(m, self.n, log)
                    } else {
                        Ok(F64 { bits: 0 })
                    },
                    _ => Ok(F64 { bits: 0 }),
                },
            },
        }
    }
}

impl AggAcc {
    /// The double-precision result (see [`Acc::number`]).
    pub fn num_value(&self, host: &Answers) -> (r: Result<F64, Ask>)
        ensures
            agree(r, self@.number(host@), |a, b| a == b),
    {
        if let AggFunc::Pct(p) = self.func {
            return match to_doubles(&self.pending, host) {
                Err(e) => Err(e),
                Ok(v) => percentile(&v, p, host),
            };
        }
        let m: Moments = match self.settle(host) {
            Err(e) => {
                return Err(e);
            },
            Ok(m) => m,
        };
        let zero: F64 = F64 { bits: 0 };
        match self.func {
            AggFunc::Sum => Ok(m.sum),
            AggFunc::Avg => if self.n > 0 {
                ask_op2(ArithOp::Div, m.sum, float_from(self.n as i128), host)
            } else {
                Ok(zero)
            },
            AggFunc::Min => if self.n > 0 {
                Ok(m.min)
            } else {
                Ok(zero)
            },
            AggFunc::Max => if self.n > 0 {
                Ok(m.max)
            } else {
                Ok(zero)
            },
            AggFunc::Std => if self.n > 1 {
                std_deviation(m, self.n, host)
            } else {
                Ok(zero)
            },
            _ => Ok(zero),
        }
    }
}

// ---------------------------------------------------------------- laws

/// One observation: a value and its text.
pub type Item = (Datum, Seq<char>);

/// The aggregate of a run of observations in one pass.
pub open spec fn one_pass(func: AggFunc, items: Seq<Item>) -> Acc
    decreases items.len(),
{
    if items.len() == 0 {
        Acc::empty(func)
    } else {
        one_pass(func, items.drop_last()).with(items.last().0, items.last().1)
    }
}

/// Every decimal among the observations has the scale `s`.
pub open spec fn one_scale(items: Seq<Item>, s: u8) -> bool {
    forall|i: int|
        0 <= i < items.len() ==> ((#[trigger] items[i]).0 matches Datum::Dec(d) ==> d.scale == s)
}

/// The sum of the unscaled decimals among the observations.
pub open spec fn dec_total(items: Seq<Item>) -> int
    decreases items.len(),
{
    if items.len() == 0 {
        0
    } else {
        dec_total(items.drop_last()) + (match items.last().0 {
            Datum::Dec(d) => d.unscaled as int,
            _ => 0,
        })
    }
}

/// No partial sum of the decimals, started from `base`, leaves 128 bits.
pub open spec fn sums_fit(base: int, items: Seq<Item>) -> bool {
    forall|n: int| 0 <= n <= items.len() ==> fits_i128(base + dec_total(#[trigger] items.take(n)))
}

proof fn lemma_sums_fit_prefix(base: int, items: Seq<Item>)
    requires
        sums_fit(base, items),
        items.len() > 0,
    ensures
        sums_fit(base, items.drop_last()),
        fits_i128(base + dec_total(items)),
{
    let up = items.drop_last();
    assert forall|n: int| 0 <= n <= up.len() implies fits_i128(
        base + dec_total(#[trigger] up.take(n)),
    ) by {
        assert(up.take(n) =~= items.take(n));
    }
    assert(items.take(items.len() as int) =~= items);
}

proof fn lemma_same_scale(d: Datum, s: u8)
    ensures
        d matches Datum::Dec(x) ==> (x.scale == s ==> at_scale(x, s) == Some(x.unscaled)),
{
    if let Datum::Dec(x) = d {
        if x.scale == s {
            assert(ten_to(0) == 1);
            assert(rescaled(x, s as nat) == x.unscaled * 1);
        }
    }
}

/// What the exact decimal lane holds after one pass.
proof fn lemma_dec_lane(func: AggFunc, items: Seq<Item>, s: u8)
    requires
        one_scale(items, s),
        sums_fit(0, items),
    ensures
        ({
            let l = one_pass(func, items).dec;
            &&& !l.overflow
            &&& l.scale is Some ==> l.scale == Some(s)
            &&& l.sum == dec_total(items) || l.scale is None
            &&& l.scale is None ==> l == DecLane::empty()
            &&& !(func is Sum || func is Avg || func is Min || func is Max || func is Std) ==> l
                == DecLane::empty()
            &&& (func is Sum || func is Avg || func is Min || func is Max || func is Std)
                && l.scale is None ==> dec_total(items) == 0
        }),
    decreases items.len(),
{
    if items.len() > 0 {
        lemma_sums_fit_prefix(0, items);
        let up = items.drop_last();
        assert(one_scale(up, s)) by {
            assert forall|i: int| 0 <= i < up.len() implies ((#[trigger] up[i]).0 matches Datum::Dec(
                d,
            ) ==> d.scale == s) by {
                assert(up[i] == items[i]);
            }
        }
        lemma_dec_lane(func, up, s);
        lemma_count_nonneg(func, up);
        assert(items.last() == items[items.len() - 1]);
        lemma_same_scale(items.last().0, s);
    }
}

/// The exact part of an aggregate: everything but the double-precision moments
/// and the values waiting to enter them.
pub open spec fn same_exact(a: Acc, b: Acc) -> bool {
    &&& a.func == b.func
    &&& a.n == b.n
    &&& a.dec == b.dec
    &&& a.dt == b.dt
    &&& a.first == b.first
    &&& a.last == b.last
    &&& a.distinct == b.distinct
    &&& a.func is Pct ==> a.pending == b.pending
}

proof fn lemma_count_nonneg(func: AggFunc, items: Seq<Item>)
    ensures
        0 <= one_pass(func, items).n <= i64::MAX,
        one_pass(func, items).func == func,
        one_pass(func, items).dt.unit is None ==> one_pass(func, items).dt == DtLane::empty(),
    decreases items.len(),
{
    if items.len() > 0 {
        lemma_count_nonneg(func, items.drop_last());
    }
}

/// Aggregating two runs of rows apart and merging them in order gives the same
/// exact lanes as one pass over both: counts, decimal sums and extremes,
/// instants, first and last texts, distinct texts and percentile values. The
/// decimals share one scale, and no partial sum leaves 128 bits.
pub proof fn lemma_merge_is_one_pass(func: AggFunc, x: Seq<Item>, y: Seq<Item>, s: u8, log: Log)
    requires
        one_scale(x, s),
        one_scale(y, s),
        sums_fit(0, x),
        sums_fit(0, y),
        sums_fit(dec_total(x), y),
    ensures
        one_pass(func, x).join(one_pass(func, y), log) matches Ok(m) ==> same_exact(
            m,
            one_pass(func, x + y),
        ),
{
    lemma_merge_parts(func, x, y, s);
}

/// The exact lanes of two merged runs, without the host's part.
pub open spec fn exact_join(a: Acc, o: Acc) -> Acc {
    Acc {
        func: a.func,
        n: sat_add(a.n, o.n),
        moments: a.moments,
        pending: if a.func is Pct {
            a.pending + o.pending
        } else {
            Seq::empty()
        },
        dec: a.dec.join(o.dec),
        dt: a.dt.join(o.dt),
        first: if a.first is Some {
            a.first
        } else {
            o.first
        },
        last: if o.last is Some {
            o.last
        } else {
            a.last
        },
        distinct: a.distinct.union(o.distinct),
    }
}

/// Merging keeps the exact lanes of one pass (see [`lemma_merge_is_one_pass`]).
#[verifier::spinoff_prover]
#[verifier::rlimit(60)]
pub proof fn lemma_merge_parts(func: AggFunc, x: Seq<Item>, y: Seq<Item>, s: u8)
    requires
        one_scale(x, s),
        one_scale(y, s),
        sums_fit(0, x),
        sums_fit(0, y),
        sums_fit(dec_total(x), y),
    ensures
        same_exact(exact_join(one_pass(func, x), one_pass(func, y)), one_pass(func, x + y)),
    decreases y.len(),
{
    let a = one_pass(func, x);
    lemma_count_nonneg(func, x);
    lemma_count_nonneg(func, y);
    lemma_dec_lane(func, x, s);
    lemma_dec_lane(func, y, s);
    if y.len() == 0 {
        assert(x + y =~= x);
        assert(a.distinct.union(Set::empty()) =~= a.distinct);
        assert(a.pending + Seq::<Datum>::empty() =~= a.pending);
    } else {
        let up = y.drop_last();
        lemma_sums_fit_prefix(0, y);
        lemma_sums_fit_prefix(dec_total(x), y);
        assert(one_scale(up, s)) by {
            assert forall|i: int| 0 <= i < up.len() implies ((#[trigger] up[i]).0 matches Datum::Dec(
                d,
            ) ==> d.scale == s) by {
                assert(up[i] == y[i]);
            }
        }
        lemma_merge_parts(func, x, up, s);
        lemma_dec_lane(func, up, s);
        lemma_count_nonneg(func, up);
        assert((x + y).drop_last() =~= x + up);
        assert((x + y).last() == y.last());
        assert(y.last() == y[y.len() - 1]);
        let b = one_pass(func, up);
        let d = y.last().0;
        let t = y.last().1;
        lemma_same_scale(d, s);
        assert(a.distinct.union(b.distinct.insert(t)) =~= a.distinct.union(b.distinct).insert(t));
        assert(a.pending + b.pending.push(d) =~= (a.pending + b.pending).push(d));
    }
}

// --------------------------------------------------------------- extremes

/// The two aggregates have the same least and the same greatest double.
pub open spec fn same_extremes(a: Acc, b: Acc, log: Log) -> bool {
    a.extremes(log) == b.extremes(log)
}

proof fn lemma_least_below(a: F64, xs: Seq<F64>)
    requires
        !a.is_nan(),
    ensures
        !least_of(a, xs).is_nan(),
        least_of(a, xs).key() <= a.key(),
        !greatest_of(a, xs).is_nan(),
        greatest_of(a, xs).key() >= a.key(),
    decreases xs.len(),
{
    if xs.len() > 0 {
        lemma_least_below(a, xs.drop_last());
    }
}

/// The extremes of two runs of doubles are those of the extremes of each.
proof fn lemma_extremes_split(a: F64, xs: Seq<F64>, ys: Seq<F64>)
    requires
        !a.is_nan(),
    ensures
        least_of(a, xs + ys) == least(least_of(a, xs), least_of(a, ys)),
        greatest_of(a, xs + ys) == greatest(greatest_of(a, xs), greatest_of(a, ys)),
    decreases ys.len(),
{
    lemma_least_below(a, xs);
    if ys.len() == 0 {
        assert(xs + ys =~= xs);
    } else {
        let up = ys.drop_last();
        assert((xs + ys).drop_last() =~= xs + up);
        assert((xs + ys).last() == ys.last());
        lemma_extremes_split(a, xs, up);
        lemma_least_below(a, up);
    }
}

proof fn lemma_doubles_append(x: Seq<Datum>, y: Seq<Datum>, n: nat, log: Log)
    requires
        n <= y.len(),
        doubles(x, x.len(), log) is Ok,
        doubles(y, n, log) is Ok,
    ensures
        doubles(x + y, x.len() + n, log) == Ok::<Seq<F64>, Query>(
            doubles(x, x.len(), log)->Ok_0 + doubles(y, n, log)->Ok_0,
        ),
    decreases n,
{
    let a = doubles(x, x.len(), log)->Ok_0;
    if n == 0 {
        lemma_doubles_prefix(x, y, x.len(), log);
        assert(a + Seq::<F64>::empty() =~= a);
    } else {
        lemma_doubles_append(x, y, (n - 1) as nat, log);
        assert((x + y)[x.len() + n - 1] == y[n - 1]);
        let b = doubles(y, (n - 1) as nat, log)->Ok_0;
        assert forall|d: F64| (a + b).push(d) == #[trigger] (a + b.push(d)) by {
            assert((a + b).push(d) =~= a + b.push(d));
        }
    }
}

proof fn lemma_doubles_prefix(x: Seq<Datum>, y: Seq<Datum>, n: nat, log: Log)
    requires
        n <= x.len(),
    ensures
        doubles(x + y, n, log) == doubles(x, n, log),
    decreases n,
{
    if n > 0 {
        lemma_doubles_prefix(x, y, (n - 1) as nat, log);
        assert((x + y)[n - 1] == x[n - 1]);
    }
}

/// One pass notes the numbers of one run and then those of the other.
pub proof fn lemma_pass_parts(func: AggFunc, x: Seq<Item>, y: Seq<Item>)
    ensures
        one_pass(func, x).func == func,
        one_pass(func, x).moments == Moments::empty(),
        one_pass(func, x + y).pending == one_pass(func, x).pending + one_pass(func, y).pending,
    decreases x.len() + y.len(),
{
    if y.len() == 0 {
        assert(x + y =~= x);
        assert(one_pass(func, x).pending + Seq::<Datum>::empty() =~= one_pass(func, x).pending);
        if x.len() > 0 {
            lemma_pass_parts(func, x.drop_last(), y);
        }
    } else {
        let up = y.drop_last();
        assert((x + y).drop_last() =~= x + up);
        assert((x + y).last() == y.last());
        lemma_pass_parts(func, x, up);
        lemma_pass_parts(func, x + up, Seq::empty());
        lemma_pass_parts(func, up, Seq::empty());
        let d = y.last().0;
        let (a, b) = (one_pass(func, x).pending, one_pass(func, up).pending);
        assert(a + b.push(d) =~= (a + b).push(d));
    }
}

/// What is settled has the extremes.
pub proof fn lemma_settled_extremes(a: Acc, log: Log)
    ensures
        a.settled(log) matches Ok(m) ==> a.extremes(log) == Ok::<(F64, F64), Query>((m.min, m.max)),
{
    assert(doubles(a.pending, 0, log) == Ok::<Seq<F64>, Query>(Seq::empty()));
}

/// Merging keeps the least and the greatest double: an aggregate that has the
/// extremes of a run of rows, joined with that of a later run, has those of one
/// pass over both, in the order of doubles that passes over not-a-number.
pub proof fn lemma_extremes_merge(m: Acc, func: AggFunc, x: Seq<Item>, y: Seq<Item>, log: Log)
    requires
        m.func == func,
        same_extremes(m, one_pass(func, x), log),
    ensures
        m.join(one_pass(func, y), log) matches Ok(z) ==> same_extremes(z, one_pass(func, x + y), log),
{
    let (a, b) = (one_pass(func, x), one_pass(func, y));
    lemma_pass_parts(func, x, y);
    lemma_pass_parts(func, y, Seq::empty());
    lemma_pass_parts(func, x + y, Seq::empty());
    if let Ok(z) = m.join(b, log) {
        lemma_settled_extremes(m, log);
        lemma_settled_extremes(b, log);
        lemma_settled_extremes(z, log);
        let (lo, hi) = (Moments::empty().min, Moments::empty().max);
        if !(func is Pct) {
            lemma_doubles_append(a.pending, b.pending, b.pending.len(), log);
            let p = doubles(a.pending, a.pending.len(), log)->Ok_0;
            let q = doubles(b.pending, b.pending.len(), log)->Ok_0;
            lemma_extremes_split(lo, p, q);
            lemma_extremes_split(hi, p, q);
        }
    }
}

/// The least or the greatest number is one of the extremes.
proof fn lemma_extreme_number(a: Acc, log: Log)
    requires
        a.func is Min || a.func is Max,
    ensures
        a.number(log) == match a.extremes(log) {
            Err(e) => Err::<F64, Query>(e),
            Ok((lo, hi)) => Ok(
                if a.n <= 0 {
                    F64 { bits: 0 }
                } else if a.func is Min {
                    lo
                } else {
                    hi
                },
            ),
        },
{
    assert(doubles(a.pending, 0, log) == Ok::<Seq<F64>, Query>(Seq::empty()));
}

/// The least and the greatest number of two merged runs are those of one pass over
/// both.
pub proof fn lemma_least_number_merges(func: AggFunc, x: Seq<Item>, y: Seq<Item>, log: Log)
    requires
        func is Min || func is Max,
    ensures
        one_pass(func, x).join(one_pass(func, y), log) matches Ok(z) ==> z.number(log) == one_pass(
            func,
            x + y,
        ).number(log),
{
    let (a, b, w) = (one_pass(func, x), one_pass(func, y), one_pass(func, x + y));
    lemma_count_nonneg(func, x);
    lemma_count_nonneg(func, x + y);
    lemma_extremes_merge(a, func, x, y, log);
    lemma_counts_add(func, x, y);
    lemma_extreme_number(w, log);
    if let Ok(z) = a.join(b, log) {
        assert(z.func == func && z.n == w.n);
        lemma_extreme_number(z, log);
    }
}

/// Aggregates alike in their exact lanes report the same exact results.
pub proof fn lemma_exact_reports(z: Acc, w: Acc, log: Log)
    requires
        same_exact(z, w),
    ensures
        z.decimal() == w.decimal(),
        z.instant() == w.instant(),
        z.distinct.len() == w.distinct.len(),
        w.func is Pct ==> z.number(log) == w.number(log),
{
}

/// Aggregates alike in their exact lanes and their extremes report the same number,
/// but for sums of doubles.
pub proof fn lemma_same_number(z: Acc, w: Acc, log: Log)
    requires
        same_exact(z, w),
        same_extremes(z, w, log),
        w.func is Min || w.func is Max || w.func is Pct,
    ensures
        z.number(log) == w.number(log),
{
    if w.func is Pct {
        lemma_exact_reports(z, w, log);
    } else {
        lemma_extreme_number(z, log);
        lemma_extreme_number(w, log);
    }
}

/// What two merged runs report is what one pass over both reports: the exact
/// decimal, the instant, the number of different texts, the first and the last
/// text, and, but for sums of doubles, the number.
#[verifier::spinoff_prover]
#[verifier::rlimit(40)]
pub proof fn lemma_merge_reports(func: AggFunc, x: Seq<Item>, y: Seq<Item>, s: u8, log: Log)
    requires
        one_scale(x, s),
        one_scale(y, s),
        sums_fit(0, x),
        sums_fit(0, y),
        sums_fit(dec_total(x), y),
    ensures
        one_pass(func, x).join(one_pass(func, y), log) matches Ok(z) ==> ({
            let w = one_pass(func, x + y);
            &&& z.decimal() == w.decimal()
            &&& z.instant() == w.instant()
            &&& z.distinct.len() == w.distinct.len()
            &&& z.first == w.first
            &&& z.last == w.last
            &&& func is Min || func is Max || func is Pct ==> z.number(log) == w.number(log)
        }),
{
    let (a, b, w) = (one_pass(func, x), one_pass(func, y), one_pass(func, x + y));
    lemma_count_nonneg(func, x + y);
    lemma_merge_is_one_pass(func, x, y, s, log);
    if func is Min || func is Max {
        lemma_least_number_merges(func, x, y, log);
    }
    let joined = a.join(b, log);
    if let Ok(z) = joined {
        lemma_exact_reports(z, w, log);
    }
}

proof fn lemma_counts_add(func: AggFunc, x: Seq<Item>, y: Seq<Item>)
    ensures
        one_pass(func, x + y).n == sat_add(one_pass(func, x).n, one_pass(func, y).n),
    decreases y.len(),
{
    lemma_count_nonneg(func, x);
    lemma_count_nonneg(func, y);
    if y.len() == 0 {
        assert(x + y =~= x);
    } else {
        let up = y.drop_last();
        assert((x + y).drop_last() =~= x + up);
        assert((x + y).last() == y.last());
        lemma_counts_add(func, x, up);
        lemma_count_nonneg(func, up);
        lemma_count_nonneg(func, x + up);
    }
}

} // verus!
