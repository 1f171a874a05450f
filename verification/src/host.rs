//! What the library leaves to its host.
//!
//! Floating-point arithmetic, the calendar and the printed form of doubles,
//! decimals and times are computed outside of the library. A function that
//! needs such a result looks it up among the [`Answers`] it was handed; where
//! the answer is missing it returns the [`Ask`], the host computes it, adds it
//! to the answers and calls again. What is asked, and what becomes of every
//! possible answer, is part of each function's contract.
use vstd::prelude::*;
use crate::expr::ArithOp;
use crate::float::F64;
use crate::value::{data, DataType, Datum, TimeUnit, Value};

verus! {

/// A computation of the host.
#[derive(Clone, Copy, Debug, PartialEq, Eq, Structural)]
pub enum HostOp {
    /// IEEE arithmetic on two doubles: a double.
    Arith(ArithOp),
    /// A double rounded half away from zero: a double.
    Round,
    /// The largest integral double not above: a double.
    Floor,
    /// The smallest integral double not below: a double.
    Ceil,
    /// A decimal as a double.
    DecFloat,
    /// A double as a decimal of the given scale, ties to even.
    FloatDec { scale: u8 },
    /// A text read as a double: a double, or null where it is none.
    ParseFloat,
    /// A value's printed form: a text.
    Render,
    /// A text read as an instant: its ticks, or null.
    ParseDateTime { unit: TimeUnit },
    /// A text read as an interval: its ticks, or null.
    ParseInterval { unit: TimeUnit },
    /// A text read as a span: its ticks, or null.
    ParseDuration { unit: TimeUnit },
    /// A text read as a calendar date: its day number, or null.
    ParseDate,
    /// A text read as a time of day: its ticks, or null.
    ParseTime { unit: TimeUnit },
    /// One calendar field of an instant (0 year, 1 month, 2 day, 3 hour, 4
    /// minute, 5 second): an integer.
    Field { which: u8 },
    /// The calendar date of an instant: a date.
    DateOf,
    /// An instant truncated to a named boundary: its ticks.
    Truncate,
    /// An instant moved to the start of its bucket: its ticks, or null.
    Bucket,
    /// The starts of the sliding windows around an instant: a list of ticks, or
    /// null.
    Hops,
    /// An instant printed by a format: a text.
    FormatDateTime,
    /// A span in ISO 8601 form: a text.
    Iso,
    /// A span in human form: a text.
    Human,
    /// The weekday of a date, Monday 0: an integer.
    Weekday,
    /// Are two nested values equal: a boolean.
    Alike,
    /// A running sum and a running sum of squares carried on over a list of
    /// doubles, one after the other: two doubles.
    Sums,
    /// The square root of a double, taken as 0 where it is below 0: a double.
    Sqrt,
    /// A list of texts as it is shown in a message: a text.
    Listed,
    /// A double in its shortest decimal form: a text.
    FloatText,
    /// A single-precision bit pattern, given as an integer, widened: a double.
    Widen,
    /// The printed name of a column type: a text.
    TypeName { ty: DataType },
}

/// A question to the host.
#[derive(Debug)]
pub struct Ask {
    pub op: HostOp,
    pub args: Vec<Value>,
}

/// What an [`Ask`] asks.
pub struct Query {
    pub op: HostOp,
    pub args: Seq<Datum>,
}

impl Ask {
    /// The question.
    pub open spec fn view(&self) -> Query {
        Query { op: self.op, args: data(self.args@) }
    }

    /// Do the two ask the same?
    pub fn same(&self, other: &Ask) -> (r: bool)
        ensures
            r == (self@ == other@),
    {
        if self.op != other.op || self.args.len() != other.args.len() {
            assert(self@.args.len() == self.args@.len());
            assert(other@.args.len() == other.args@.len());
            return false;
        }
        for i in 0..self.args.len()
            invariant
                self.args@.len() == other.args@.len(),
                forall|k: int| 0 <= k < i ==> (#[trigger] self.args@[k])@ == other.args@[k]@,
        {
            if !self.args[i].same(&other.args[i]) {
                assert(self@.args[i as int] != other@.args[i as int]);
                return false;
            }
        }
        assert(self@.args =~= other@.args);
        true
    }
}

/// A question of one argument.
pub fn ask1(op: HostOp, a: Value) -> (r: Ask)
    ensures
        r@ == (Query { op, args: seq![a@] }),
{
    let mut args: Vec<Value> = Vec::new();
    args.push(a);
    let r = Ask { op, args };
    assert(r@.args =~= seq![a@]);
    r
}

/// A question of two arguments.
pub fn ask2(op: HostOp, a: Value, b: Value) -> (r: Ask)
    ensures
        r@ == (Query { op, args: seq![a@, b@] }),
{
    let mut args: Vec<Value> = Vec::new();
    args.push(a);
    args.push(b);
    let r = Ask { op, args };
    assert(r@.args =~= seq![a@, b@]);
    r
}

/// A question of three arguments.
pub fn ask3(op: HostOp, a: Value, b: Value, c: Value) -> (r: Ask)
    ensures
        r@ == (Query { op, args: seq![a@, b@, c@] }),
{
    let mut args: Vec<Value> = Vec::new();
    args.push(a);
    args.push(b);
    args.push(c);
    let r = Ask { op, args };
    assert(r@.args =~= seq![a@, b@, c@]);
    r
}

/// Questions with their answers; the first answer to a question counts.
#[derive(Debug)]
pub struct Answers {
    pub log: Vec<(Ask, Value)>,
}

/// What a log of answers says.
pub type Log = Seq<(Query, Datum)>;

/// The answer to `q`, if there is one.
pub open spec fn answer(log: Log, q: Query) -> Option<Datum>
    decreases log.len(),
{
    if log.len() == 0 {
        None
    } else if log[0].0 == q {
        Some(log[0].1)
    } else {
        answer(log.drop_first(), q)
    }
}

/// Adding an answer at the end keeps the earlier ones.
pub proof fn lemma_answer_kept(log: Log, q: Query, extra: (Query, Datum))
    ensures
        answer(log, q) is Some ==> answer(log.push(extra), q) == answer(log, q),
        answer(log, q) is None ==> answer(log.push(extra), q) == (if extra.0 == q {
            Some(extra.1)
        } else {
            None
        }),
    decreases log.len(),
{
    if log.len() == 0 {
        assert(log.push(extra).drop_first() =~= Seq::empty());
        reveal_with_fuel(answer, 2);
    } else {
        assert(log.push(extra).drop_first() =~= log.drop_first().push(extra));
        if log[0].0 != q {
            lemma_answer_kept(log.drop_first(), q, extra);
        }
    }
}

impl Answers {
    /// What the answers say.
    pub open spec fn view(&self) -> Log {
        Seq::new(self.log@.len(), |i: int| (self.log@[i].0@, self.log@[i].1@))
    }

    /// No answers yet.
    pub fn new() -> (r: Answers)
        ensures
            r@ == Seq::<(Query, Datum)>::empty(),
    {
        let r = Answers { log: Vec::new() };
        assert(r@ =~= Seq::empty());
        r
    }

    /// Records the answer to a question.
    pub fn add(&mut self, ask: Ask, reply: Value)
        ensures
            final(self)@ == old(self)@.push((ask@, reply@)),
    {
        self.log.push((ask, reply));
        assert(self@ =~= old(self)@.push((ask@, reply@)));
    }

    /// The answer to a question, if there is one.
    pub fn lookup(&self, ask: &Ask) -> (r: Option<&Value>)
        ensures
            match r {
                Some(v) => answer(self@, ask@) == Some(v@),
                None => answer(self@, ask@) is None,
            },
    {
        assert(self@.skip(0) =~= self@);
        for i in 0..self.log.len()
            invariant
                answer(self@, ask@) == answer(self@.skip(i as int), ask@),
        {
            assert(self@.skip(i as int)[0] == self@[i as int]);
            assert(self@.skip(i as int).drop_first() =~= self@.skip(i + 1));
            if self.log[i].0.same(ask) {
                return Some(&self.log[i].1);
            }
        }
        assert(self@.skip(self.log@.len() as int) =~= Seq::empty());
        None
    }
}

// ---------------------------------------------------------------- typed answers
//
// Each reads one kind of answer. An answer of another kind counts as none, so
// the question is put again.

/// The answer as a double.
pub open spec fn float_answer(log: Log, q: Query) -> Result<F64, Query> {
    match answer(log, q) {
        Some(Datum::F64(x)) => Ok(x),
        _ => Err(q),
    }
}

/// The answer as a double.
pub fn get_float(host: &Answers, ask: Ask) -> (r: Result<F64, Ask>)
    ensures
        match r {
            Ok(x) => float_answer(host@, ask@) == Ok::<F64, Query>(x),
            Err(a) => a@ == ask@ && float_answer(host@, ask@) == Err::<F64, Query>(ask@),
        },
{
    match host.lookup(&ask) {
        Some(Value::F64(x)) => Ok(*x),
        _ => Err(ask),
    }
}

/// The answer as a double that may be missing.
pub open spec fn maybe_float_answer(log: Log, q: Query) -> Result<Option<F64>, Query> {
    match answer(log, q) {
        Some(Datum::F64(x)) => Ok(Some(x)),
        Some(Datum::Null) => Ok(None),
        _ => Err(q),
    }
}

/// The answer as a double that may be missing.
pub fn get_maybe_float(host: &Answers, ask: Ask) -> (r: Result<Option<F64>, Ask>)
    ensures
        match r {
            Ok(x) => maybe_float_answer(host@, ask@) == Ok::<Option<F64>, Query>(x),
            Err(a) => a@ == ask@ && maybe_float_answer(host@, ask@) == Err::<Option<F64>, Query>(
                ask@,
            ),
        },
{
    match host.lookup(&ask) {
        Some(Value::F64(x)) => Ok(Some(*x)),
        Some(Value::Null) => Ok(None),
        _ => Err(ask),
    }
}

/// The answer as a text.
pub open spec fn text_answer(log: Log, q: Query) -> Result<Seq<char>, Query> {
    match answer(log, q) {
        Some(Datum::Str(s)) => Ok(s),
        _ => Err(q),
    }
}

/// The answer as a text.
pub fn get_text(host: &Answers, ask: Ask) -> (r: Result<String, Ask>)
    ensures
        match r {
            Ok(s) => text_answer(host@, ask@) == Ok::<Seq<char>, Query>(s@),
            Err(a) => a@ == ask@ && text_answer(host@, ask@) == Err::<Seq<char>, Query>(ask@),
        },
{
    match host.lookup(&ask) {
        Some(Value::Str(s)) => Ok(s.clone()),
        _ => Err(ask),
    }
}

/// The answer as an integer that may be missing.
pub open spec fn ticks_answer(log: Log, q: Query) -> Result<Option<i64>, Query> {
    match answer(log, q) {
        Some(Datum::I64(x)) => Ok(Some(x)),
        Some(Datum::Null) => Ok(None),
        _ => Err(q),
    }
}

/// The answer as an integer that may be missing.
pub fn get_ticks(host: &Answers, ask: Ask) -> (r: Result<Option<i64>, Ask>)
    ensures
        match r {
            Ok(x) => ticks_answer(host@, ask@) == Ok::<Option<i64>, Query>(x),
            Err(a) => a@ == ask@ && ticks_answer(host@, ask@) == Err::<Option<i64>, Query>(ask@),
        },
{
    match host.lookup(&ask) {
        Some(Value::I64(x)) => Ok(Some(*x)),
        Some(Value::Null) => Ok(None),
        _ => Err(ask),
    }
}

/// The answer as an integer.
pub open spec fn int_answer(log: Log, q: Query) -> Result<i64, Query> {
    match answer(log, q) {
        Some(Datum::I64(x)) => Ok(x),
        _ => Err(q),
    }
}

/// The answer as an integer.
pub fn get_int(host: &Answers, ask: Ask) -> (r: Result<i64, Ask>)
    ensures
        match r {
            Ok(x) => int_answer(host@, ask@) == Ok::<i64, Query>(x),
            Err(a) => a@ == ask@ && int_answer(host@, ask@) == Err::<i64, Query>(ask@),
        },
{
    match host.lookup(&ask) {
        Some(Value::I64(x)) => Ok(*x),
        _ => Err(ask),
    }
}

/// The answer as a decimal's unscaled value.
pub open spec fn decimal_answer(log: Log, q: Query) -> Result<i128, Query> {
    match answer(log, q) {
        Some(Datum::Dec(d)) => Ok(d.unscaled),
        _ => Err(q),
    }
}

/// The answer as a decimal's unscaled value.
pub fn get_decimal(host: &Answers, ask: Ask) -> (r: Result<i128, Ask>)
    ensures
        match r {
            Ok(x) => decimal_answer(host@, ask@) == Ok::<i128, Query>(x),
            Err(a) => a@ == ask@ && decimal_answer(host@, ask@) == Err::<i128, Query>(ask@),
        },
{
    match host.lookup(&ask) {
        Some(Value::Dec(d)) => Ok(d.unscaled),
        _ => Err(ask),
    }
}

/// The answer as a boolean.
pub open spec fn bool_answer(log: Log, q: Query) -> Result<bool, Query> {
    match answer(log, q) {
        Some(Datum::Bool(b)) => Ok(b),
        _ => Err(q),
    }
}

/// The answer as a boolean.
pub fn get_bool(host: &Answers, ask: Ask) -> (r: Result<bool, Ask>)
    ensures
        match r {
            Ok(x) => bool_answer(host@, ask@) == Ok::<bool, Query>(x),
            Err(a) => a@ == ask@ && bool_answer(host@, ask@) == Err::<bool, Query>(ask@),
        },
{
    match host.lookup(&ask) {
        Some(Value::Bool(b)) => Ok(*b),
        _ => Err(ask),
    }
}

/// The answer as a list of ticks that may be missing.
pub open spec fn tick_list_answer(log: Log, q: Query) -> Result<Option<Seq<Datum>>, Query> {
    match answer(log, q) {
        Some(Datum::List(s)) => Ok(Some(s)),
        Some(Datum::Null) => Ok(None),
        _ => Err(q),
    }
}

/// The answer as a calendar date.
pub open spec fn date_answer(log: Log, q: Query) -> Result<i32, Query> {
    match answer(log, q) {
        Some(Datum::Date(d)) => Ok(d.epoch_day),
        _ => Err(q),
    }
}

/// The answer as a calendar date.
pub fn get_date(host: &Answers, ask: Ask) -> (r: Result<i32, Ask>)
    ensures
        match r {
            Ok(x) => date_answer(host@, ask@) == Ok::<i32, Query>(x),
            Err(a) => a@ == ask@ && date_answer(host@, ask@) == Err::<i32, Query>(ask@),
        },
{
    match host.lookup(&ask) {
        Some(Value::Date(d)) => Ok(d.epoch_day),
        _ => Err(ask),
    }
}

} // verus!
