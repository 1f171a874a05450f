//! Scalar functions.
//!
//! Each function is a table entry over the outcomes of its arguments; which
//! arguments are evaluated, and in which order their failures count, is part of
//! the entry.
use vstd::prelude::*;
use vstd::arithmetic::div_mod::{lemma_fundamental_div_mod, lemma_fundamental_div_mod_converse_mod};
use crate::cast::{rendered, render};
use crate::compare::{agree, as_float, numeric};
use crate::expr::Func;
use crate::float::{is_small_integer, small_integer, truncate, truncated, F64};
use crate::host::{ask1, ask2, ask3, date_answer, float_answer, get_date, get_float, get_int, get_maybe_float, get_text, get_ticks, int_answer, maybe_float_answer, text_answer, tick_list_answer, ticks_answer, Answers, Ask, HostOp, Log, Query};
use crate::pattern::{glob, glob_match, like_match, regex_outcome, regexp_match, wild};
use crate::strings::{ascii_lowered, basename, contains, dirname, ends_with, eq_ignore_ascii_case, lowercased, occurs, occurs_at, path_basename, path_dirname, path_stem, slice, slice_text, starts_with, stem, to_lower, to_upper, trim, trimmed, uppercased};
use crate::text::owned;
use crate::value::{Date, DateTime, Datum, Duration, TimeOfDay, TimeUnit, Value};

verus! {

// ---------------------------------------------------------------- coercions

/// A value as an instant: an instant as it is, a text as the host reads it, an
/// integer as epoch seconds.
pub open spec fn instant(d: Datum, log: Log) -> Result<Option<DateTime>, Query> {
    match d {
        Datum::DateTime(t) => Ok(Some(t)),
        Datum::Str(s) => match ticks_answer(
            log,
            Query {
                op: HostOp::ParseDateTime { unit: TimeUnit::Sec },
                args: seq![Datum::Str(s)],
            },
        ) {
            Ok(Some(n)) => Ok(Some(DateTime { ticks: n, unit: TimeUnit::Sec })),
            Ok(None) => Ok(None),
            Err(e) => Err(e),
        },
        Datum::I64(n) => Ok(Some(DateTime { ticks: n, unit: TimeUnit::Sec })),
        _ => Ok(None),
    }
}

/// A value as an instant (see [`instant`]).
pub fn as_datetime(v: &Value, host: &Answers) -> (r: Result<Option<DateTime>, Ask>)
    ensures
        agree(r, instant(v@, host@), |a, b| a == b),
{
    match v {
        Value::DateTime(t) => Ok(Some(*t)),
        Value::Str(s) => match get_ticks(
            host,
            ask1(HostOp::ParseDateTime { unit: TimeUnit::Sec }, Value::Str(s.clone())),
        ) {
            Ok(Some(n)) => Ok(Some(DateTime { ticks: n, unit: TimeUnit::Sec })),
            Ok(None) => Ok(None),
            Err(e) => Err(e),
        },
        Value::I64(n) => Ok(Some(DateTime { ticks: *n, unit: TimeUnit::Sec })),
        _ => Ok(None),
    }
}

/// A value as a span at a unit: a span as it is, a text as the host reads an
/// interval.
pub open spec fn span(d: Datum, unit: TimeUnit, log: Log) -> Result<Option<Duration>, Query> {
    match d {
        Datum::Duration(t) => Ok(Some(t)),
        Datum::Str(s) => match ticks_answer(
            log,
            Query { op: HostOp::ParseInterval { unit }, args: seq![Datum::Str(s)] },
        ) {
            Ok(Some(n)) => Ok(Some(Duration { ticks: n, unit })),
            Ok(None) => Ok(None),
            Err(e) => Err(e),
        },
        _ => Ok(None),
    }
}

/// A value as a span at a unit (see [`span`]).
pub fn as_duration(v: &Value, unit: TimeUnit, host: &Answers) -> (r: Result<Option<Duration>, Ask>)
    ensures
        agree(r, span(v@, unit, host@), |a, b| a == b),
{
    match v {
        Value::Duration(t) => Ok(Some(*t)),
        Value::Str(s) => match get_ticks(
            host,
            ask1(HostOp::ParseInterval { unit }, Value::Str(s.clone())),
        ) {
            Ok(Some(n)) => Ok(Some(Duration { ticks: n, unit })),
            Ok(None) => Ok(None),
            Err(e) => Err(e),
        },
        _ => Ok(None),
    }
}

/// The time-of-day part of an instant: its ticks modulo one day.
pub open spec fn day_part(t: DateTime) -> TimeOfDay {
    TimeOfDay { ticks: (t.ticks as int % (t.unit.per_sec() * 86_400)) as i64, unit: t.unit }
}

fn time_part(t: DateTime) -> (r: TimeOfDay)
    ensures
        r == day_part(t),
{
    let per_day: i128 = t.unit.per_sec() as i128 * 86_400;
    let n: i128 = t.ticks as i128;
    // the remainder of Euclidean division, by way of nonnegative operands
    let ticks: i128 = if n >= 0 {
        n % per_day
    } else {
        let m: i128 = (-n) % per_day;
        if m == 0 {
            0
        } else {
            per_day - m
        }
    };
    proof {
        let p = per_day as int;
        if n < 0 {
            let m = (-n) % p;
            let q = (-n) / p;
            lemma_fundamental_div_mod(-n as int, p);
            if m == 0 {
                assert(n == -q * p + 0) by (nonlinear_arith)
                    requires
                        -n == p * q + m,
                        m == 0,
                ;
                lemma_fundamental_div_mod_converse_mod(n as int, p, -q, 0);
            } else {
                assert(n == (-q - 1) * p + (p - m)) by (nonlinear_arith)
                    requires
                        -n == p * q + m,
                ;
                lemma_fundamental_div_mod_converse_mod(n as int, p, -q - 1, p - m);
            }
        }
    }
    assert(0 <= ticks < per_day);
    TimeOfDay { ticks: ticks as i64, unit: t.unit }
}

/// A value as a time of day: one as it is, the part of an instant, a text read
/// as a time or else as an instant.
pub open spec fn day_time(d: Datum, log: Log) -> Result<Option<TimeOfDay>, Query> {
    match d {
        Datum::Time(t) => Ok(Some(t)),
        Datum::DateTime(t) => Ok(Some(day_part(t))),
        Datum::Str(s) => match ticks_answer(
            log,
            Query { op: HostOp::ParseTime { unit: TimeUnit::Sec }, args: seq![Datum::Str(s)] },
        ) {
            Err(e) => Err(e),
            Ok(Some(n)) => Ok(Some(TimeOfDay { ticks: n, unit: TimeUnit::Sec })),
            Ok(None) => match instant(d, log) {
                Ok(Some(t)) => Ok(Some(day_part(t))),
                Ok(None) => Ok(None),
                Err(e) => Err(e),
            },
        },
        _ => Ok(None),
    }
}

/// A value as a time of day (see [`day_time`]).
pub fn as_time(v: &Value, host: &Answers) -> (r: Result<Option<TimeOfDay>, Ask>)
    ensures
        agree(r, day_time(v@, host@), |a, b| a == b),
{
    match v {
        Value::Time(t) => Ok(Some(*t)),
        Value::DateTime(t) => Ok(Some(time_part(*t))),
        Value::Str(s) => match get_ticks(
            host,
            ask1(HostOp::ParseTime { unit: TimeUnit::Sec }, Value::Str(s.clone())),
        ) {
            Err(e) => Err(e),
            Ok(Some(n)) => Ok(Some(TimeOfDay { ticks: n, unit: TimeUnit::Sec })),
            Ok(None) => match as_datetime(v, host) {
                Ok(Some(t)) => Ok(Some(time_part(t))),
                Ok(None) => Ok(None),
                Err(e) => Err(e),
            },
        },
        _ => Ok(None),
    }
}

/// The calendar date of an instant, from the host.
pub open spec fn date_of(t: DateTime, log: Log) -> Result<Option<Date>, Query> {
    match date_answer(log, Query { op: HostOp::DateOf, args: seq![Datum::DateTime(t)] }) {
        Ok(d) => Ok(Some(Date { epoch_day: d })),
        Err(e) => Err(e),
    }
}

fn date_of_exec(t: DateTime, host: &Answers) -> (r: Result<Option<Date>, Ask>)
    ensures
        agree(r, date_of(t, host@), |a, b| a == b),
{
    match get_date(host, ask1(HostOp::DateOf, Value::DateTime(t))) {
        Ok(d) => Ok(Some(Date { epoch_day: d })),
        Err(e) => Err(e),
    }
}

/// A value as a calendar date: one as it is, the date of an instant, a text
/// read as a date or else as an instant.
pub open spec fn calendar(d: Datum, log: Log) -> Result<Option<Date>, Query> {
    match d {
        Datum::Date(x) => Ok(Some(x)),
        Datum::DateTime(t) => date_of(t, log),
        Datum::Str(s) => match ticks_answer(
            log,
            Query { op: HostOp::ParseDate, args: seq![Datum::Str(s)] },
        ) {
            Err(e) => Err(e),
            Ok(Some(n)) => Ok(Some(Date { epoch_day: n as i32 })),
            Ok(None) => match instant(d, log) {
                Ok(Some(t)) => date_of(t, log),
                Ok(None) => Ok(None),
                Err(e) => Err(e),
            },
        },
        _ => Ok(None),
    }
}

/// A value as a calendar date (see [`calendar`]).
pub fn as_date(v: &Value, host: &Answers) -> (r: Result<Option<Date>, Ask>)
    ensures
        agree(r, calendar(v@, host@), |a, b| a == b),
{
    match v {
        Value::Date(d) => Ok(Some(*d)),
        Value::DateTime(t) => date_of_exec(*t, host),
        Value::Str(s) => match get_ticks(
            host,
            ask1(HostOp::ParseDate, Value::Str(s.clone())),
        ) {
            Err(e) => Err(e),
            Ok(Some(n)) => {
                #[verifier::truncate]
                let day: i32 = n as i32;
                Ok(Some(Date { epoch_day: day }))
            },
            Ok(None) => match as_datetime(v, host) {
                Ok(Some(t)) => date_of_exec(t, host),
                Ok(None) => Ok(None),
                Err(e) => Err(e),
            },
        },
        _ => Ok(None),
    }
}

// ---------------------------------------------------------------- substr

/// How many characters a 1-based start skips: none for a start of 1 or less.
pub open spec fn skipped(start: F64) -> int {
    if truncated(start) <= 1 {
        0
    } else {
        truncated(start) - 1
    }
}

/// How many characters to take: a double as an unsigned count.
pub open spec fn taken(count: F64) -> int {
    if truncated(count) < 0 {
        0
    } else {
        truncated(count)
    }
}

/// `substr(s, start, take)` with a 1-based start; a start of 1 or less begins
/// at the first character.
pub fn substr_1based(s: &str, start: F64, take: u64) -> (r: String)
    ensures
        r@ == slice_text(s@, skipped(start), take as int),
{
    let start1: i64 = truncate(start);
    let skip: u64 = if start1 <= 1 {
        0
    } else {
        (start1 - 1) as u64
    };
    slice(s, skip, take)
}

// ---------------------------------------------------------------- unary numeric functions

/// The result of a unary numeric function: an integer where it is integral and
/// below 2^53 in size, else a double.
pub open spec fn tidy(x: F64) -> Datum {
    if small_integer(x) {
        Datum::I64(truncated(x) as i64)
    } else {
        Datum::F64(x)
    }
}

fn tidied(x: F64) -> (r: Value)
    ensures
        r@ == tidy(x),
{
    if is_small_integer(x) {
        Value::I64(truncate(x))
    } else {
        Value::F64(x)
    }
}

/// The double that a numeric function applies to: the value's own, or that of
/// a text; `None` for anything else.
pub open spec fn operand(d: Datum, log: Log) -> Result<Option<F64>, Query> {
    match d {
        Datum::Str(s) => maybe_float_answer(
            log,
            Query { op: HostOp::ParseFloat, args: seq![Datum::Str(trimmed(s))] },
        ),
        _ => numeric(d, log),
    }
}

/// A unary numeric function applied to a double.
pub open spec fn applied(func: Func, x: F64, log: Log) -> Result<F64, Query> {
    match func {
        Func::Abs => Ok(x.abs_value()),
        Func::Round => float_answer(log, Query { op: HostOp::Round, args: seq![Datum::F64(x)] }),
        Func::Floor => float_answer(log, Query { op: HostOp::Floor, args: seq![Datum::F64(x)] }),
        _ => float_answer(log, Query { op: HostOp::Ceil, args: seq![Datum::F64(x)] }),
    }
}

/// A unary numeric function applied to a value; missing where it is no number.
pub open spec fn numeric_func(func: Func, d: Datum, log: Log) -> Result<Datum, Query> {
    match operand(d, log) {
        Err(e) => Err(e),
        Ok(None) => Ok(Datum::Null),
        Ok(Some(x)) => match applied(func, x, log) {
            Err(e) => Err(e),
            Ok(y) => Ok(tidy(y)),
        },
    }
}

/// A unary numeric function applied to a value (see [`numeric_func`]).
pub fn num_value(func: Func, v: &Value, host: &Answers) -> (r: Result<Value, Ask>)
    ensures
        agree(r, numeric_func(func, v@, host@), |a: Value, b: Datum| a@ == b),
{
    let operand: Result<Option<F64>, Ask> = match v {
        Value::Str(s) => get_maybe_float(
            host,
            ask1(HostOp::ParseFloat, Value::Str(trim(s.as_str()))),
        ),
        _ => as_float(v, host),
    };
    match operand {
        Err(e) => Err(e),
        Ok(None) => Ok(Value::Null),
        Ok(Some(x)) => {
            let y: Result<F64, Ask> = match func {
                Func::Abs => Ok(x.abs()),
                Func::Round => get_float(host, ask1(HostOp::Round, Value::F64(x))),
                Func::Floor => get_float(host, ask1(HostOp::Floor, Value::F64(x))),
                _ => get_float(host, ask1(HostOp::Ceil, Value::F64(x))),
            };
            match y {
                Err(e) => Err(e),
                Ok(z) => Ok(tidied(z)),
            }
        },
    }
}

// ---------------------------------------------------------------- functions of one and two texts

/// The functions of one text.
pub open spec fn text1(func: Func, s: Seq<char>) -> Datum {
    match func {
        Func::Upper => Datum::Str(uppercased(s)),
        Func::Lower => Datum::Str(lowercased(s)),
        Func::Trim => Datum::Str(trimmed(s)),
        Func::Len => Datum::I64(s.len() as i64),
        Func::Basename => Datum::Str(basename(s)),
        Func::Stem => Datum::Str(stem(s)),
        _ => Datum::Str(dirname(s)),
    }
}

/// Is it a function of one text?
pub open spec fn of_text1(func: Func) -> bool {
    func is Upper || func is Lower || func is Trim || func is Len || func is Basename
        || func is Stem || func is Dirname
}

/// The functions of one text (see [`text1`]).
pub fn call_text1(func: Func, s: &str) -> (r: Value)
    requires
        of_text1(func),
    ensures
        r@ == text1(func, s@),
{
    match func {
        Func::Upper => Value::Str(to_upper(s)),
        Func::Lower => Value::Str(to_lower(s)),
        Func::Trim => Value::Str(trim(s)),
        Func::Len => {
            let v: Vec<char> = crate::text::chars_of(s);
            #[verifier::truncate]
            let n: i64 = v.len() as i64;
            Value::I64(n)
        },
        Func::Basename => Value::Str(owned(path_basename(s))),
        Func::Stem => Value::Str(path_stem(s)),
        _ => Value::Str(path_dirname(s)),
    }
}

/// The predicates on two texts.
pub open spec fn text2(func: Func, a: Seq<char>, b: Seq<char>) -> bool {
    match func {
        Func::Contains => occurs(a, b),
        Func::StartsWith => occurs_at(a, b, 0),
        Func::EndsWith => occurs_at(a, b, a.len() - b.len()),
        Func::Like => wild(a, b, '%', '_'),
        Func::Glob => glob(a, b),
        _ => regex_outcome(b, a) == Some(true),
    }
}

/// Is it a predicate on two texts?
pub open spec fn of_text2(func: Func) -> bool {
    func is Contains || func is StartsWith || func is EndsWith || func is Like || func is Glob
        || func is Regexp
}

/// The predicates on two texts (see [`text2`]).
pub fn call_text2(func: Func, a: &str, b: &str) -> (r: bool)
    requires
        of_text2(func),
    ensures
        r == text2(func, a@, b@),
{
    match func {
        Func::Contains => contains(a, b),
        Func::StartsWith => starts_with(a, b),
        Func::EndsWith => ends_with(a, b),
        Func::Like => like_match(a, b),
        Func::Glob => glob_match(a, b),
        _ => regexp_match(a, b),
    }
}

/// Is it a unary numeric function?
pub open spec fn of_number(func: Func) -> bool {
    func is Abs || func is Round || func is Floor || func is Ceil
}

/// Is it an extractor of one calendar field?
pub open spec fn of_field(func: Func) -> bool {
    func is Year || func is Month || func is Day || func is Hour || func is Minute || func is Second
}

/// The number of a calendar field.
pub open spec fn field_number(func: Func) -> u8 {
    match func {
        Func::Year => 0,
        Func::Month => 1,
        Func::Day => 2,
        Func::Hour => 3,
        Func::Minute => 4,
        _ => 5,
    }
}

/// A calendar field of an instant; missing where the value is none.
pub open spec fn field_func(func: Func, d: Datum, log: Log) -> Result<Datum, Query> {
    match instant(d, log) {
        Err(e) => Err(e),
        Ok(None) => Ok(Datum::Null),
        Ok(Some(t)) => match int_answer(
            log,
            Query {
                op: HostOp::Field { which: field_number(func) },
                args: seq![Datum::DateTime(t)],
            },
        ) {
            Ok(n) => Ok(Datum::I64(n)),
            Err(e) => Err(e),
        },
    }
}

/// A calendar field of an instant (see [`field_func`]).
pub fn call_field(func: Func, v: &Value, host: &Answers) -> (r: Result<Value, Ask>)
    ensures
        agree(r, field_func(func, v@, host@), |a: Value, b: Datum| a@ == b),
{
    match as_datetime(v, host) {
        Err(e) => Err(e),
        Ok(None) => Ok(Value::Null),
        Ok(Some(t)) => {
            let which: u8 = match func {
                Func::Year => 0,
                Func::Month => 1,
                Func::Day => 2,
                Func::Hour => 3,
                Func::Minute => 4,
                _ => 5,
            };
            match get_int(host, ask1(HostOp::Field { which }, Value::DateTime(t))) {
                Ok(n) => Ok(Value::I64(n)),
                Err(e) => Err(e),
            }
        },
    }
}

/// Is it a function of a date or a time of day?
pub open spec fn of_date(func: Func) -> bool {
    func is Weekday || func is IsWeekend || func is Date || func is Time
}

/// The functions of a date or a time of day; missing where the value is none.
pub open spec fn date_func(func: Func, d: Datum, log: Log) -> Result<Datum, Query> {
    if func is Time {
        match day_time(d, log) {
            Err(e) => Err(e),
            Ok(None) => Ok(Datum::Null),
            Ok(Some(t)) => Ok(Datum::Time(t)),
        }
    } else {
        match calendar(d, log) {
            Err(e) => Err(e),
            Ok(None) => Ok(Datum::Null),
            Ok(Some(x)) => if func is Date {
                Ok(Datum::Date(x))
            } else {
                match int_answer(
                    log,
                    Query { op: HostOp::Weekday, args: seq![Datum::Date(x)] },
                ) {
                    Err(e) => Err(e),
                    Ok(n) => if func is Weekday {
                        Ok(Datum::I64(n))
                    } else {
                        Ok(Datum::Bool(n >= 5))
                    },
                }
            },
        }
    }
}

/// The functions of a date or a time of day (see [`date_func`]).
pub fn call_date(func: Func, v: &Value, host: &Answers) -> (r: Result<Value, Ask>)
    requires
        of_date(func),
    ensures
        agree(r, date_func(func, v@, host@), |a: Value, b: Datum| a@ == b),
{
    if let Func::Time = func {
        return match as_time(v, host) {
            Err(e) => Err(e),
            Ok(None) => Ok(Value::Null),
            Ok(Some(t)) => Ok(Value::Time(t)),
        };
    }
    match as_date(v, host) {
        Err(e) => Err(e),
        Ok(None) => Ok(Value::Null),
        Ok(Some(d)) => {
            if let Func::Date = func {
                return Ok(Value::Date(d));
            }
            match get_int(host, ask1(HostOp::Weekday, Value::Date(d))) {
                Err(e) => Err(e),
                Ok(n) => if let Func::Weekday = func {
                    Ok(Value::I64(n))
                } else {
                    Ok(Value::Bool(n >= 5))
                },
            }
        },
    }
}

/// A span or an instant printed by a format; any other value by its own text.
pub open spec fn format_func(d: Datum, fmt: Seq<char>, log: Log) -> Result<Datum, Query> {
    match d {
        Datum::Duration(t) => {
            let iso = ascii_lowered(fmt) == seq!['i', 's', 'o'] || ascii_lowered(fmt)
                == seq!['i', 's', 'o', '8', '6', '0', '1'];
            let op = if iso {
                HostOp::Iso
            } else {
                HostOp::Human
            };
            match text_answer(log, Query { op, args: seq![Datum::Duration(t)] }) {
                Ok(s) => Ok(Datum::Str(s)),
                Err(e) => Err(e),
            }
        },
        _ => match instant(d, log) {
            Err(e) => Err(e),
            Ok(Some(t)) => match text_answer(
                log,
                Query {
                    op: HostOp::FormatDateTime,
                    args: seq![Datum::DateTime(t), Datum::Str(fmt)],
                },
            ) {
                Ok(s) => Ok(Datum::Str(s)),
                Err(e) => Err(e),
            },
            Ok(None) => match rendered(d, log) {
                Ok(s) => Ok(Datum::Str(s)),
                Err(e) => Err(e),
            },
        },
    }
}

/// A span or an instant printed by a format (see [`format_func`]).
pub fn call_format(v: &Value, fmt: &str, host: &Answers) -> (r: Result<Value, Ask>)
    ensures
        agree(r, format_func(v@, fmt@, host@), |a: Value, b: Datum| a@ == b),
{
    let text: Result<String, Ask> = match v {
        Value::Duration(t) => {
            proof {
                reveal_strlit("iso");
                reveal_strlit("iso8601");
                assert("iso"@ =~= seq!['i', 's', 'o']);
                assert("iso8601"@ =~= seq!['i', 's', 'o', '8', '6', '0', '1']);
                assert(ascii_lowered("iso"@) =~= "iso"@);
                assert(ascii_lowered("iso8601"@) =~= "iso8601"@);
            }
            let op: HostOp = if eq_ignore_ascii_case(fmt, "iso") || eq_ignore_ascii_case(
                fmt,
                "iso8601",
            ) {
                HostOp::Iso
            } else {
                HostOp::Human
            };
            get_text(host, ask1(op, Value::Duration(*t)))
        },
        _ => match as_datetime(v, host) {
            Err(e) => Err(e),
            Ok(Some(t)) => get_text(
                host,
                ask2(HostOp::FormatDateTime, Value::DateTime(t), Value::Str(owned(fmt))),
            ),
            Ok(None) => render(v, host),
        },
    };
    match text {
        Ok(s) => Ok(Value::Str(s)),
        Err(e) => Err(e),
    }
}

/// An instant truncated to a named boundary, in its unit; missing where the
/// value is no instant.
pub open spec fn trunc_at(t: DateTime, to: Seq<char>, log: Log) -> Result<Datum, Query> {
    match int_answer(
        log,
        Query { op: HostOp::Truncate, args: seq![Datum::DateTime(t), Datum::Str(trimmed(to))] },
    ) {
        Ok(n) => Ok(Datum::DateTime(DateTime { ticks: n, unit: t.unit })),
        Err(e) => Err(e),
    }
}

/// An instant truncated to a named boundary (see [`trunc_at`]).
pub fn call_trunc(t: DateTime, to: &str, host: &Answers) -> (r: Result<Value, Ask>)
    ensures
        agree(r, trunc_at(t, to@, host@), |a: Value, b: Datum| a@ == b),
{
    match get_int(host, ask2(HostOp::Truncate, Value::DateTime(t), Value::Str(trim(to)))) {
        Ok(n) => Ok(Value::DateTime(DateTime { ticks: n, unit: t.unit })),
        Err(e) => Err(e),
    }
}

/// The start of an instant's bucket; missing where the width is no span or
/// admits no bucket.
pub open spec fn bucket_of(t: DateTime, width: Datum, log: Log) -> Result<Datum, Query> {
    match span(width, t.unit, log) {
        Err(e) => Err(e),
        Ok(None) => Ok(Datum::Null),
        Ok(Some(w)) => match ticks_answer(
            log,
            Query { op: HostOp::Bucket, args: seq![Datum::DateTime(t), Datum::Duration(w)] },
        ) {
            Err(e) => Err(e),
            Ok(None) => Ok(Datum::Null),
            Ok(Some(n)) => Ok(Datum::DateTime(DateTime { ticks: n, unit: t.unit })),
        },
    }
}

/// The start of an instant's bucket (see [`bucket_of`]).
pub fn call_bucket(t: DateTime, width: &Value, host: &Answers) -> (r: Result<Value, Ask>)
    ensures
        agree(r, bucket_of(t, width@, host@), |a: Value, b: Datum| a@ == b),
{
    match as_duration(width, t.unit, host) {
        Err(e) => Err(e),
        Ok(None) => Ok(Value::Null),
        Ok(Some(w)) => match get_ticks(
            host,
            ask2(HostOp::Bucket, Value::DateTime(t), Value::Duration(w)),
        ) {
            Err(e) => Err(e),
            Ok(None) => Ok(Value::Null),
            Ok(Some(n)) => Ok(Value::DateTime(DateTime { ticks: n, unit: t.unit })),
        },
    }
}

/// A tick count of the host's list as an instant; what is no count is missing.
pub open spec fn start_of(d: Datum, unit: TimeUnit) -> Datum {
    match d {
        Datum::I64(n) => Datum::DateTime(DateTime { ticks: n, unit }),
        _ => Datum::Null,
    }
}

/// The starts of the sliding windows that hold an instant; missing where a
/// width is no span or the host finds no windows.
pub open spec fn hops_of(t: DateTime, size: Datum, hop: Datum, log: Log) -> Result<Datum, Query> {
    match span(size, t.unit, log) {
        Err(e) => Err(e),
        Ok(a) => match span(hop, t.unit, log) {
            Err(e) => Err(e),
            Ok(b) => match (a, b) {
                (Some(x), Some(y)) => match tick_list_answer(
                    log,
                    Query {
                        op: HostOp::Hops,
                        args: seq![Datum::DateTime(t), Datum::Duration(x), Datum::Duration(y)],
                    },
                ) {
                    Err(e) => Err(e),
                    Ok(None) => Ok(Datum::Null),
                    Ok(Some(s)) => Ok(
                        Datum::List(Seq::new(s.len(), |i: int| start_of(s[i], t.unit))),
                    ),
                },
                _ => Ok(Datum::Null),
            },
        },
    }
}

/// The starts of the sliding windows that hold an instant (see [`hops_of`]).
pub fn call_hops(t: DateTime, size: &Value, hop: &Value, host: &Answers) -> (r: Result<Value, Ask>)
    ensures
        agree(r, hops_of(t, size@, hop@, host@), |a: Value, b: Datum| a@ == b),
{
    let a: Option<Duration> = match as_duration(size, t.unit, host) {
        Err(e) => {
            return Err(e);
        },
        Ok(a) => a,
    };
    let b: Option<Duration> = match as_duration(hop, t.unit, host) {
        Err(e) => {
            return Err(e);
        },
        Ok(b) => b,
    };
    match (a, b) {
        (Some(x), Some(y)) => {
            let ask: Ask = ask3(
                HostOp::Hops,
                Value::DateTime(t),
                Value::Duration(x),
                Value::Duration(y),
            );
            match host.lookup(&ask) {
                Some(Value::List(s)) => {
                    let mut out: Vec<Value> = Vec::new();
                    for i in 0..s.len()
                        invariant
                            out@.len() == i,
                            forall|k: int|
                                0 <= k < i ==> (#[trigger] out@[k])@ == start_of(s@[k]@, t.unit),
                    {
                        let item: Value = match &s[i] {
                            Value::I64(n) => Value::DateTime(DateTime { ticks: *n, unit: t.unit }),
                            _ => Value::Null,
                        };
                        out.push(item);
                    }
                    let r = Value::List(out);
                    proof {
                        let want = hops_of(t, size@, hop@, host@)->Ok_0->List_0;
                        assert(r@->List_0 =~= want);
                    }
                    Ok(r)
                },
                Some(Value::Null) => Ok(Value::Null),
                _ => Err(ask),
            }
        },
        _ => Ok(Value::Null),
    }
}

} // verus!
