//! Conversions between value types.
use vstd::prelude::*;
use crate::chunk::{Column, Lane};
use crate::compare::agree;
use crate::float::{float_from, float_of, truncate, truncated, F64};
use crate::host::{ask1, decimal_answer, float_answer, get_decimal, get_float, get_maybe_float, get_text, get_ticks, maybe_float_answer, text_answer, ticks_answer, Answers, Ask, HostOp, Log, Query};
use crate::strings::{ascii_lowered, eq_ignore_ascii_case, parse_i64, parsed_i64, trim, trimmed};
use crate::text::{i64_text, int_text, owned, same_text};
use crate::value::{data, fits, DataType, Date, DateTime, Datum, Decimal, Duration, TimeOfDay, TimeUnit, Value};

verus! {

// ---------------------------------------------------------------- failures

/// A failure count grown by `n`; it stays at the largest count there is.
pub open spec fn counted(old: u64, n: nat) -> u64 {
    if old + n > u64::MAX {
        u64::MAX
    } else {
        (old + n) as u64
    }
}

/// Adds failures to a count.
pub fn count(fails: &mut u64, n: u64)
    ensures
        *final(fails) == counted(*old(fails), n as nat),
{
    if *fails > u64::MAX - n {
        *fails = u64::MAX;
    } else {
        *fails = *fails + n;
    }
}

// ---------------------------------------------------------------- printing

/// A value's text: nothing for a missing value, the plain text of strings,
/// integers, booleans and uris, and what the host prints for the rest.
pub open spec fn rendered(d: Datum, log: Log) -> Result<Seq<char>, Query> {
    match d {
        Datum::Null => Ok(Seq::empty()),
        Datum::Bool(b) => Ok(
            if b {
                seq!['t', 'r', 'u', 'e']
            } else {
                seq!['f', 'a', 'l', 's', 'e']
            },
        ),
        Datum::I64(n) => Ok(int_text(n as int)),
        Datum::Str(s) => Ok(s),
        Datum::Resource(s) => Ok(s),
        _ => text_answer(log, Query { op: HostOp::Render, args: seq![d] }),
    }
}

/// An executable text result agrees with its specification.
pub open spec fn agree_text(r: Result<String, Ask>, s: Result<Seq<char>, Query>) -> bool {
    agree(r, s, |a: String, b: Seq<char>| a@ == b)
}

/// A value's text (see [`rendered`]).
pub fn render(v: &Value, host: &Answers) -> (r: Result<String, Ask>)
    ensures
        agree_text(r, rendered(v@, host@)),
{
    match v {
        Value::Null => Ok(String::new()),
        Value::Bool(b) => {
            proof {
                reveal_strlit("true");
                reveal_strlit("false");
                assert("true"@ =~= seq!['t', 'r', 'u', 'e']);
                assert("false"@ =~= seq!['f', 'a', 'l', 's', 'e']);
            }
            Ok(
                if *b {
                    owned("true")
                } else {
                    owned("false")
                },
            )
        },
        Value::I64(n) => Ok(i64_text(*n)),
        Value::Str(s) => Ok(s.clone()),
        Value::Resource(s) => Ok(s.clone()),
        _ => get_text(host, ask1(HostOp::Render, v.dup())),
    }
}

// ---------------------------------------------------------------- scalars

/// A value as an integer: doubles are truncated, texts are read as integers or
/// else as doubles, temporal values are their counts; what is none is 0.
pub open spec fn integral(d: Datum, log: Log) -> Result<i64, Query> {
    match d {
        Datum::I64(x) => Ok(x),
        Datum::F64(x) => Ok(truncated(x) as i64),
        Datum::Dec(x) => match float_answer(
            log,
            Query { op: HostOp::DecFloat, args: seq![Datum::Dec(x)] },
        ) {
            Ok(f) => Ok(truncated(f) as i64),
            Err(e) => Err(e),
        },
        Datum::DateTime(t) => Ok(t.ticks),
        Datum::Duration(t) => Ok(t.ticks),
        Datum::Date(t) => Ok(t.epoch_day as i64),
        Datum::Time(t) => Ok(t.ticks),
        Datum::Bool(b) => Ok(
            if b {
                1
            } else {
                0
            },
        ),
        Datum::Str(s) => match int_of_text(trimmed(s), log) {
            Ok(Some(n)) => Ok(n),
            Ok(None) => Ok(0),
            Err(e) => Err(e),
        },
        _ => Ok(0),
    }
}

/// A trimmed text as an integer: written as one, or the truncation of a double.
pub open spec fn int_of_text(t: Seq<char>, log: Log) -> Result<Option<i64>, Query> {
    match parsed_i64(t) {
        Some(n) => Ok(Some(n)),
        None => match maybe_float_answer(
            log,
            Query { op: HostOp::ParseFloat, args: seq![Datum::Str(t)] },
        ) {
            Ok(Some(f)) => Ok(Some(truncated(f) as i64)),
            Ok(None) => Ok(None),
            Err(e) => Err(e),
        },
    }
}

fn text_int(t: String, host: &Answers) -> (r: Result<Option<i64>, Ask>)
    ensures
        agree(r, int_of_text(t@, host@), |a, b| a == b),
{
    match parse_i64(t.as_str()) {
        Some(n) => Ok(Some(n)),
        None => match get_maybe_float(host, ask1(HostOp::ParseFloat, Value::Str(t))) {
            Ok(Some(f)) => Ok(Some(truncate(f))),
            Ok(None) => Ok(None),
            Err(e) => Err(e),
        },
    }
}

/// A value as an integer (see [`integral`]).
pub fn to_i64(v: &Value, host: &Answers) -> (r: Result<i64, Ask>)
    ensures
        agree(r, integral(v@, host@), |a, b| a == b),
{
    match v {
        Value::I64(x) => Ok(*x),
        Value::F64(x) => Ok(truncate(*x)),
        Value::Dec(d) => match get_float(host, ask1(HostOp::DecFloat, Value::Dec(*d))) {
            Ok(f) => Ok(truncate(f)),
            Err(e) => Err(e),
        },
        Value::DateTime(t) => Ok(t.ticks),
        Value::Duration(t) => Ok(t.ticks),
        Value::Date(t) => Ok(t.epoch_day as i64),
        Value::Time(t) => Ok(t.ticks),
        Value::Bool(b) => Ok(
            if *b {
                1
            } else {
                0
            },
        ),
        Value::Str(s) => match text_int(trim(s.as_str()), host) {
            Ok(Some(n)) => Ok(n),
            Ok(None) => Ok(0),
            Err(e) => Err(e),
        },
        _ => Ok(0),
    }
}

/// A value as a double; what is none is not-a-number.
pub open spec fn floating(d: Datum, log: Log) -> Result<F64, Query> {
    match d {
        Datum::I64(x) => Ok(float_of(x as int)),
        Datum::F64(x) => Ok(x),
        Datum::Dec(x) => float_answer(
            log,
            Query { op: HostOp::DecFloat, args: seq![Datum::Dec(x)] },
        ),
        Datum::DateTime(t) => Ok(float_of(t.ticks as int)),
        Datum::Duration(t) => Ok(float_of(t.ticks as int)),
        Datum::Date(t) => Ok(float_of(t.epoch_day as int)),
        Datum::Time(t) => Ok(float_of(t.ticks as int)),
        Datum::Bool(b) => Ok(
            float_of(
                if b {
                    1
                } else {
                    0
                },
            ),
        ),
        Datum::Str(s) => match maybe_float_answer(
            log,
            Query { op: HostOp::ParseFloat, args: seq![Datum::Str(trimmed(s))] },
        ) {
            Ok(Some(f)) => Ok(f),
            Ok(None) => Ok(F64::nan_value()),
            Err(e) => Err(e),
        },
        _ => Ok(F64::nan_value()),
    }
}

/// A value as a double (see [`floating`]).
pub fn to_float(v: &Value, host: &Answers) -> (r: Result<F64, Ask>)
    ensures
        agree(r, floating(v@, host@), |a, b| a == b),
{
    match v {
        Value::I64(x) => Ok(float_from(*x as i128)),
        Value::F64(x) => Ok(*x),
        Value::Dec(d) => get_float(host, ask1(HostOp::DecFloat, Value::Dec(*d))),
        Value::DateTime(t) => Ok(float_from(t.ticks as i128)),
        Value::Duration(t) => Ok(float_from(t.ticks as i128)),
        Value::Date(t) => Ok(float_from(t.epoch_day as i128)),
        Value::Time(t) => Ok(float_from(t.ticks as i128)),
        Value::Bool(b) => Ok(
            float_from(
                if *b {
                    1
                } else {
                    0
                },
            ),
        ),
        Value::Str(s) => match get_maybe_float(
            host,
            ask1(HostOp::ParseFloat, Value::Str(trim(s.as_str()))),
        ) {
            Ok(Some(f)) => Ok(f),
            Ok(None) => Ok(F64::quiet_nan()),
            Err(e) => Err(e),
        },
        _ => Ok(F64::quiet_nan()),
    }
}

/// A value as a boolean: nonzero numbers and the texts `true` (in any ASCII
/// case) and `1`.
pub open spec fn truthy(d: Datum) -> bool {
    match d {
        Datum::Bool(b) => b,
        Datum::I64(x) => x != 0,
        Datum::F64(x) => !x.is_zero(),
        Datum::Dec(x) => x.unscaled != 0,
        Datum::DateTime(t) => t.ticks != 0,
        Datum::Duration(t) => t.ticks != 0,
        Datum::Date(t) => t.epoch_day != 0,
        Datum::Time(t) => t.ticks != 0,
        Datum::Str(s) => ascii_lowered(trimmed(s)) == seq!['t', 'r', 'u', 'e'] || trimmed(s)
            == seq!['1'],
        _ => false,
    }
}

/// A value as a boolean (see [`truthy`]).
pub fn to_bool(v: &Value) -> (r: bool)
    ensures
        r == truthy(v@),
{
    match v {
        Value::Bool(b) => *b,
        Value::I64(x) => *x != 0,
        Value::F64(x) => !x.zero(),
        Value::Dec(d) => d.unscaled != 0,
        Value::DateTime(t) => t.ticks != 0,
        Value::Duration(t) => t.ticks != 0,
        Value::Date(t) => t.epoch_day != 0,
        Value::Time(t) => t.ticks != 0,
        Value::Str(s) => {
            let t: String = trim(s.as_str());
            proof {
                reveal_strlit("true");
                reveal_strlit("1");
                assert("true"@ =~= seq!['t', 'r', 'u', 'e']);
                assert("1"@ =~= seq!['1']);
                assert(ascii_lowered(seq!['t', 'r', 'u', 'e']) =~= seq!['t', 'r', 'u', 'e']);
            }
            eq_ignore_ascii_case(t.as_str(), "true") || same_text(t.as_str(), "1")
        },
        _ => false,
    }
}

// ---------------------------------------------------------------- casts

/// Is the type temporal? Such a target parses texts.
pub open spec fn temporal_type(ty: DataType) -> bool {
    ty is DateTime || ty is Duration || ty is Date || ty is Time
}

/// Is the type temporal?
pub fn is_temporal(ty: DataType) -> (r: bool)
    ensures
        r == temporal_type(ty),
{
    matches!(
        ty,
        DataType::DateTime { .. } | DataType::Duration { .. } | DataType::Date | DataType::Time
    )
}

/// How a text is read as a temporal type.
pub open spec fn parse_op(ty: DataType) -> HostOp {
    match ty {
        DataType::DateTime { unit } => HostOp::ParseDateTime { unit },
        DataType::Duration { unit } => HostOp::ParseInterval { unit },
        DataType::Date => HostOp::ParseDate,
        _ => HostOp::ParseTime { unit: TimeUnit::Sec },
    }
}

/// The value of a temporal type with the given count.
pub open spec fn temporal_value(ty: DataType, n: i64) -> Datum {
    match ty {
        DataType::DateTime { unit } => Datum::DateTime(DateTime { ticks: n, unit }),
        DataType::Duration { unit } => Datum::Duration(Duration { ticks: n, unit }),
        DataType::Date => Datum::Date(Date { epoch_day: n as i32 }),
        _ => Datum::Time(TimeOfDay { ticks: n, unit: TimeUnit::Sec }),
    }
}

/// A text read as a temporal type, or `None` where it does not parse.
pub open spec fn parsed_temporal(s: Seq<char>, ty: DataType, log: Log) -> Result<Option<Datum>, Query> {
    match ticks_answer(log, Query { op: parse_op(ty), args: seq![Datum::Str(s)] }) {
        Ok(Some(n)) => Ok(Some(temporal_value(ty, n))),
        Ok(None) => Ok(None),
        Err(e) => Err(e),
    }
}

fn make_temporal(ty: DataType, n: i64) -> (r: Value)
    ensures
        r@ == temporal_value(ty, n),
{
    match ty {
        DataType::DateTime { unit } => Value::DateTime(DateTime { ticks: n, unit }),
        DataType::Duration { unit } => Value::Duration(Duration { ticks: n, unit }),
        DataType::Date => {
            #[verifier::truncate]
            let day: i32 = n as i32;
            Value::Date(Date { epoch_day: day })
        },
        _ => Value::Time(TimeOfDay { ticks: n, unit: TimeUnit::Sec }),
    }
}

/// A text read as a temporal type, or `None` where it does not parse.
pub fn parse_temporal_str(s: &str, ty: DataType, host: &Answers) -> (r: Result<Option<Value>, Ask>)
    requires
        temporal_type(ty),
    ensures
        agree(
            r,
            parsed_temporal(s@, ty, host@),
            |a, b| crate::compare::same_option(a, b),
        ),
{
    let op: HostOp = match ty {
        DataType::DateTime { unit } => HostOp::ParseDateTime { unit },
        DataType::Duration { unit } => HostOp::ParseInterval { unit },
        DataType::Date => HostOp::ParseDate,
        _ => HostOp::ParseTime { unit: TimeUnit::Sec },
    };
    match get_ticks(host, ask1(op, Value::Str(owned(s)))) {
        Ok(Some(n)) => Ok(Some(make_temporal(ty, n))),
        Ok(None) => Ok(None),
        Err(e) => Err(e),
    }
}

/// A value with the failures that making it met, or a question to the host.
pub type Outcome = Result<(Datum, nat), Query>;

/// A value without failures.
pub open spec fn clean(d: Datum) -> Outcome {
    Ok((d, 0))
}

/// A nonempty trimmed text read as a numeric type: missing and counted where it
/// does not parse.
pub open spec fn number_of_text(t: Seq<char>, ty: DataType, log: Log) -> Outcome {
    match ty {
        DataType::I64 => match int_of_text(t, log) {
            Ok(Some(n)) => clean(Datum::I64(n)),
            Ok(None) => Ok((Datum::Null, 1)),
            Err(e) => Err(e),
        },
        _ => match maybe_float_answer(
            log,
            Query { op: HostOp::ParseFloat, args: seq![Datum::Str(t)] },
        ) {
            Ok(Some(f)) => match ty {
                DataType::Decimal { scale } => to_decimal(f, scale, log),
                _ => clean(Datum::F64(f)),
            },
            Ok(None) => Ok((Datum::Null, 1)),
            Err(e) => Err(e),
        },
    }
}

/// A double as a decimal of that scale; 0 for what is not finite.
pub open spec fn to_decimal(x: F64, scale: u8, log: Log) -> Outcome {
    if !x.is_finite() {
        clean(Datum::Dec(Decimal { unscaled: 0, scale }))
    } else {
        match decimal_answer(
            log,
            Query { op: HostOp::FloatDec { scale }, args: seq![Datum::F64(x)] },
        ) {
            Ok(u) => clean(Datum::Dec(Decimal { unscaled: u, scale })),
            Err(e) => Err(e),
        }
    }
}

/// Is the type read from texts as a number?
pub open spec fn numeric_type(ty: DataType) -> bool {
    ty is I64 || ty is F64 || ty is Decimal
}

/// A value converted to a type. A text cast to a temporal or numeric type is
/// parsed: one that does not parse becomes missing and is counted, an empty one
/// is missing without a failure. A missing value stays missing there. Other
/// sources are reinterpreted.
pub open spec fn cast(d: Datum, ty: DataType, log: Log) -> Outcome {
    if temporal_type(ty) && d is Null {
        clean(Datum::Null)
    } else if temporal_type(ty) && d is Str {
        match parsed_temporal(d->Str_0, ty, log) {
            Ok(Some(v)) => clean(v),
            Ok(None) => Ok((Datum::Null, 1)),
            Err(e) => Err(e),
        }
    } else if numeric_type(ty) && d is Null {
        clean(Datum::Null)
    } else if numeric_type(ty) && d is Str {
        let t = trimmed(d->Str_0);
        if t.len() == 0 {
            clean(Datum::Null)
        } else {
            number_of_text(t, ty, log)
        }
    } else {
        match ty {
            DataType::I64 => match integral(d, log) {
                Ok(n) => clean(Datum::I64(n)),
                Err(e) => Err(e),
            },
            DataType::F64 => match floating(d, log) {
                Ok(f) => clean(Datum::F64(f)),
                Err(e) => Err(e),
            },
            DataType::Decimal { scale } => match floating(d, log) {
                Ok(f) => to_decimal(f, scale, log),
                Err(e) => Err(e),
            },
            DataType::Bool => clean(Datum::Bool(truthy(d))),
            DataType::Str => match rendered(d, log) {
                Ok(s) => clean(Datum::Str(s)),
                Err(e) => Err(e),
            },
            DataType::Resource => match rendered(d, log) {
                Ok(s) => clean(Datum::Resource(s)),
                Err(e) => Err(e),
            },
            DataType::Null => clean(Datum::Null),
            DataType::Struct => clean(Datum::Null),
            DataType::List => clean(Datum::Null),
            _ => match integral(d, log) {
                Ok(n) => clean(temporal_value(ty, n)),
                Err(e) => Err(e),
            },
        }
    }
}

/// An executable result agrees with an outcome, failures counted.
pub open spec fn agree_out(r: Result<Value, Ask>, before: u64, after: u64, s: Outcome) -> bool {
    match (r, s) {
        (Ok(v), Ok((d, n))) => v@ == d && after == counted(before, n),
        (Err(a), Err(q)) => a@ == q,
        _ => false,
    }
}

/// A double as a decimal of that scale; 0 for what is not finite.
pub fn f64_to_decimal(x: F64, scale: u8, host: &Answers) -> (r: Result<Value, Ask>)
    ensures
        agree_out(r, 0, 0, to_decimal(x, scale, host@)),
{
    if !x.finite() {
        return Ok(Value::Dec(Decimal { unscaled: 0, scale }));
    }
    match get_decimal(host, ask1(HostOp::FloatDec { scale }, Value::F64(x))) {
        Ok(u) => Ok(Value::Dec(Decimal { unscaled: u, scale })),
        Err(e) => Err(e),
    }
}

fn text_number(t: String, ty: DataType, host: &Answers, fails: &mut u64) -> (r: Result<Value, Ask>)
    requires
        numeric_type(ty),
    ensures
        agree_out(r, *old(fails), *final(fails), number_of_text(t@, ty, host@)),
{
    if let DataType::I64 = ty {
        return match text_int(t, host) {
            Ok(Some(n)) => Ok(Value::I64(n)),
            Ok(None) => {
                count(fails, 1);
                Ok(Value::Null)
            },
            Err(e) => Err(e),
        };
    }
    match get_maybe_float(host, ask1(HostOp::ParseFloat, Value::Str(t))) {
        Ok(Some(f)) => match ty {
            DataType::Decimal { scale } => f64_to_decimal(f, scale, host),
            _ => Ok(Value::F64(f)),
        },
        Ok(None) => {
            count(fails, 1);
            Ok(Value::Null)
        },
        Err(e) => Err(e),
    }
}

/// Converts a value to a type (see [`cast`]); `fails` counts the texts that did
/// not parse.
pub fn cast_value(v: &Value, ty: DataType, host: &Answers, fails: &mut u64) -> (r: Result<Value, Ask>)
    ensures
        agree_out(r, *old(fails), *final(fails), cast(v@, ty, host@)),
{
    if is_temporal(ty) {
        match v {
            Value::Null => {
                return Ok(Value::Null);
            },
            Value::Str(s) => {
                return match parse_temporal_str(s.as_str(), ty, host) {
                    Ok(Some(t)) => Ok(t),
                    Ok(None) => {
                        count(fails, 1);
                        Ok(Value::Null)
                    },
                    Err(e) => Err(e),
                };
            },
            _ => {},
        }
    }
    if matches!(ty, DataType::I64 | DataType::F64 | DataType::Decimal { .. }) {
        match v {
            Value::Null => {
                return Ok(Value::Null);
            },
            Value::Str(s) => {
                let t: String = trim(s.as_str());
                if t.as_str().is_empty() {
                    return Ok(Value::Null);
                }
                return text_number(t, ty, host, fails);
            },
            _ => {},
        }
    }
    match ty {
        DataType::I64 => match to_i64(v, host) {
            Ok(n) => Ok(Value::I64(n)),
            Err(e) => Err(e),
        },
        DataType::F64 => match to_float(v, host) {
            Ok(f) => Ok(Value::F64(f)),
            Err(e) => Err(e),
        },
        DataType::Decimal { scale } => match to_float(v, host) {
            Ok(f) => f64_to_decimal(f, scale, host),
            Err(e) => Err(e),
        },
        DataType::Bool => Ok(Value::Bool(to_bool(v))),
        DataType::Str => match render(v, host) {
            Ok(s) => Ok(Value::Str(s)),
            Err(e) => Err(e),
        },
        DataType::Resource => match render(v, host) {
            Ok(s) => Ok(Value::Resource(s)),
            Err(e) => Err(e),
        },
        DataType::Null => Ok(Value::Null),
        DataType::Struct => Ok(Value::Null),
        DataType::List => Ok(Value::Null),
        _ => match to_i64(v, host) {
            Ok(n) => Ok(make_temporal(ty, n)),
            Err(e) => Err(e),
        },
    }
}

/// A cast gives a missing value or one of the type asked for.
pub proof fn lemma_cast_fits(d: Datum, ty: DataType, log: Log)
    ensures
        cast(d, ty, log) matches Ok((v, _)) ==> fits(v, ty),
{
}

// ---------------------------------------------------------------- columns

/// A cell converted to a type; a missing cell stays missing.
pub open spec fn cast_cell(d: Datum, ty: DataType, log: Log) -> Outcome {
    if d is Null {
        clean(Datum::Null)
    } else {
        cast(d, ty, log)
    }
}

/// Cells with the failures that making them met, or a question to the host.
pub type Cells = Result<(Seq<Datum>, nat), Query>;

/// The first `n` cells converted to a type.
pub open spec fn cast_cells(cells: Seq<Datum>, ty: DataType, log: Log, n: nat) -> Cells
    decreases n,
{
    if n == 0 {
        Ok((Seq::empty(), 0))
    } else {
        match cast_cells(cells, ty, log, (n - 1) as nat) {
            Err(e) => Err(e),
            Ok((s, k)) => match cast_cell(cells[n - 1], ty, log) {
                Err(e) => Err(e),
                Ok((d, f)) => Ok((s.push(d), k + f)),
            },
        }
    }
}

/// A column with the failures that making it met, or a question to the host.
pub type LaneOut = Result<(Lane, nat), Query>;

/// Is the type one that no column can be cast to?
pub open spec fn uncastable(ty: DataType) -> bool {
    ty is Null || ty is Struct || ty is List
}

/// A column converted to a type, cell by cell; a target without a cast leaves
/// the column as it is.
pub open spec fn cast_lane(c: Lane, ty: DataType, log: Log) -> LaneOut {
    if uncastable(ty) {
        Ok((c, 0))
    } else {
        match cast_cells(c.cells, ty, log, c.cells.len()) {
            Err(e) => Err(e),
            Ok((s, k)) => Ok((Lane { dtype: ty, cells: s }, k)),
        }
    }
}

/// An executable column agrees with its specification, failures counted.
pub open spec fn agree_lane(r: Result<Column, Ask>, before: u64, after: u64, s: LaneOut) -> bool {
    match (r, s) {
        (Ok(c), Ok((l, n))) => c@ == l && after == counted(before, n),
        (Err(a), Err(q)) => a@ == q,
        _ => false,
    }
}

proof fn lemma_cast_cells_len(cells: Seq<Datum>, ty: DataType, log: Log, n: nat)
    requires
        n <= cells.len(),
    ensures
        cast_cells(cells, ty, log, n) matches Ok((s, _)) ==> s.len() == n && (forall|i: int|
            0 <= i < n ==> fits(#[trigger] s[i], ty)),
    decreases n,
{
    if n > 0 {
        lemma_cast_cells_len(cells, ty, log, (n - 1) as nat);
        lemma_cast_fits(cells[n - 1], ty, log);
    }
}

/// Casting keeps the number of rows and gives a typed column.
pub proof fn lemma_cast_lane_typed(c: Lane, ty: DataType, log: Log)
    requires
        c.typed(),
    ensures
        cast_lane(c, ty, log) matches Ok((l, _)) ==> l.typed() && l.cells.len() == c.cells.len(),
{
    if !uncastable(ty) {
        lemma_cast_cells_len(c.cells, ty, log, c.cells.len());
    }
}

proof fn lemma_cast_cells_stop(cells: Seq<Datum>, ty: DataType, log: Log, n: nat, m: nat)
    requires
        n <= m <= cells.len(),
        cast_cells(cells, ty, log, n) is Err,
    ensures
        cast_cells(cells, ty, log, m) == cast_cells(cells, ty, log, n),
    decreases m - n,
{
    if n < m {
        lemma_cast_cells_stop(cells, ty, log, n, (m - 1) as nat);
    }
}

/// Converts a column to a type (see [`cast_lane`]).
pub fn cast_column(col: Column, ty: DataType, host: &Answers, fails: &mut u64) -> (r: Result<Column, Ask>)
    ensures
        agree_lane(r, *old(fails), *final(fails), cast_lane(col@, ty, host@)),
{
    if matches!(ty, DataType::Null | DataType::Struct | DataType::List) {
        return Ok(col);
    }
    let ghost cells = col@.cells;
    let ghost start = *fails;
    let mut out: Vec<Value> = Vec::new();
    let ghost mut seen: nat = 0;
    assert(data(out@) =~= Seq::empty());
    for i in 0..col.cells.len()
        invariant
            cells == col@.cells,
            cells.len() == col.cells@.len(),
            !uncastable(ty),
            cast_cells(cells, ty, host@, i as nat) == Ok::<(Seq<Datum>, nat), Query>(
                (data(out@), seen),
            ),
            out@.len() == i,
            *fails == counted(start, seen),
    {
        assert(cells[i as int] == col.cells@[i as int]@);
        let v: &Value = &col.cells[i];
        let item: Result<Value, Ask> = if v.is_null() {
            Ok(Value::Null)
        } else {
            cast_value(v, ty, host, fails)
        };
        match item {
            Ok(x) => {
                let ghost before = data(out@);
                out.push(x);
                proof {
                    assert(data(out@) =~= before.push(x@));
                    seen = seen + cast_cell(cells[i as int], ty, host@)->Ok_0.1;
                }
            },
            Err(e) => {
                proof {
                    lemma_cast_cells_stop(cells, ty, host@, (i + 1) as nat, cells.len());
                }
                return Err(e);
            },
        }
    }
    Ok(Column { dtype: ty, cells: out })
}

} // verus!
