//! Row-wise evaluation of expressions.
//!
//! This is the reference interpreter: what an expression is worth in a row is
//! [`eval`], and a predicate holds in a row as [`holds`] says. Conversions that
//! do not apply give a missing value and are counted; nothing stops the run.
use vstd::prelude::*;
use crate::cast::{agree_out, cast, cast_value, clean, count, counted, render, rendered, Outcome};
use crate::chunk::{Batch, Chunk};
use crate::compare::{agree, as_float, cmp_ord, compare, compared, dec_cmp, decimal_rank, flip, flipped, numeric, rank_texts, satisfies, temporal, temporal_op, text_order};
use crate::expr::{Access, ArithOp, CmpOp, Expr, Func};
use crate::float::{float_from, float_of, truncate, truncated, F64};
use crate::func::{as_datetime, bucket_of, call_bucket, call_date, call_field, call_format, call_hops, call_text1, call_text2, call_trunc, date_func, field_func, format_func, hops_of, instant, num_value, numeric_func, of_date, of_field, of_number, of_text1, of_text2, skipped, substr_1based, taken, text1, text2, trunc_at};
use crate::host::{ask2, float_answer, get_float, Answers, Ask, HostOp, Log, Query};
use crate::nested::{deep_cell, eval_deep, eval_path, path_cell, steps};
use crate::strings::{piece_at, replace, replaced, scheme, slice_text, split_part, uri_scheme};
use crate::text::{chars_of, owned, same_text, string_of};
use crate::value::{DateTime, Datum, Decimal, Value};

verus! {

// ---------------------------------------------------------------- sequencing

/// What follows on a value, failures added up.
pub open spec fn bind(o: Outcome, f: spec_fn(Datum) -> Outcome) -> Outcome {
    match o {
        Err(e) => Err(e),
        Ok((d, n)) => match f(d) {
            Err(e) => Err(e),
            Ok((x, m)) => Ok((x, n + m)),
        },
    }
}

/// What follows on a value's text.
pub open spec fn on_text(o: Outcome, log: Log, f: spec_fn(Seq<char>) -> Outcome) -> Outcome {
    match o {
        Err(e) => Err(e),
        Ok((d, n)) => match rendered(d, log) {
            Err(e) => Err(e),
            Ok(s) => match f(s) {
                Err(e) => Err(e),
                Ok((x, m)) => Ok((x, n + m)),
            },
        },
    }
}

/// A value that is made without failures.
pub open spec fn lift(r: Result<Datum, Query>) -> Outcome {
    match r {
        Ok(d) => clean(d),
        Err(e) => Err(e),
    }
}

/// A truth value with failures, or a question to the host.
pub type Verdict = Result<(bool, nat), Query>;

/// A truth value as a value.
pub open spec fn as_datum(v: Verdict) -> Outcome {
    match v {
        Ok((b, n)) => Ok((Datum::Bool(b), n)),
        Err(e) => Err(e),
    }
}

/// Both hold; the second is only looked at where the first holds.
pub open spec fn both(a: Verdict, b: Verdict) -> Verdict {
    match a {
        Err(e) => Err(e),
        Ok((x, n)) => if !x {
            Ok((false, n))
        } else {
            match b {
                Err(e) => Err(e),
                Ok((y, m)) => Ok((y, n + m)),
            }
        },
    }
}

/// Either holds; the second is only looked at where the first does not.
pub open spec fn either(a: Verdict, b: Verdict) -> Verdict {
    match a {
        Err(e) => Err(e),
        Ok((x, n)) => if x {
            Ok((true, n))
        } else {
            match b {
                Err(e) => Err(e),
                Ok((y, m)) => Ok((y, n + m)),
            }
        },
    }
}

/// An executable truth value agrees with a verdict, failures counted.
pub open spec fn agree_verdict(r: Result<bool, Ask>, before: u64, after: u64, s: Verdict) -> bool {
    match (r, s) {
        (Ok(b), Ok((x, n))) => b == x && after == counted(before, n),
        (Err(a), Err(q)) => a@ == q,
        _ => false,
    }
}

// ---------------------------------------------------------------- fields

/// A property of the resource that a chunk came from: its uri or the uri's
/// scheme; nothing else is known of it.
pub open spec fn resource_property(uri: Seq<char>, name: Seq<char>) -> Datum {
    if name == seq!['u', 'r', 'i'] {
        Datum::Str(uri)
    } else if name == seq!['s', 'c', 'h', 'e', 'm', 'e'] {
        Datum::Str(scheme(uri))
    } else {
        Datum::Null
    }
}

/// A property of a resource (see [`resource_property`]).
pub fn resource_field(uri: &str, name: &str) -> (r: Value)
    ensures
        r@ == resource_property(uri@, name@),
{
    proof {
        reveal_strlit("uri");
        reveal_strlit("scheme");
        assert("uri"@ =~= seq!['u', 'r', 'i']);
        assert("scheme"@ =~= seq!['s', 'c', 'h', 'e', 'm', 'e']);
    }
    if same_text(name, "uri") {
        Value::Str(owned(uri))
    } else if same_text(name, "scheme") {
        Value::Str(owned(uri_scheme(uri)))
    } else {
        Value::Null
    }
}

/// The value of a flat field reference; a column that is not there is missing.
pub open spec fn field_cell(b: Batch, name: Seq<char>, access: Access, row: int) -> Datum {
    if access is Source {
        match b.source {
            Some(uri) => resource_property(uri, name),
            None => Datum::Null,
        }
    } else {
        match b.column(name) {
            Some(c) => c.cells[row],
            None => Datum::Null,
        }
    }
}

/// The value of a flat field reference (see [`field_cell`]).
pub fn eval_field(name: &str, access: Access, chunk: &Chunk, row: usize) -> (r: Value)
    requires
        chunk@.wf(),
        row < chunk.len,
    ensures
        r@ == field_cell(chunk@, name@, access, row as int),
{
    if !access.is_column() {
        return match &chunk.source {
            Some(uri) => resource_field(uri.as_str(), name),
            None => Value::Null,
        };
    }
    match chunk.column(name) {
        Some(c) => c.value_at(row),
        None => Value::Null,
    }
}

/// The characters `[start, end)` of a string cell. A missing column, a missing
/// cell and a column of another type are missing; a range that does not fit the
/// cell is missing and counted.
pub open spec fn subview_cell(b: Batch, base: Seq<char>, start: int, end: int, row: int) -> Outcome {
    match b.column(base) {
        None => clean(Datum::Null),
        Some(c) => match c.cells[row] {
            Datum::Str(s) => if start > end || end > s.len() {
                Ok((Datum::Null, 1))
            } else {
                clean(Datum::Str(s.subrange(start, end)))
            },
            _ => clean(Datum::Null),
        },
    }
}

/// The characters of a sub-view (see [`subview_cell`]).
pub fn eval_subview(base: &str, start: u32, end: u32, chunk: &Chunk, row: usize, fails: &mut u64) -> (r: Value)
    requires
        chunk@.wf(),
        row < chunk.len,
    ensures
        subview_cell(chunk@, base@, start as int, end as int, row as int) matches Ok((d, n)) && r@
            == d && *final(fails) == counted(*old(fails), n),
{
    match chunk.column(base) {
        None => Value::Null,
        Some(c) => {
            assert(c@.cells[row as int] == c.cells@[row as int]@);
            match &c.cells[row] {
                Value::Str(s) => {
                    let v: Vec<char> = chars_of(s.as_str());
                    let a: usize = start as usize;
                    let z: usize = end as usize;
                    if a > z || z > v.len() {
                        count(fails, 1);
                        Value::Null
                    } else {
                        Value::Str(string_of(&v, a, z))
                    }
                },
                _ => Value::Null,
            }
        },
    }
}

// ---------------------------------------------------------------- functions

/// The outcome of an argument; one that is not there is missing.
pub open spec fn arg(outs: Seq<Outcome>, i: int) -> Outcome {
    if 0 <= i < outs.len() {
        outs[i]
    } else {
        clean(Datum::Null)
    }
}

/// The texts of the arguments from `i` on, joined to `acc`.
pub open spec fn concat_from(outs: Seq<Outcome>, i: int, acc: Seq<char>, log: Log) -> Outcome
    decreases outs.len() - i,
{
    if i < 0 || i >= outs.len() {
        clean(Datum::Str(acc))
    } else {
        match outs[i] {
            Err(e) => Err(e),
            Ok((d, n)) => match rendered(d, log) {
                Err(e) => Err(e),
                Ok(s) => match concat_from(outs, i + 1, acc + s, log) {
                    Err(e) => Err(e),
                    Ok((x, m)) => Ok((x, n + m)),
                },
            },
        }
    }
}

/// The first argument from `i` on that is not missing; the later ones are not
/// looked at.
pub open spec fn coalesce_from(outs: Seq<Outcome>, i: int) -> Outcome
    decreases outs.len() - i,
{
    if i < 0 || i >= outs.len() {
        clean(Datum::Null)
    } else {
        match outs[i] {
            Err(e) => Err(e),
            Ok((d, n)) => if !(d is Null) {
                Ok((d, n))
            } else {
                match coalesce_from(outs, i + 1) {
                    Err(e) => Err(e),
                    Ok((x, m)) => Ok((x, n + m)),
                }
            },
        }
    }
}

/// A value's double, or `default` where it has none.
pub open spec fn number_or(d: Datum, default: F64, log: Log) -> Result<F64, Query> {
    match numeric(d, log) {
        Err(e) => Err(e),
        Ok(Some(x)) => Ok(x),
        Ok(None) => Ok(default),
    }
}

/// `substr`: the characters from a 1-based start, to the end where no count is
/// given.
pub open spec fn substr_out(outs: Seq<Outcome>, log: Log) -> Outcome {
    on_text(
        arg(outs, 0),
        log,
        |s: Seq<char>|
            bind(
                arg(outs, 1),
                |d: Datum|
                    match number_or(d, float_of(1), log) {
                        Err(e) => Err(e),
                        Ok(start) => if outs.len() <= 2 {
                            clean(Datum::Str(slice_text(s, skipped(start), u64::MAX as int)))
                        } else {
                            bind(
                                outs[2],
                                |t: Datum|
                                    match number_or(t, float_of(0), log) {
                                        Err(e) => Err(e),
                                        Ok(c) => clean(
                                            Datum::Str(slice_text(s, skipped(start), taken(c))),
                                        ),
                                    },
                            )
                        },
                    },
            ),
    )
}

/// What a function makes of the outcomes of its arguments. Arguments are looked
/// at from left to right, and only as far as the function needs them.
pub open spec fn func_out(func: Func, outs: Seq<Outcome>, log: Log) -> Outcome {
    if of_text1(func) {
        on_text(arg(outs, 0), log, |s: Seq<char>| clean(text1(func, s)))
    } else if of_text2(func) {
        on_text(
            arg(outs, 0),
            log,
            |a: Seq<char>|
                on_text(
                    arg(outs, 1),
                    log,
                    |b: Seq<char>| clean(Datum::Bool(text2(func, a, b))),
                ),
        )
    } else if of_number(func) {
        bind(arg(outs, 0), |d: Datum| lift(numeric_func(func, d, log)))
    } else if of_field(func) {
        bind(arg(outs, 0), |d: Datum| lift(field_func(func, d, log)))
    } else if of_date(func) {
        bind(arg(outs, 0), |d: Datum| lift(date_func(func, d, log)))
    } else {
        match func {
            Func::Substr => substr_out(outs, log),
            Func::Replace => on_text(
                arg(outs, 0),
                log,
                |s: Seq<char>|
                    on_text(
                        arg(outs, 1),
                        log,
                        |from: Seq<char>|
                            on_text(
                                arg(outs, 2),
                                log,
                                |to: Seq<char>| clean(Datum::Str(replaced(s, from, to))),
                            ),
                    ),
            ),
            Func::SplitPart => on_text(
                arg(outs, 0),
                log,
                |s: Seq<char>|
                    on_text(
                        arg(outs, 1),
                        log,
                        |sep: Seq<char>|
                            bind(
                                arg(outs, 2),
                                |d: Datum|
                                    match number_or(d, float_of(0), log) {
                                        Err(e) => Err(e),
                                        Ok(x) => clean(
                                            Datum::Str(piece_at(s, sep, truncated(x))),
                                        ),
                                    },
                            ),
                    ),
            ),
            Func::Concat => concat_from(outs, 0, Seq::empty(), log),
            Func::Coalesce => coalesce_from(outs, 0),
            Func::Trunc => bind(
                arg(outs, 0),
                |d: Datum|
                    match instant(d, log) {
                        Err(e) => Err(e),
                        Ok(None) => clean(Datum::Null),
                        Ok(Some(t)) => on_text(
                            arg(outs, 1),
                            log,
                            |to: Seq<char>| lift(trunc_at(t, to, log)),
                        ),
                    },
            ),
            Func::Bucket => bind(
                arg(outs, 0),
                |d: Datum|
                    match instant(d, log) {
                        Err(e) => Err(e),
                        Ok(None) => clean(Datum::Null),
                        Ok(Some(t)) => bind(
                            arg(outs, 1),
                            |w: Datum| lift(bucket_of(t, w, log)),
                        ),
                    },
            ),
            Func::Hops => bind(
                arg(outs, 0),
                |d: Datum|
                    match instant(d, log) {
                        Err(e) => Err(e),
                        Ok(None) => clean(Datum::Null),
                        Ok(Some(t)) => bind(
                            arg(outs, 1),
                            |size: Datum|
                                bind(
                                    arg(outs, 2),
                                    |hop: Datum| lift(hops_of(t, size, hop, log)),
                                ),
                        ),
                    },
            ),
            _ => bind(
                arg(outs, 0),
                |d: Datum|
                    on_text(
                        arg(outs, 1),
                        log,
                        |fmt: Seq<char>| lift(format_func(d, fmt, log)),
                    ),
            ),
        }
    }
}

// ---------------------------------------------------------------- arithmetic

/// The integer of a cell that counts in integers: a boolean is 0 or 1, what
/// holds time is its count. Any other cell is 0.
pub open spec fn whole(d: Datum) -> i64 {
    match d {
        Datum::I64(n) => n,
        Datum::Bool(b) => if b {
            1
        } else {
            0
        },
        Datum::DateTime(t) => t.ticks,
        Datum::Duration(t) => t.ticks,
        Datum::Date(t) => t.epoch_day as i64,
        Datum::Time(t) => t.ticks,
        _ => 0,
    }
}

/// The integer of a cell (see [`whole`]).
pub fn as_whole(v: &Value) -> (r: i64)
    ensures
        r == whole(v@),
{
    match v {
        Value::I64(n) => *n,
        Value::Bool(b) => if *b {
            1
        } else {
            0
        },
        Value::DateTime(t) => t.ticks,
        Value::Duration(t) => t.ticks,
        Value::Date(t) => t.epoch_day as i64,
        Value::Time(t) => t.ticks,
        _ => 0,
    }
}

/// The arithmetic of two integers, but for division: it is exact, wraps around,
/// and a zero divisor gives a missing value and is counted.
pub open spec fn whole_arith(a: i64, op: ArithOp, b: i64) -> Outcome {
    if op is Mod && b == 0 {
        Ok((Datum::Null, 1))
    } else {
        clean(Datum::I64(int_arith(a, op, b)))
    }
}

/// The arithmetic of two integers (see [`whole_arith`]).
pub fn arith_whole(a: i64, op: ArithOp, b: i64, fails: &mut u64) -> (r: Value)
    ensures
        whole_arith(a, op, b) matches Ok((d, n)) && r@ == d && *final(fails) == counted(
            *old(fails),
            n,
        ),
{
    if matches!(op, ArithOp::Mod) && b == 0 {
        count(fails, 1);
        return Value::Null;
    }
    Value::I64(arith_i64(a, op, b))
}

/// An integer operation that wraps around; the remainder by zero is 0 here.
pub open spec fn int_arith(a: i64, op: ArithOp, b: i64) -> i64 {
    match op {
        ArithOp::Add => a.wrapping_add(b),
        ArithOp::Sub => a.wrapping_sub(b),
        ArithOp::Mul => a.wrapping_mul(b),
        _ => rem_trunc(a as int, b as int) as i64,
    }
}

/// The remainder of division toward zero; 0 for a zero divisor.
pub open spec fn rem_trunc(a: int, b: int) -> int {
    let m = if b < 0 {
        -b
    } else {
        b
    };
    if b == 0 {
        0
    } else if a >= 0 {
        a % m
    } else {
        -((-a) % m)
    }
}

/// The integer operation (see [`int_arith`]).
pub fn arith_i64(a: i64, op: ArithOp, b: i64) -> (r: i64)
    ensures
        r == int_arith(a, op, b),
{
    match op {
        ArithOp::Add => a.wrapping_add(b),
        ArithOp::Sub => a.wrapping_sub(b),
        ArithOp::Mul => a.wrapping_mul(b),
        _ => {
            if b == 0 {
                return 0;
            }
            let m: i128 = if b < 0 {
                -(b as i128)
            } else {
                b as i128
            };
            if a >= 0 {
                ((a as i128) % m) as i64
            } else {
                let k: i128 = (-(a as i128)) % m;
                (-k) as i64
            }
        },
    }
}

/// Row-wise arithmetic on two values: temporal operands exactly, two integers
/// (or booleans) as an integer unless divided, everything else as doubles, and
/// a missing value where an operand is no number. A zero divisor gives a missing
/// value and is counted, as it does in columns.
pub open spec fn arith(l: Datum, op: ArithOp, r: Datum, log: Log) -> Outcome {
    match temporal(l, op, r, log) {
        Err(e) => Err(e),
        Ok(Some(d)) => clean(d),
        Ok(None) => if (l is I64 || l is Bool) && (r is I64 || r is Bool) && !(op is Div) {
            whole_arith(whole(l), op, whole(r))
        } else {
            match numeric(l, log) {
                Err(e) => Err(e),
                Ok(a) => match numeric(r, log) {
                    Err(e) => Err(e),
                    Ok(b) => match (a, b) {
                        (Some(x), Some(y)) => if (op is Div || op is Mod) && y.is_zero() {
                            Ok((Datum::Null, 1))
                        } else {
                            match float_answer(
                                log,
                                Query {
                                    op: HostOp::Arith(op),
                                    args: seq![Datum::F64(x), Datum::F64(y)],
                                },
                            ) {
                                Ok(z) => clean(Datum::F64(z)),
                                Err(e) => Err(e),
                            }
                        },
                        _ => clean(Datum::Null),
                    },
                },
            }
        },
    }
}

/// Row-wise arithmetic on two values (see [`arith`]).
pub fn arith_value(l: &Value, op: ArithOp, r: &Value, host: &Answers, fails: &mut u64) -> (out: Result<
    Value,
    Ask,
>)
    ensures
        agree_out(out, *old(fails), *final(fails), arith(l@, op, r@, host@)),
{
    match temporal_op(l, op, r, host) {
        Err(e) => {
            return Err(e);
        },
        Ok(Some(v)) => {
            return Ok(v);
        },
        Ok(None) => {},
    }
    let ints: bool = matches!(l, Value::I64(_) | Value::Bool(_)) && matches!(
        r,
        Value::I64(_) | Value::Bool(_)
    ) && !matches!(op, ArithOp::Div);
    if ints {
        return Ok(arith_whole(as_whole(l), op, as_whole(r), fails));
    }
    let a: Option<F64> = match as_float(l, host) {
        Err(e) => {
            return Err(e);
        },
        Ok(a) => a,
    };
    let b: Option<F64> = match as_float(r, host) {
        Err(e) => {
            return Err(e);
        },
        Ok(b) => b,
    };
    match (a, b) {
        (Some(x), Some(y)) => {
            if matches!(op, ArithOp::Div | ArithOp::Mod) && y.zero() {
                count(fails, 1);
                Ok(Value::Null)
            } else {
                match get_float(host, ask2(HostOp::Arith(op), Value::F64(x), Value::F64(y))) {
                    Ok(z) => Ok(Value::F64(z)),
                    Err(e) => Err(e),
                }
            }
        },
        _ => Ok(Value::Null),
    }
}

// ---------------------------------------------------------------- comparison by columns

/// Is the expression a column field whose cell is missing?
pub open spec fn null_field(e: Expr, b: Batch, row: int) -> bool {
    e matches Expr::Field { name, access } && access.column() && (b.column(name@) matches Some(c)
        && c.cells[row] is Null)
}

/// A row number as a mathematical integer.
pub open spec fn idx(i: usize) -> int {
    i as int
}

/// A place in a list as a row number.
pub open spec fn place_at(i: int) -> usize {
    i as usize
}

/// The cell of a decimal column field.
pub open spec fn decimal_field(e: Expr, b: Batch, row: int) -> Option<Decimal> {
    match e {
        Expr::Field { name, access } => if access.column() {
            match b.column(name@) {
                Some(c) => match c.cells[row] {
                    Datum::Dec(d) => Some(d),
                    _ => None,
                },
                None => None,
            }
        } else {
            None
        },
        _ => None,
    }
}

/// A literal that is an exact decimal: a decimal, an integer or a boolean.
pub open spec fn exact_literal(e: Expr) -> Option<Decimal> {
    match e {
        Expr::Literal(Value::Dec(d)) => Some(d),
        Expr::Literal(Value::I64(n)) => Some(Decimal { unscaled: n as i128, scale: 0 }),
        Expr::Literal(Value::Bool(b)) => Some(
            Decimal {
                unscaled: if b {
                    1
                } else {
                    0
                },
                scale: 0,
            },
        ),
        _ => None,
    }
}

/// The text of a string column field or a string literal.
pub open spec fn direct_text(e: Expr, b: Batch, row: int) -> Option<Seq<char>> {
    match e {
        Expr::Literal(Value::Str(s)) => Some(s@),
        Expr::Field { name, access } => if access.column() {
            match b.column(name@) {
                Some(c) => match c.cells[row] {
                    Datum::Str(s) => Some(s),
                    _ => None,
                },
                None => None,
            }
        } else {
            None
        },
        _ => None,
    }
}

/// The number of a numeric or boolean column field, or of a literal.
pub open spec fn direct_number(e: Expr, b: Batch, row: int, log: Log) -> Result<Option<F64>, Query> {
    match e {
        Expr::Literal(v) => numeric(v@, log),
        Expr::Field { name, access } => if access.column() {
            match b.column(name@) {
                Some(c) => match c.cells[row] {
                    Datum::I64(_) => numeric(c.cells[row], log),
                    Datum::F64(_) => numeric(c.cells[row], log),
                    Datum::Dec(_) => numeric(c.cells[row], log),
                    Datum::Bool(_) => numeric(c.cells[row], log),
                    _ => Ok(None),
                },
                None => Ok(None),
            }
        } else {
            Ok(None)
        },
        _ => Ok(None),
    }
}

/// The verdict of a decimal comparison.
pub open spec fn decimal_verdict(a: Decimal, op: CmpOp, b: Decimal, log: Log) -> Verdict {
    match decimal_rank(a, b, log) {
        Ok(rank) => Ok((satisfies(rank, op), 0)),
        Err(e) => Err(e),
    }
}

/// A comparison that needs no evaluation: one with a missing cell, of a decimal
/// column with an exact literal, of two texts, of two numbers. `None` for every
/// other shape.
pub open spec fn direct(l: Expr, op: CmpOp, r: Expr, b: Batch, row: int, log: Log) -> Option<Verdict> {
    if null_field(l, b, row) || null_field(r, b, row) {
        Some(Ok((false, 0)))
    } else if decimal_field(l, b, row) is Some && exact_literal(r) is Some {
        Some(decimal_verdict(decimal_field(l, b, row)->0, op, exact_literal(r)->0, log))
    } else if exact_literal(l) is Some && decimal_field(r, b, row) is Some {
        Some(decimal_verdict(decimal_field(r, b, row)->0, flipped(op), exact_literal(l)->0, log))
    } else if direct_text(l, b, row) is Some && direct_text(r, b, row) is Some {
        Some(
            Ok(
                (
                    satisfies(
                        Some(text_order(direct_text(l, b, row)->0, direct_text(r, b, row)->0)),
                        op,
                    ),
                    0,
                ),
            ),
        )
    } else {
        match direct_number(l, b, row, log) {
            Err(e) => Some(Err(e)),
            Ok(None) => None,
            Ok(Some(x)) => match direct_number(r, b, row, log) {
                Err(e) => Some(Err(e)),
                Ok(None) => None,
                Ok(Some(y)) => Some(Ok((satisfies(x.order(y), op), 0))),
            },
        }
    }
}

// ---------------------------------------------------------------- evaluation

/// The outcomes of a list of expressions in a row.
pub open spec fn eval_all(args: Vec<Expr>, b: Batch, row: int, log: Log) -> Seq<Outcome>
    decreases args, 0nat, 0nat,
{
    Seq::new(
        args@.len(),
        |i: int|
            if 0 <= i < args@.len() {
                eval(args@[i], b, row, log)
            } else {
                clean(Datum::Null)
            },
    )
}

/// The branches of a case expression from `k` on: the value of the first whose
/// condition holds, else the default, else the empty text.
pub open spec fn case_from(e: Expr, b: Batch, row: int, log: Log, k: nat) -> Outcome
    decreases e, 0nat, e->branches@.len() - k,
{
    match e {
        Expr::Case { branches, default } => if k >= branches@.len() {
            match default {
                Some(d) => eval(*d, b, row, log),
                None => clean(Datum::Str(Seq::empty())),
            }
        } else {
            match holds(branches@[k as int].0, b, row, log) {
                Err(q) => Err(q),
                Ok((x, n)) => {
                    let rest = if x {
                        eval(branches@[k as int].1, b, row, log)
                    } else {
                        case_from(e, b, row, log, k + 1)
                    };
                    match rest {
                        Err(q) => Err(q),
                        Ok((d, m)) => Ok((d, n + m)),
                    }
                },
            }
        },
        _ => clean(Datum::Null),
    }
}

/// The verdict of a comparison: directly where its shape allows it, else by the
/// values of both sides.
pub open spec fn comparison(e: Expr, b: Batch, row: int, log: Log) -> Verdict
    decreases e, 0nat, 0nat,
{
    match e {
        Expr::Compare { left, op, right } => match direct(*left, op, *right, b, row, log) {
            Some(v) => v,
            None => match eval(*left, b, row, log) {
                Err(q) => Err(q),
                Ok((x, n)) => match eval(*right, b, row, log) {
                    Err(q) => Err(q),
                    Ok((y, m)) => match compared(x, op, y, log) {
                        Err(q) => Err(q),
                        Ok(v) => Ok((v, n + m)),
                    },
                },
            },
        },
        _ => Ok((false, 0)),
    }
}

/// The value of an expression in a row.
pub open spec fn eval(e: Expr, b: Batch, row: int, log: Log) -> Outcome
    decreases e, 1nat, 0nat,
{
    match e {
        Expr::Literal(v) => clean(v@),
        Expr::Hole(_) => clean(Datum::Null),
        Expr::Field { name, access } => if access is Deep {
            deep_cell(b, name@, row)
        } else {
            clean(field_cell(b, name@, access, row))
        },
        Expr::FieldAt(i) => if i < b.columns.len() {
            clean(b.columns[i as int].cells[row])
        } else {
            Ok((Datum::Null, 1))
        },
        Expr::SubView { base, name, start, end } => subview_cell(
            b,
            base@,
            start as int,
            end as int,
            row,
        ),
        Expr::Path(p) => path_cell(b, p.root@, steps(p.segs@), row),
        Expr::Compare { left, op, right } => as_datum(comparison(e, b, row, log)),
        Expr::And(l, r) => as_datum(both(holds(*l, b, row, log), holds(*r, b, row, log))),
        Expr::Or(l, r) => as_datum(either(holds(*l, b, row, log), holds(*r, b, row, log))),
        Expr::Arith { left, op, right } => match eval(*left, b, row, log) {
            Err(q) => Err(q),
            Ok((x, n)) => match eval(*right, b, row, log) {
                Err(q) => Err(q),
                Ok((y, m)) => match arith(x, op, y, log) {
                    Err(q) => Err(q),
                    Ok((d, k)) => Ok((d, n + m + k)),
                },
            },
        },
        Expr::Cast { expr, ty } => match eval(*expr, b, row, log) {
            Err(q) => Err(q),
            Ok((x, n)) => match cast(x, ty, log) {
                Err(q) => Err(q),
                Ok((d, m)) => Ok((d, n + m)),
            },
        },
        Expr::Func { func, args } => func_out(func, eval_all(args, b, row, log), log),
        Expr::Case { branches, default } => case_from(e, b, row, log, 0),
    }
}

/// Does a predicate hold in a row?
pub open spec fn holds(e: Expr, b: Batch, row: int, log: Log) -> Verdict
    decreases e, 2nat, 0nat,
{
    match e {
        Expr::Compare { left, op, right } => comparison(e, b, row, log),
        Expr::And(l, r) => both(holds(*l, b, row, log), holds(*r, b, row, log)),
        Expr::Or(l, r) => either(holds(*l, b, row, log), holds(*r, b, row, log)),
        _ => match eval(e, b, row, log) {
            Err(q) => Err(q),
            Ok((d, n)) => Ok((d == Datum::Bool(true), n)),
        },
    }
}


// ---------------------------------------------------------------- the interpreter

/// The value of the `i`-th argument; one that is not there is missing.
fn arg_value(args: &Vec<Expr>, i: usize, chunk: &Chunk, row: usize, host: &Answers, fails: &mut u64) -> (r:
    Result<Value, Ask>)
    requires
        chunk@.wf(),
        row < chunk.len,
    ensures
        agree_out(
            r,
            *old(fails),
            *final(fails),
            arg(eval_all(*args, chunk@, row as int, host@), i as int),
        ),
    decreases *args, 0nat,
{
    if i < args.len() {
        proof {
            assert(decreases_to!(*args => args@));
            assert(decreases_to!(args@ => args@[i as int]));
            assert(eval_all(*args, chunk@, row as int, host@)[i as int] == eval(
                args@[i as int],
                chunk@,
                row as int,
                host@,
            ));
        }
        eval_acc(&args[i], chunk, row, host, fails)
    } else {
        Ok(Value::Null)
    }
}

/// The text of the `i`-th argument.
fn arg_text(args: &Vec<Expr>, i: usize, chunk: &Chunk, row: usize, host: &Answers, fails: &mut u64) -> (r:
    Result<String, Ask>)
    requires
        chunk@.wf(),
        row < chunk.len,
    ensures
        match arg(eval_all(*args, chunk@, row as int, host@), i as int) {
            Err(q) => r matches Err(a) && a@ == q,
            Ok((d, n)) => match rendered(d, host@) {
                Err(q) => r matches Err(a) && a@ == q,
                Ok(s) => r matches Ok(t) && t@ == s && *final(fails) == counted(*old(fails), n),
            },
        },
    decreases *args, 1nat,
{
    match arg_value(args, i, chunk, row, host, fails) {
        Err(e) => Err(e),
        Ok(v) => render(&v, host),
    }
}

/// The double of the `i`-th argument, or `default` where it has none.
fn arg_number(
    args: &Vec<Expr>,
    i: usize,
    default: F64,
    chunk: &Chunk,
    row: usize,
    host: &Answers,
    fails: &mut u64,
) -> (r: Result<F64, Ask>)
    requires
        chunk@.wf(),
        row < chunk.len,
    ensures
        match arg(eval_all(*args, chunk@, row as int, host@), i as int) {
            Err(q) => r matches Err(a) && a@ == q,
            Ok((d, n)) => match number_or(d, default, host@) {
                Err(q) => r matches Err(a) && a@ == q,
                Ok(x) => r matches Ok(y) && y == x && *final(fails) == counted(*old(fails), n),
            },
        },
    decreases *args, 1nat,
{
    match arg_value(args, i, chunk, row, host, fails) {
        Err(e) => Err(e),
        Ok(v) => match as_float(&v, host) {
            Err(e) => Err(e),
            Ok(Some(x)) => Ok(x),
            Ok(None) => Ok(default),
        },
    }
}

fn is_text1(func: Func) -> (r: bool)
    ensures
        r == of_text1(func),
{
    matches!(
        func,
        Func::Upper | Func::Lower | Func::Trim | Func::Len | Func::Basename | Func::Stem | Func::Dirname
    )
}

fn is_text2(func: Func) -> (r: bool)
    ensures
        r == of_text2(func),
{
    matches!(
        func,
        Func::Contains | Func::StartsWith | Func::EndsWith | Func::Like | Func::Glob | Func::Regexp
    )
}

fn is_number(func: Func) -> (r: bool)
    ensures
        r == of_number(func),
{
    matches!(func, Func::Abs | Func::Round | Func::Floor | Func::Ceil)
}

fn is_field(func: Func) -> (r: bool)
    ensures
        r == of_field(func),
{
    matches!(
        func,
        Func::Year | Func::Month | Func::Day | Func::Hour | Func::Minute | Func::Second
    )
}

fn is_date(func: Func) -> (r: bool)
    ensures
        r == of_date(func),
{
    matches!(func, Func::Weekday | Func::IsWeekend | Func::Date | Func::Time)
}

/// `substr` (see [`substr_out`]).
fn call_substr(args: &Vec<Expr>, chunk: &Chunk, row: usize, host: &Answers, fails: &mut u64) -> (r: Result<
    Value,
    Ask,
>)
    requires
        chunk@.wf(),
        row < chunk.len,
    ensures
        agree_out(
            r,
            *old(fails),
            *final(fails),
            substr_out(eval_all(*args, chunk@, row as int, host@), host@),
        ),
    decreases *args, 2nat,
{
    let s: String = match arg_text(args, 0, chunk, row, host, fails) {
        Err(e) => {
            return Err(e);
        },
        Ok(s) => s,
    };
    let start: F64 = match arg_number(args, 1, float_from(1), chunk, row, host, fails) {
        Err(e) => {
            return Err(e);
        },
        Ok(x) => x,
    };
    if args.len() <= 2 {
        return Ok(Value::Str(substr_1based(s.as_str(), start, u64::MAX)));
    }
    match arg_number(args, 2, float_from(0), chunk, row, host, fails) {
        Err(e) => Err(e),
        Ok(c) => {
            let n: i64 = truncate(c);
            let take: u64 = if n < 0 {
                0
            } else {
                n as u64
            };
            Ok(Value::Str(substr_1based(s.as_str(), start, take)))
        },
    }
}

/// The functions of texts that take more than a table entry: `replace` and
/// `split_part`.
fn call_text3(func: Func, args: &Vec<Expr>, chunk: &Chunk, row: usize, host: &Answers, fails: &mut u64) -> (r:
    Result<Value, Ask>)
    requires
        chunk@.wf(),
        row < chunk.len,
        func is Replace || func is SplitPart,
    ensures
        agree_out(
            r,
            *old(fails),
            *final(fails),
            func_out(func, eval_all(*args, chunk@, row as int, host@), host@),
        ),
    decreases *args, 2nat,
{
    let s: String = match arg_text(args, 0, chunk, row, host, fails) {
        Err(e) => {
            return Err(e);
        },
        Ok(s) => s,
    };
    let t: String = match arg_text(args, 1, chunk, row, host, fails) {
        Err(e) => {
            return Err(e);
        },
        Ok(t) => t,
    };
    if let Func::Replace = func {
        match arg_text(args, 2, chunk, row, host, fails) {
            Err(e) => Err(e),
            Ok(to) => Ok(Value::Str(replace(s.as_str(), t.as_str(), to.as_str()))),
        }
    } else {
        match arg_number(args, 2, float_from(0), chunk, row, host, fails) {
            Err(e) => Err(e),
            Ok(x) => Ok(Value::Str(split_part(s.as_str(), t.as_str(), truncate(x)))),
        }
    }
}

/// The functions of an instant and further arguments: `trunc`, `bucket`, `hops`.
fn call_instant(func: Func, args: &Vec<Expr>, chunk: &Chunk, row: usize, host: &Answers, fails: &mut u64) -> (r:
    Result<Value, Ask>)
    requires
        chunk@.wf(),
        row < chunk.len,
        func is Trunc || func is Bucket || func is Hops,
    ensures
        agree_out(
            r,
            *old(fails),
            *final(fails),
            func_out(func, eval_all(*args, chunk@, row as int, host@), host@),
        ),
    decreases *args, 2nat,
{
    let v: Value = match arg_value(args, 0, chunk, row, host, fails) {
        Err(e) => {
            return Err(e);
        },
        Ok(v) => v,
    };
    let t: DateTime = match as_datetime(&v, host) {
        Err(e) => {
            return Err(e);
        },
        Ok(None) => {
            return Ok(Value::Null);
        },
        Ok(Some(t)) => t,
    };
    match func {
        Func::Trunc => match arg_text(args, 1, chunk, row, host, fails) {
            Err(e) => Err(e),
            Ok(to) => call_trunc(t, to.as_str(), host),
        },
        Func::Bucket => match arg_value(args, 1, chunk, row, host, fails) {
            Err(e) => Err(e),
            Ok(w) => call_bucket(t, &w, host),
        },
        _ => match arg_value(args, 1, chunk, row, host, fails) {
            Err(e) => Err(e),
            Ok(size) => match arg_value(args, 2, chunk, row, host, fails) {
                Err(e) => Err(e),
                Ok(hop) => call_hops(t, &size, &hop, host),
            },
        },
    }
}

proof fn lemma_concat_step(outs: Seq<Outcome>, i: int, acc: Seq<char>, log: Log)
    requires
        0 <= i < outs.len(),
    ensures
        match outs[i] {
            Err(q) => concat_from(outs, i, acc, log) == Err::<(Datum, nat), Query>(q),
            Ok((d, n)) => match rendered(d, log) {
                Err(q) => concat_from(outs, i, acc, log) == Err::<(Datum, nat), Query>(q),
                Ok(s) => match (concat_from(outs, i, acc, log), concat_from(outs, i + 1, acc + s, log)) {
                    (Ok((x, a)), Ok((y, b))) => x == y && a == n + b,
                    (Err(q), Err(p)) => q == p,
                    _ => false,
                },
            },
        },
{
}

/// The texts of all arguments, joined.
#[verifier::rlimit(40)]
fn call_concat(args: &Vec<Expr>, chunk: &Chunk, row: usize, host: &Answers, fails: &mut u64) -> (r: Result<
    Value,
    Ask,
>)
    requires
        chunk@.wf(),
        row < chunk.len,
    ensures
        agree_out(
            r,
            *old(fails),
            *final(fails),
            concat_from(eval_all(*args, chunk@, row as int, host@), 0, Seq::empty(), host@),
        ),
    decreases *args, 2nat,
{
    let ghost outs = eval_all(*args, chunk@, row as int, host@);
    let ghost before = *fails;
    let ghost mut seen: nat = 0;
    let mut acc: String = String::new();
    for i in 0..args.len()
        invariant
            chunk@.wf(),
            row < chunk.len,
            outs == eval_all(*args, chunk@, row as int, host@),
            outs.len() == args@.len(),
            before == *old(fails),
            *fails == counted(before, seen),
            match (concat_from(outs, 0, Seq::empty(), host@), concat_from(
                outs,
                i as int,
                acc@,
                host@,
            )) {
                (Ok((x, n)), Ok((y, m))) => x == y && n == seen + m,
                (Err(q), Err(p)) => q == p,
                _ => false,
            },
    {
        match arg_text(args, i, chunk, row, host, fails) {
            Err(e) => {
                proof {
                    lemma_concat_step(outs, i as int, acc@, host@);
                }
                return Err(e);
            },
            Ok(s) => {
                proof {
                    lemma_concat_step(outs, i as int, acc@, host@);
                    seen = seen + outs[i as int]->Ok_0.1;
                }
                acc.push_str(s.as_str());
            },
        }
    }
    Ok(Value::Str(acc))
}

/// The first argument that is not missing.
fn call_coalesce(args: &Vec<Expr>, chunk: &Chunk, row: usize, host: &Answers, fails: &mut u64) -> (r: Result<
    Value,
    Ask,
>)
    requires
        chunk@.wf(),
        row < chunk.len,
    ensures
        agree_out(
            r,
            *old(fails),
            *final(fails),
            coalesce_from(eval_all(*args, chunk@, row as int, host@), 0),
        ),
    decreases *args, 2nat,
{
    let ghost outs = eval_all(*args, chunk@, row as int, host@);
    let ghost before = *fails;
    let ghost mut seen: nat = 0;
    for i in 0..args.len()
        invariant
            chunk@.wf(),
            row < chunk.len,
            outs == eval_all(*args, chunk@, row as int, host@),
            outs.len() == args@.len(),
            before == *old(fails),
            *fails == counted(before, seen),
            match (coalesce_from(outs, 0), coalesce_from(outs, i as int)) {
                (Ok((x, n)), Ok((y, m))) => x == y && n == seen + m,
                (Err(q), Err(p)) => q == p,
                _ => false,
            },
    {
        match arg_value(args, i, chunk, row, host, fails) {
            Err(e) => {
                return Err(e);
            },
            Ok(v) => {
                if !v.is_null() {
                    return Ok(v);
                }
                proof {
                    seen = seen + outs[i as int]->Ok_0.1;
                }
            },
        }
    }
    Ok(Value::Null)
}

/// Applies a scalar function to its arguments in a row (see [`func_out`]).
pub fn call_func(func: Func, args: &Vec<Expr>, chunk: &Chunk, row: usize, host: &Answers, fails: &mut u64) -> (r:
    Result<Value, Ask>)
    requires
        chunk@.wf(),
        row < chunk.len,
    ensures
        agree_out(
            r,
            *old(fails),
            *final(fails),
            func_out(func, eval_all(*args, chunk@, row as int, host@), host@),
        ),
    decreases *args, 3nat,
{
    if is_text1(func) {
        return match arg_text(args, 0, chunk, row, host, fails) {
            Err(e) => Err(e),
            Ok(s) => Ok(call_text1(func, s.as_str())),
        };
    }
    if is_text2(func) {
        return match arg_text(args, 0, chunk, row, host, fails) {
            Err(e) => Err(e),
            Ok(a) => match arg_text(args, 1, chunk, row, host, fails) {
                Err(e) => Err(e),
                Ok(b) => Ok(Value::Bool(call_text2(func, a.as_str(), b.as_str()))),
            },
        };
    }
    if is_number(func) || is_field(func) || is_date(func) {
        return match arg_value(args, 0, chunk, row, host, fails) {
            Err(e) => Err(e),
            Ok(v) => if is_number(func) {
                num_value(func, &v, host)
            } else if is_field(func) {
                call_field(func, &v, host)
            } else {
                call_date(func, &v, host)
            },
        };
    }
    match func {
        Func::Substr => call_substr(args, chunk, row, host, fails),
        Func::Replace | Func::SplitPart => call_text3(func, args, chunk, row, host, fails),
        Func::Concat => call_concat(args, chunk, row, host, fails),
        Func::Coalesce => call_coalesce(args, chunk, row, host, fails),
        Func::Trunc | Func::Bucket | Func::Hops => call_instant(
            func,
            args,
            chunk,
            row,
            host,
            fails,
        ),
        _ => match arg_value(args, 0, chunk, row, host, fails) {
            Err(e) => Err(e),
            Ok(v) => match arg_text(args, 1, chunk, row, host, fails) {
                Err(e) => Err(e),
                Ok(fmt) => call_format(&v, fmt.as_str(), host),
            },
        },
    }
}

/// Is the expression a column field whose cell is missing?
pub fn field_is_null(e: &Expr, chunk: &Chunk, row: usize) -> (r: bool)
    requires
        chunk@.wf(),
        row < chunk.len,
    ensures
        r == null_field(*e, chunk@, row as int),
{
    match e {
        Expr::Field { name, access } => {
            if !access.is_column() {
                return false;
            }
            match chunk.column(name.as_str()) {
                Some(c) => c.is_null(row),
                None => false,
            }
        },
        _ => false,
    }
}

fn dec_cell(e: &Expr, chunk: &Chunk, row: usize) -> (r: Option<Decimal>)
    requires
        chunk@.wf(),
        row < chunk.len,
    ensures
        r == decimal_field(*e, chunk@, row as int),
{
    match e {
        Expr::Field { name, access } => {
            if !access.is_column() {
                return None;
            }
            match chunk.column(name.as_str()) {
                Some(c) => {
                    assert(c@.cells[row as int] == c.cells@[row as int]@);
                    match &c.cells[row] {
                        Value::Dec(d) => Some(*d),
                        _ => None,
                    }
                },
                None => None,
            }
        },
        _ => None,
    }
}

fn literal_decimal(e: &Expr) -> (r: Option<Decimal>)
    ensures
        r == exact_literal(*e),
{
    match e {
        Expr::Literal(Value::Dec(d)) => Some(*d),
        Expr::Literal(Value::I64(n)) => Some(Decimal { unscaled: *n as i128, scale: 0 }),
        Expr::Literal(Value::Bool(b)) => Some(
            Decimal {
                unscaled: if *b {
                    1
                } else {
                    0
                },
                scale: 0,
            },
        ),
        _ => None,
    }
}

/// Compares a decimal column with an exact literal, in either order; `None` for
/// every other shape.
fn dec_field_vs_literal(l: &Expr, op: CmpOp, r: &Expr, chunk: &Chunk, row: usize, host: &Answers) -> (out:
    Option<Result<bool, Ask>>)
    requires
        chunk@.wf(),
        row < chunk.len,
    ensures
        ({
            let a = decimal_field(*l, chunk@, idx(row));
            let z = decimal_field(*r, chunk@, idx(row));
            if a is Some && exact_literal(*r) is Some {
                out is Some && agree_verdict(
                    out->0,
                    0,
                    0,
                    decimal_verdict(a->0, op, exact_literal(*r)->0, host@),
                )
            } else if exact_literal(*l) is Some && z is Some {
                out is Some && agree_verdict(
                    out->0,
                    0,
                    0,
                    decimal_verdict(z->0, flipped(op), exact_literal(*l)->0, host@),
                )
            } else {
                out is None
            }
        }),
{
    if let (Some(d), Some(lit)) = (dec_cell(l, chunk, row), literal_decimal(r)) {
        return Some(dec_cmp(d.unscaled, d.scale, op, &lit, host));
    }
    if let (Some(lit), Some(d)) = (literal_decimal(l), dec_cell(r, chunk, row)) {
        return Some(dec_cmp(d.unscaled, d.scale, flip(op), &lit, host));
    }
    None
}

/// The text of a string column field or a string literal, borrowed.
fn as_str<'a>(e: &'a Expr, chunk: &'a Chunk, row: usize) -> (r: Option<&'a str>)
    requires
        chunk@.wf(),
        row < chunk.len,
    ensures
        match (r, direct_text(*e, chunk@, row as int)) {
            (Some(s), Some(t)) => s@ == t,
            (None, None) => true,
            _ => false,
        },
{
    match e {
        Expr::Literal(Value::Str(s)) => Some(s.as_str()),
        Expr::Field { name, access } => {
            if !access.is_column() {
                return None;
            }
            match chunk.column(name.as_str()) {
                Some(c) => {
                    assert(c@.cells[row as int] == c.cells@[row as int]@);
                    match &c.cells[row] {
                        Value::Str(s) => Some(s.as_str()),
                        _ => None,
                    }
                },
                None => None,
            }
        },
        _ => None,
    }
}

/// The number of a numeric or boolean column field, or of a literal.
fn as_num(e: &Expr, chunk: &Chunk, row: usize, host: &Answers) -> (r: Result<Option<F64>, Ask>)
    requires
        chunk@.wf(),
        row < chunk.len,
    ensures
        agree(r, direct_number(*e, chunk@, row as int, host@), |a, b| a == b),
{
    match e {
        Expr::Literal(v) => as_float(v, host),
        Expr::Field { name, access } => {
            if !access.is_column() {
                return Ok(None);
            }
            match chunk.column(name.as_str()) {
                Some(c) => {
                    assert(c@.cells[row as int] == c.cells@[row as int]@);
                    let v: &Value = &c.cells[row];
                    match v {
                        Value::I64(_) => as_float(v, host),
                        Value::F64(_) => as_float(v, host),
                        Value::Dec(_) => as_float(v, host),
                        Value::Bool(_) => as_float(v, host),
                        _ => Ok(None),
                    }
                },
                None => Ok(None),
            }
        },
        _ => Ok(None),
    }
}

/// A comparison that needs no evaluation (see [`direct`]); `None` for every
/// other shape.
fn compare_direct(l: &Expr, op: CmpOp, r: &Expr, chunk: &Chunk, row: usize, host: &Answers) -> (out: Option<
    Result<bool, Ask>,
>)
    requires
        chunk@.wf(),
        row < chunk.len,
    ensures
        match (out, direct(*l, op, *r, chunk@, idx(row), host@)) {
            (Some(x), Some(v)) => agree_verdict(x, 0, 0, v),
            (None, None) => true,
            _ => false,
        },
{
    if field_is_null(l, chunk, row) || field_is_null(r, chunk, row) {
        return Some(Ok(false));
    }
    match dec_field_vs_literal(l, op, r, chunk, row, host) {
        Some(x) => {
            return Some(x);
        },
        None => {},
    }
    if let (Some(a), Some(b)) = (as_str(l, chunk, row), as_str(r, chunk, row)) {
        return Some(Ok(cmp_ord(Some(rank_texts(a, b)), op)));
    }
    match as_num(l, chunk, row, host) {
        Err(e) => Some(Err(e)),
        Ok(None) => None,
        Ok(Some(x)) => match as_num(r, chunk, row, host) {
            Err(e) => Some(Err(e)),
            Ok(None) => None,
            Ok(Some(y)) => Some(Ok(cmp_ord(x.compare(y), op))),
        },
    }
}

/// Compares two sub-expressions in a row: directly where their shapes allow it,
/// else by their values (see [`comparison`]).
fn compare_fast(e: &Expr, chunk: &Chunk, row: usize, host: &Answers, fails: &mut u64) -> (r: Result<bool, Ask>)
    requires
        chunk@.wf(),
        row < chunk.len,
        e is Compare,
    ensures
        agree_verdict(r, *old(fails), *final(fails), comparison(*e, chunk@, row as int, host@)),
    decreases *e, 0nat,
{
    match e {
        Expr::Compare { left, op, right } => {
            match compare_direct(left, *op, right, chunk, row, host) {
                Some(x) => {
                    return x;
                },
                None => {},
            }
            let l: Value = match eval_acc(left, chunk, row, host, fails) {
                Err(q) => {
                    return Err(q);
                },
                Ok(l) => l,
            };
            let r: Value = match eval_acc(right, chunk, row, host, fails) {
                Err(q) => {
                    return Err(q);
                },
                Ok(r) => r,
            };
            compare(&l, *op, &r, host)
        },
        _ => Ok(false),
    }
}

/// The branches of a case expression (see [`case_from`]).
fn eval_case(e: &Expr, chunk: &Chunk, row: usize, host: &Answers, fails: &mut u64) -> (r: Result<Value, Ask>)
    requires
        chunk@.wf(),
        row < chunk.len,
        e is Case,
    ensures
        agree_out(r, *old(fails), *final(fails), case_from(*e, chunk@, row as int, host@, 0)),
    decreases *e, 0nat,
{
    match e {
        Expr::Case { branches, default } => {
            let ghost before = *fails;
            let ghost mut seen: nat = 0;
            for k in 0..branches.len()
                invariant
                    chunk@.wf(),
                    row < chunk.len,
                    before == *old(fails),
                    *e == (Expr::Case { branches: *branches, default: *default }),
                    *fails == counted(before, seen),
                    match (case_from(*e, chunk@, row as int, host@, 0), case_from(
                        *e,
                        chunk@,
                        row as int,
                        host@,
                        k as nat,
                    )) {
                        (Ok((x, n)), Ok((y, m))) => x == y && n == seen + m,
                        (Err(q), Err(p)) => q == p,
                        _ => false,
                    },
            {
                proof {
                    assert(decreases_to!(*e => e->branches));
                    assert(decreases_to!(e->branches => e->branches@));
                    assert(decreases_to!(branches@ => branches@[k as int]));
                    assert(decreases_to!(branches@[k as int] => branches@[k as int].0));
                    assert(decreases_to!(branches@[k as int] => branches@[k as int].1));
                }
                match eval_predicate_acc(&branches[k].0, chunk, row, host, fails) {
                    Err(q) => {
                        return Err(q);
                    },
                    Ok(yes) => {
                        proof {
                            seen = seen + holds(
                                branches@[k as int].0,
                                chunk@,
                                row as int,
                                host@,
                            )->Ok_0.1;
                        }
                        if yes {
                            let ghost mid = *fails;
                            let out: Result<Value, Ask> = eval_acc(
                                &branches[k].1,
                                chunk,
                                row,
                                host,
                                fails,
                            );
                            assert(agree_out(
                                out,
                                mid,
                                *fails,
                                eval(branches@[k as int].1, chunk@, row as int, host@),
                            ));
                            return out;
                        }
                    },
                }
            }
            match default {
                Some(d) => eval_acc(d, chunk, row, host, fails),
                None => Ok(Value::Str(String::new())),
            }
        },
        _ => Ok(Value::Null),
    }
}

/// The value of an expression in a row (see [`eval`]); `fails` counts what did
/// not convert.
pub fn eval_acc(e: &Expr, chunk: &Chunk, row: usize, host: &Answers, fails: &mut u64) -> (r: Result<Value, Ask>)
    requires
        chunk@.wf(),
        row < chunk.len,
    ensures
        agree_out(r, *old(fails), *final(fails), eval(*e, chunk@, row as int, host@)),
    decreases *e, 1nat,
{
    match e {
        Expr::Literal(v) => Ok(v.dup()),
        Expr::Hole(_) => Ok(Value::Null),
        Expr::Field { name, access } => {
            if let Access::Deep = *access {
                return Ok(eval_deep(name.as_str(), chunk, row, fails));
            }
            Ok(eval_field(name.as_str(), *access, chunk, row))
        },
        Expr::FieldAt(i) => {
            let k: usize = *i as usize;
            if k < chunk.columns.len() {
                Ok(chunk.value(row, k))
            } else {
                count(fails, 1);
                Ok(Value::Null)
            }
        },
        Expr::SubView { base, name: _, start, end } => Ok(
            eval_subview(base.as_str(), *start, *end, chunk, row, fails),
        ),
        Expr::Path(p) => Ok(eval_path(p.root.as_str(), &p.segs, chunk, row, fails)),
        Expr::Compare { .. } => match compare_fast(e, chunk, row, host, fails) {
            Ok(b) => Ok(Value::Bool(b)),
            Err(q) => Err(q),
        },
        Expr::And(l, r) => match eval_predicate_acc(l, chunk, row, host, fails) {
            Err(q) => Err(q),
            Ok(false) => Ok(Value::Bool(false)),
            Ok(true) => match eval_predicate_acc(r, chunk, row, host, fails) {
                Err(q) => Err(q),
                Ok(b) => Ok(Value::Bool(b)),
            },
        },
        Expr::Or(l, r) => match eval_predicate_acc(l, chunk, row, host, fails) {
            Err(q) => Err(q),
            Ok(true) => Ok(Value::Bool(true)),
            Ok(false) => match eval_predicate_acc(r, chunk, row, host, fails) {
                Err(q) => Err(q),
                Ok(b) => Ok(Value::Bool(b)),
            },
        },
        Expr::Arith { left, op, right } => {
            let l: Value = match eval_acc(left, chunk, row, host, fails) {
                Err(q) => {
                    return Err(q);
                },
                Ok(l) => l,
            };
            let r: Value = match eval_acc(right, chunk, row, host, fails) {
                Err(q) => {
                    return Err(q);
                },
                Ok(r) => r,
            };
            arith_value(&l, *op, &r, host, fails)
        },
        Expr::Cast { expr, ty } => match eval_acc(expr, chunk, row, host, fails) {
            Err(q) => Err(q),
            Ok(v) => cast_value(&v, *ty, host, fails),
        },
        Expr::Func { func, args } => call_func(*func, args, chunk, row, host, fails),
        Expr::Case { .. } => eval_case(e, chunk, row, host, fails),
    }
}

/// Does a predicate hold in a row (see [`holds`])?
pub fn eval_predicate_acc(e: &Expr, chunk: &Chunk, row: usize, host: &Answers, fails: &mut u64) -> (r: Result<
    bool,
    Ask,
>)
    requires
        chunk@.wf(),
        row < chunk.len,
    ensures
        agree_verdict(r, *old(fails), *final(fails), holds(*e, chunk@, row as int, host@)),
    decreases *e, 2nat,
{
    match e {
        Expr::Compare { .. } => compare_fast(e, chunk, row, host, fails),
        Expr::And(l, r) => match eval_predicate_acc(l, chunk, row, host, fails) {
            Err(q) => Err(q),
            Ok(false) => Ok(false),
            Ok(true) => eval_predicate_acc(r, chunk, row, host, fails),
        },
        Expr::Or(l, r) => match eval_predicate_acc(l, chunk, row, host, fails) {
            Err(q) => Err(q),
            Ok(true) => Ok(true),
            Ok(false) => eval_predicate_acc(r, chunk, row, host, fails),
        },
        _ => match eval_acc(e, chunk, row, host, fails) {
            Err(q) => Err(q),
            Ok(v) => Ok(matches!(v, Value::Bool(true))),
        },
    }
}

/// Does a predicate hold in a row? Failures are not counted.
pub fn eval_predicate(e: &Expr, chunk: &Chunk, row: usize, host: &Answers) -> (r: Result<bool, Ask>)
    requires
        chunk@.wf(),
        row < chunk.len,
    ensures
        agree(
            r,
            holds(*e, chunk@, row as int, host@),
            |a: bool, b: (bool, nat)| a == b.0,
        ),
{
    let mut fails: u64 = 0;
    eval_predicate_acc(e, chunk, row, host, &mut fails)
}

// ---------------------------------------------------------------- laws

/// A flat column reference, or a literal that is no instant and no span.
pub open spec fn plain(e: Expr) -> bool {
    match e {
        Expr::Field { name, access } => access is Fast || access is Dynamic,
        Expr::Literal(v) => !(v@ is DateTime) && !(v@ is Duration),
        _ => false,
    }
}

/// The value of a flat column reference or a literal.
pub open spec fn plain_value(e: Expr, b: Batch, row: int) -> Datum {
    match e {
        Expr::Field { name, access } => field_cell(b, name@, access, row),
        Expr::Literal(v) => v@,
        _ => Datum::Null,
    }
}

proof fn lemma_plain_eval(e: Expr, b: Batch, row: int, log: Log)
    requires
        plain(e),
    ensures
        eval(e, b, row, log) == clean(plain_value(e, b, row)),
{
}

proof fn lemma_direct_text_value(e: Expr, b: Batch, row: int)
    requires
        plain(e),
    ensures
        direct_text(e, b, row) matches Some(s) ==> plain_value(e, b, row) == Datum::Str(s),
        null_field(e, b, row) ==> plain_value(e, b, row) is Null,
{
}

proof fn lemma_direct_number_value(e: Expr, b: Batch, row: int, log: Log)
    requires
        plain(e),
    ensures
        !(direct_number(e, b, row, log) == Ok::<Option<F64>, Query>(None)) ==> direct_number(
            e,
            b,
            row,
            log,
        ) == numeric(plain_value(e, b, row), log) && !(plain_value(e, b, row) is Str) && !(
        plain_value(e, b, row) is DateTime) && !(plain_value(e, b, row) is Duration) && !(
        plain_value(e, b, row) is Null),
{
}

proof fn lemma_compared_numbers(x: Datum, op: CmpOp, y: Datum, log: Log, a: F64, c: F64)
    requires
        !(x is Null) && !(x is Str) && !(x is DateTime) && !(x is Duration),
        !(y is Null) && !(y is Str) && !(y is DateTime) && !(y is Duration),
        numeric(x, log) == Ok::<Option<F64>, Query>(Some(a)),
        numeric(y, log) == Ok::<Option<F64>, Query>(Some(c)),
    ensures
        compared(x, op, y, log) == Ok::<bool, Query>(satisfies(a.order(c), op)),
{
}

/// A comparison that is decided directly comes out as the general comparison of
/// both values does, except that a decimal column meets an exact literal
/// exactly and not by doubles.
pub proof fn lemma_direct_agrees(l: Expr, op: CmpOp, r: Expr, b: Batch, row: int, log: Log)
    requires
        plain(l),
        plain(r),
        decimal_field(l, b, row) is None || exact_literal(r) is None,
        exact_literal(l) is None || decimal_field(r, b, row) is None,
    ensures
        direct(l, op, r, b, row, log) matches Some(Ok((verdict, fails))) ==> {
            &&& fails == 0
            &&& eval(l, b, row, log) == clean(plain_value(l, b, row))
            &&& eval(r, b, row, log) == clean(plain_value(r, b, row))
            &&& compared(plain_value(l, b, row), op, plain_value(r, b, row), log) == Ok::<
                bool,
                Query,
            >(verdict)
        },
{
    lemma_plain_eval(l, b, row, log);
    lemma_plain_eval(r, b, row, log);
    lemma_direct_text_value(l, b, row);
    lemma_direct_text_value(r, b, row);
    lemma_direct_number_value(l, b, row, log);
    lemma_direct_number_value(r, b, row, log);
    if null_field(l, b, row) || null_field(r, b, row) {
    } else if direct_text(l, b, row) is Some && direct_text(r, b, row) is Some {
    } else if direct(l, op, r, b, row, log) matches Some(Ok(_)) {
        lemma_compared_numbers(
            plain_value(l, b, row),
            op,
            plain_value(r, b, row),
            log,
            direct_number(l, b, row, log)->Ok_0->0,
            direct_number(r, b, row, log)->Ok_0->0,
        );
    }
}

/// A comparison with a missing column cell never holds.
pub proof fn lemma_null_cell_never_holds(l: Expr, op: CmpOp, r: Expr, b: Batch, row: int, log: Log)
    requires
        null_field(l, b, row) || null_field(r, b, row),
    ensures
        holds(Expr::Compare { left: Box::new(l), op, right: Box::new(r) }, b, row, log)
            == Ok::<(bool, nat), Query>((false, 0)),
{
    let e = Expr::Compare { left: Box::new(l), op, right: Box::new(r) };
    assert(comparison(e, b, row, log) == direct(l, op, r, b, row, log)->0);
    assert(holds(e, b, row, log) == comparison(e, b, row, log));
}

} // verus!
