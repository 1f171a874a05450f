//! Columnar evaluation: whole columns from expressions and from row values.
use vstd::prelude::*;
use crate::cast::{agree_lane, cast_column, cast_lane, clean, count, counted, integral, lemma_cast_lane_typed, render, rendered, to_i64, Cells, LaneOut, Outcome};
use crate::chunk::{index_in, Batch, Chunk, Column, Lane};
use crate::compare::{agree, as_float, numeric, temporal, temporal_op};
use crate::eval::{eval, eval_acc, eval_predicate, holds, arith_whole, as_whole, resource_field, resource_property, whole, whole_arith};
use crate::expr::{Access, ArithOp, Expr, Func};
use crate::float::{float_from, float_of, F64};
use crate::func::{of_field, of_text2};
use crate::host::{ask1, ask2, float_answer, get_float, get_maybe_float, maybe_float_answer, Answers, Ask, HostOp, Log, Query};
use crate::nested::{lemma_total_append, total};
use crate::pattern::{regex_outcome, regexp_match};
use crate::strings::{trim, trimmed};
use crate::value::{data, fits, DataType, DateTime, Datum, Duration, TimeOfDay, TimeUnit, Value};

verus! {

// ---------------------------------------------------------------- cells one after another

/// The cells `f(0), .., f(n - 1)`, failures added up; the first question stops.
pub open spec fn cells_from(f: spec_fn(int) -> Outcome, n: nat) -> Cells
    decreases n,
{
    if n == 0 {
        Ok((Seq::empty(), 0))
    } else {
        match cells_from(f, (n - 1) as nat) {
            Err(e) => Err(e),
            Ok((s, k)) => match f(n - 1) {
                Err(e) => Err(e),
                Ok((d, m)) => Ok((s.push(d), k + m)),
            },
        }
    }
}

/// The cells made have the length asked for, and each is what `f` says.
pub proof fn lemma_cells_from(f: spec_fn(int) -> Outcome, n: nat)
    ensures
        cells_from(f, n) matches Ok((s, _)) ==> s.len() == n && (forall|i: int|
            0 <= i < n ==> (#[trigger] f(i) matches Ok((d, _)) && d == s[i])),
    decreases n,
{
    if n > 0 {
        lemma_cells_from(f, (n - 1) as nat);
    }
}

/// A question met early is the outcome.
pub proof fn lemma_cells_stop(f: spec_fn(int) -> Outcome, n: nat, m: nat)
    requires
        n <= m,
        cells_from(f, n) is Err,
    ensures
        cells_from(f, m) == cells_from(f, n),
    decreases m - n,
{
    if n < m {
        lemma_cells_stop(f, n, (m - 1) as nat);
    }
}

/// Executable cells agree with their specification, failures counted.
pub open spec fn agree_cells(r: Result<Vec<Value>, Ask>, before: u64, after: u64, s: Cells) -> bool {
    match (r, s) {
        (Ok(v), Ok((c, n))) => data(v@) == c && after == counted(before, n),
        (Err(a), Err(q)) => a@ == q,
        _ => false,
    }
}

// ---------------------------------------------------------------- lanes of values

/// The kind of a value, ordered so that every numeric type is an interval.
pub open spec fn kind(d: Datum) -> int {
    match d {
        Datum::Null => 0,
        Datum::Bool(_) => 1,
        Datum::I64(_) => 2,
        Datum::F64(_) => 3,
        Datum::List(_) => 4,
        Datum::DateTime(_) => 5,
        Datum::Duration(_) => 6,
        Datum::Date(_) => 7,
        Datum::Time(_) => 8,
        _ => 9,
    }
}

fn kind_of(v: &Value) -> (r: u8)
    ensures
        r == kind(v@),
{
    match v {
        Value::Null => 0,
        Value::Bool(_) => 1,
        Value::I64(_) => 2,
        Value::F64(_) => 3,
        Value::List(_) => 4,
        Value::DateTime(_) => 5,
        Value::Duration(_) => 6,
        Value::Date(_) => 7,
        Value::Time(_) => 8,
        _ => 9,
    }
}

/// Is some value present, and is every present one of a kind from `lo` to `hi`?
pub open spec fn within(vals: Seq<Datum>, lo: int, hi: int) -> bool {
    &&& exists|i: int| 0 <= i < vals.len() && !(#[trigger] vals[i] is Null)
    &&& forall|i: int|
        0 <= i < vals.len() ==> (#[trigger] vals[i] is Null) || lo <= kind(vals[i]) <= hi
}

fn all_within(vals: &Vec<Value>, lo: u8, hi: u8) -> (r: bool)
    ensures
        r == within(data(vals@), lo as int, hi as int),
{
    let ghost d = data(vals@);
    let mut some: bool = false;
    for i in 0..vals.len()
        invariant
            d == data(vals@),
            some == (exists|k: int| 0 <= k < i && !(#[trigger] d[k] is Null)),
            forall|k: int|
                0 <= k < i ==> (#[trigger] d[k] is Null) || lo as int <= kind(d[k]) <= hi as int,
    {
        assert(d[i as int] == vals@[i as int]@);
        let k: u8 = kind_of(&vals[i]);
        if k != 0 {
            if k < lo || k > hi {
                return false;
            }
            some = true;
        }
    }
    some
}

/// The first value that is present.
pub open spec fn first_present(vals: Seq<Datum>) -> Datum
    decreases vals.len(),
{
    if vals.len() == 0 {
        Datum::Null
    } else if !(vals[0] is Null) {
        vals[0]
    } else {
        first_present(vals.drop_first())
    }
}

fn find_present(vals: &Vec<Value>) -> (r: Option<usize>)
    ensures
        match r {
            Some(i) => i < vals@.len() && first_present(data(vals@)) == vals@[i as int]@ && !(
            vals@[i as int]@ is Null),
            None => first_present(data(vals@)) is Null,
        },
{
    let ghost d = data(vals@);
    assert(d.skip(0) =~= d);
    for i in 0..vals.len()
        invariant
            d == data(vals@),
            first_present(d) == first_present(d.skip(i as int)),
    {
        assert(d.skip(i as int)[0] == vals@[i as int]@);
        assert(d.skip(i as int).drop_first() =~= d.skip(i + 1));
        if !vals[i].is_null() {
            return Some(i);
        }
    }
    None
}

/// The unit of an instant or span.
pub open spec fn unit_of(d: Datum) -> TimeUnit {
    match d {
        Datum::DateTime(t) => t.unit,
        Datum::Duration(t) => t.unit,
        _ => TimeUnit::Sec,
    }
}

/// The narrowest type that holds all present values: a temporal one for values
/// of one temporal kind, booleans, integers (booleans among them), numbers;
/// `None` where only text will do.
pub open spec fn lane_type(vals: Seq<Datum>) -> Option<DataType> {
    if within(vals, 5, 5) {
        Some(DataType::DateTime { unit: unit_of(first_present(vals)) })
    } else if within(vals, 6, 6) {
        Some(DataType::Duration { unit: unit_of(first_present(vals)) })
    } else if within(vals, 7, 7) {
        Some(DataType::Date)
    } else if within(vals, 8, 8) {
        Some(DataType::Time)
    } else if within(vals, 1, 1) {
        Some(DataType::Bool)
    } else if within(vals, 1, 2) {
        Some(DataType::I64)
    } else if within(vals, 1, 3) {
        Some(DataType::F64)
    } else {
        None
    }
}

fn choose_type(vals: &Vec<Value>) -> (r: Option<DataType>)
    ensures
        r == lane_type(data(vals@)),
{
    let unit: TimeUnit = match find_present(vals) {
        Some(i) => match &vals[i] {
            Value::DateTime(t) => t.unit,
            Value::Duration(t) => t.unit,
            _ => TimeUnit::Sec,
        },
        None => TimeUnit::Sec,
    };
    if all_within(vals, 5, 5) {
        Some(DataType::DateTime { unit })
    } else if all_within(vals, 6, 6) {
        Some(DataType::Duration { unit })
    } else if all_within(vals, 7, 7) {
        Some(DataType::Date)
    } else if all_within(vals, 8, 8) {
        Some(DataType::Time)
    } else if all_within(vals, 1, 1) {
        Some(DataType::Bool)
    } else if all_within(vals, 1, 2) {
        Some(DataType::I64)
    } else if all_within(vals, 1, 3) {
        Some(DataType::F64)
    } else {
        None
    }
}

/// The double of a boolean, an integer or a double.
pub open spec fn plain_float(d: Datum) -> F64 {
    match d {
        Datum::Bool(b) => float_of(
            if b {
                1
            } else {
                0
            },
        ),
        Datum::I64(n) => float_of(n as int),
        Datum::F64(x) => x,
        _ => float_of(0),
    }
}

/// A value as a cell of the chosen type. Integers and booleans keep their value;
/// instants and spans take the column's unit; a time of day counts seconds.
pub open spec fn retyped(d: Datum, ty: DataType) -> Datum {
    if d is Null {
        Datum::Null
    } else {
        match ty {
            DataType::DateTime { unit } => match d {
                Datum::DateTime(t) => Datum::DateTime(DateTime { ticks: t.ticks, unit }),
                _ => d,
            },
            DataType::Duration { unit } => match d {
                Datum::Duration(t) => Datum::Duration(Duration { ticks: t.ticks, unit }),
                _ => d,
            },
            DataType::Time => match d {
                Datum::Time(t) => Datum::Time(TimeOfDay { ticks: t.ticks, unit: TimeUnit::Sec }),
                _ => d,
            },
            DataType::I64 => Datum::I64(whole(d)),
            DataType::F64 => Datum::F64(plain_float(d)),
            _ => d,
        }
    }
}

fn float_plain(v: &Value) -> (r: F64)
    ensures
        r == plain_float(v@),
{
    match v {
        Value::Bool(b) => float_from(
            if *b {
                1
            } else {
                0
            },
        ),
        Value::I64(n) => float_from(*n as i128),
        Value::F64(x) => *x,
        _ => float_from(0),
    }
}

fn retype(v: &Value, ty: DataType) -> (r: Value)
    ensures
        r@ == retyped(v@, ty),
{
    if v.is_null() {
        return Value::Null;
    }
    match ty {
        DataType::DateTime { unit } => match v {
            Value::DateTime(t) => Value::DateTime(DateTime { ticks: t.ticks, unit }),
            _ => v.dup(),
        },
        DataType::Duration { unit } => match v {
            Value::Duration(t) => Value::Duration(Duration { ticks: t.ticks, unit }),
            _ => v.dup(),
        },
        DataType::Time => match v {
            Value::Time(t) => Value::Time(TimeOfDay { ticks: t.ticks, unit: TimeUnit::Sec }),
            _ => v.dup(),
        },
        DataType::I64 => Value::I64(as_whole(v)),
        DataType::F64 => Value::F64(float_plain(v)),
        _ => v.dup(),
    }
}

/// A value as a text cell; a missing one stays missing.
pub open spec fn text_cell(d: Datum, log: Log) -> Outcome {
    if d is Null {
        clean(Datum::Null)
    } else {
        match rendered(d, log) {
            Ok(s) => clean(Datum::Str(s)),
            Err(e) => Err(e),
        }
    }
}

/// The text column of values; what is missing stays missing.
pub open spec fn text_lane(vals: Seq<Datum>, log: Log) -> Result<Lane, Query> {
    match cells_from(|i: int| text_cell(vals[i], log), vals.len()) {
        Err(e) => Err(e),
        Ok((s, _)) => Ok(Lane { dtype: DataType::Str, cells: s }),
    }
}

/// The text column has a row for each value and is typed.
pub proof fn lemma_text_lane(vals: Seq<Datum>, log: Log)
    ensures
        text_lane(vals, log) matches Ok(l) ==> l.typed() && l.cells.len() == vals.len(),
{
    let f = |i: int| text_cell(vals[i], log);
    lemma_cells_from(f, vals.len());
    if let Ok(l) = text_lane(vals, log) {
        assert forall|i: int| 0 <= i < l.cells.len() implies fits(#[trigger] l.cells[i], l.dtype) by {
            assert(f(i) matches Ok((d, _)) && d == l.cells[i]);
        }
    }
}

/// The elements of all lists, one after another.
pub open spec fn flatten(vals: Seq<Datum>) -> Seq<Datum>
    decreases vals.len(),
{
    if vals.len() == 0 {
        Seq::empty()
    } else {
        flatten(vals.drop_last()) + (match vals.last() {
            Datum::List(s) => s,
            _ => Seq::empty(),
        })
    }
}

/// The lists again, with their elements taken from `cells`.
pub open spec fn regrouped(vals: Seq<Datum>, cells: Seq<Datum>) -> Seq<Datum> {
    Seq::new(
        vals.len(),
        |i: int|
            match vals[i] {
                Datum::List(s) => {
                    let at = flatten(vals.take(i)).len() as int;
                    Datum::List(cells.subrange(at, at + s.len()))
                },
                _ => Datum::Null,
            },
    )
}

/// The number of values inside each element of a list.
pub open spec fn inner_weights(d: Datum) -> Seq<nat>
    decreases d,
{
    match d {
        Datum::List(s) => Seq::new(
            s.len(),
            |i: int|
                if 0 <= i < s.len() {
                    1 + total(inner_weights(s[i]))
                } else {
                    0
                },
        ),
        _ => Seq::empty(),
    }
}

/// The number of values at and inside each value.
pub open spec fn weights(vals: Seq<Datum>) -> Seq<nat> {
    Seq::new(vals.len(), |i: int| 1 + total(inner_weights(vals[i])))
}

/// The number of values at and inside a list of values.
#[verifier::opaque]
pub open spec fn weight(vals: Seq<Datum>) -> nat {
    total(weights(vals))
}

proof fn lemma_flatten_lighter(vals: Seq<Datum>)
    ensures
        weight(flatten(vals)) + vals.len() <= weight(vals),
    decreases vals.len(),
{
    reveal(weight);
    if vals.len() > 0 {
        let up = flatten(vals.drop_last());
        let d = vals.last();
        lemma_flatten_lighter(vals.drop_last());
        let s = match d {
            Datum::List(s) => s,
            _ => Seq::empty(),
        };
        lemma_total_append(weights(up), weights(s));
        assert(weights(up + s) =~= weights(up) + weights(s));
        assert(weights(s) =~= inner_weights(d) || s =~= Seq::empty());
        assert(weights(Seq::<Datum>::empty()) =~= Seq::empty());
        assert(weights(vals).drop_last() =~= weights(vals.drop_last()));
        assert(weights(vals).last() == 1 + total(inner_weights(d)));
        if d is List {
            assert(weights(s) =~= inner_weights(d));
        } else {
            assert(weights(s) =~= Seq::empty());
        }
    } else {
        assert(weights(flatten(vals)) =~= Seq::empty());
        assert(weights(vals) =~= Seq::empty());
    }
}

/// The column that holds row values: a list column whose elements share the
/// narrowest type of all of them, a column of the narrowest type, or a text
/// column. A missing value stays missing and does not widen the type.
pub open spec fn from_values(vals: Seq<Datum>, log: Log) -> Result<Lane, Query>
    decreases weight(vals),
    via from_values_ends
{
    if within(vals, 4, 4) {
        match from_values(flatten(vals), log) {
            Err(e) => Err(e),
            Ok(child) => Ok(Lane { dtype: DataType::List, cells: regrouped(vals, child.cells) }),
        }
    } else {
        match lane_type(vals) {
            Some(ty) => Ok(
                Lane { dtype: ty, cells: Seq::new(vals.len(), |i: int| retyped(vals[i], ty)) },
            ),
            None => text_lane(vals, log),
        }
    }
}

#[via_fn]
proof fn from_values_ends(vals: Seq<Datum>, log: Log) {
    lemma_flatten_lighter(vals);
}

/// The column of row values has a row for each value and is typed.
pub proof fn lemma_from_values_typed(vals: Seq<Datum>, log: Log)
    ensures
        from_values(vals, log) matches Ok(l) ==> l.typed() && l.cells.len() == vals.len(),
{
    if within(vals, 4, 4) {
    } else {
        match lane_type(vals) {
            Some(ty) => {
                let l = from_values(vals, log)->Ok_0;
                assert forall|i: int| 0 <= i < l.cells.len() implies fits(
                    #[trigger] l.cells[i],
                    l.dtype,
                ) by {
                    assert(l.cells[i] == retyped(vals[i], ty));
                    assert(vals[i] is Null || kind(vals[i]) >= 1);
                }
            },
            None => {
                lemma_text_lane(vals, log);
            },
        }
    }
}

/// A missing value stays missing in the column of row values, and only those
/// are missing there.
pub proof fn lemma_from_values_nulls(vals: Seq<Datum>, log: Log)
    ensures
        from_values(vals, log) matches Ok(l) ==> (forall|i: int|
            0 <= i < vals.len() ==> ((#[trigger] l.cells[i] is Null) <==> (vals[i] is Null))),
{
    lemma_from_values_typed(vals, log);
    if within(vals, 4, 4) {
    } else if lane_type(vals) is None {
        let f = |i: int| text_cell(vals[i], log);
        lemma_cells_from(f, vals.len());
        if from_values(vals, log) is Ok {
            let l = from_values(vals, log)->Ok_0;
            assert forall|i: int| 0 <= i < vals.len() implies ((#[trigger] l.cells[i] is Null) <==> (
            vals[i] is Null)) by {
                assert(f(i) matches Ok((d, _)) && d == l.cells[i]);
            }
        }
    }
}

fn list_column(vals: &Vec<Value>, child: &Column) -> (r: Column)
    requires
        within(data(vals@), 4, 4),
        child@.cells.len() == flatten(data(vals@)).len(),
    ensures
        r@ == (Lane { dtype: DataType::List, cells: regrouped(data(vals@), child@.cells) }),
{
    let ghost d = data(vals@);
    let mut cells: Vec<Value> = Vec::new();
    let mut at: usize = 0;
    let limit: usize = child.len();
    assert(d.take(0) =~= Seq::empty());
    for i in 0..vals.len()
        invariant
            limit == child@.cells.len(),
            d == data(vals@),
            within(d, 4, 4),
            child@.cells.len() == flatten(d).len(),
            at == flatten(d.take(i as int)).len(),
            at <= flatten(d).len(),
            data(cells@) == regrouped(d, child@.cells).take(i as int),
    {
        proof {
            lemma_flatten_prefix(d, i + 1);
            assert(d.take(i + 1).drop_last() =~= d.take(i as int));
            assert(d.take(i + 1).last() == vals@[i as int]@);
        }
        let ghost sofar = data(cells@);
        match &vals[i] {
            Value::List(items) => {
                assert(vals@[i as int]@->List_0.len() == items@.len());
                let mut own: Vec<Value> = Vec::new();
                let end: usize = at + items.len();
                for k in at..end
                    invariant
                        at <= k <= end,
                        end <= child@.cells.len(),
                        data(own@) == child@.cells.subrange(at as int, k as int),
                {
                    let ghost had = data(own@);
                    own.push(child.value_at(k));
                    assert(data(own@) =~= had.push(child@.cells[k as int]));
                    assert(child@.cells.subrange(at as int, k + 1) =~= had.push(
                        child@.cells[k as int],
                    ));
                }
                let v = Value::List(own);
                assert(v@->List_0 =~= data(own@));
                assert(v@ == regrouped(d, child@.cells)[i as int]);
                cells.push(v);
                at = end;
            },
            _ => {
                cells.push(Value::Null);
            },
        }
        assert(data(cells@) =~= sofar.push(regrouped(d, child@.cells)[i as int]));
        assert(regrouped(d, child@.cells).take(i + 1) =~= sofar.push(
            regrouped(d, child@.cells)[i as int],
        ));
    }
    assert(regrouped(d, child@.cells).take(d.len() as int) =~= regrouped(d, child@.cells));
    Column { dtype: DataType::List, cells }
}

proof fn lemma_flatten_prefix(d: Seq<Datum>, n: int)
    requires
        0 <= n <= d.len(),
    ensures
        flatten(d.take(n)).len() <= flatten(d).len(),
    decreases d.len() - n,
{
    if n < d.len() {
        lemma_flatten_prefix(d, n + 1);
        assert(d.take(n + 1).drop_last() =~= d.take(n));
    } else {
        assert(d.take(n) =~= d);
    }
}

fn flat(vals: &Vec<Value>) -> (r: Vec<Value>)
    ensures
        data(r@) == flatten(data(vals@)),
{
    let ghost d = data(vals@);
    let mut out: Vec<Value> = Vec::new();
    assert(d.take(0) =~= Seq::empty());
    assert(data(out@) =~= flatten(d.take(0)));
    for i in 0..vals.len()
        invariant
            d == data(vals@),
            data(out@) == flatten(d.take(i as int)),
    {
        assert(d.take(i + 1).drop_last() =~= d.take(i as int));
        assert(d.take(i + 1).last() == vals@[i as int]@);
        let ghost sofar = data(out@);
        match &vals[i] {
            Value::List(items) => {
                let ghost own = vals@[i as int]@->List_0;
                for k in 0..items.len()
                    invariant
                        own == Value::List(*items)@->List_0,
                        own.len() == items@.len(),
                        data(out@) == sofar + own.take(k as int),
                {
                    let ghost had = data(out@);
                    out.push(items[k].dup());
                    assert(data(out@) =~= had.push(own[k as int]));
                    assert(sofar + own.take(k + 1) =~= had.push(own[k as int]));
                }
                assert(own.take(own.len() as int) =~= own);
            },
            _ => {
                assert(sofar + Seq::<Datum>::empty() =~= sofar);
            },
        }
    }
    assert(d.take(d.len() as int) =~= d);
    out
}

/// An executable column agrees with its specification.
pub open spec fn agree_column(r: Result<Column, Ask>, s: Result<Lane, Query>) -> bool {
    match (r, s) {
        (Ok(c), Ok(l)) => c@ == l,
        (Err(a), Err(q)) => a@ == q,
        _ => false,
    }
}

/// The text column of values (see [`text_lane`]).
pub fn text_column(vals: &Vec<Value>, host: &Answers) -> (r: Result<Column, Ask>)
    ensures
        agree_column(r, text_lane(data(vals@), host@)),
{
    let ghost d = data(vals@);
    let mut cells: Vec<Value> = Vec::new();
    let ghost f = |i: int| text_cell(d[i], host@);
    assert(data(cells@) =~= Seq::empty());
    let ghost mut seen: nat = 0;
    for i in 0..vals.len()
        invariant
            d == data(vals@),
            f == (|i: int| text_cell(d[i], host@)),
            cells_from(f, i as nat) == Ok::<(Seq<Datum>, nat), Query>((data(cells@), seen)),
    {
        let ghost sofar = data(cells@);
        assert(f(i as int) == text_cell(vals@[i as int]@, host@));
        if vals[i].is_null() {
            cells.push(Value::Null);
            assert(data(cells@) =~= sofar.push(Datum::Null));
        } else {
            match render(&vals[i], host) {
                Err(e) => {
                    proof {
                        lemma_cells_stop(f, (i + 1) as nat, d.len());
                    }
                    return Err(e);
                },
                Ok(s) => {
                    let ghost t = s@;
                    cells.push(Value::Str(s));
                    assert(data(cells@) =~= sofar.push(Datum::Str(t)));
                },
            }
        }
    }
    Ok(Column { dtype: DataType::Str, cells })
}

/// The column that holds row values (see [`from_values`]).
pub fn column_from_values(vals: &Vec<Value>, host: &Answers) -> (r: Result<Column, Ask>)
    ensures
        agree_column(r, from_values(data(vals@), host@)),
    decreases weight(data(vals@)),
{
    let ghost d = data(vals@);
    if all_within(vals, 4, 4) {
        let inner: Vec<Value> = flat(vals);
        proof {
            lemma_flatten_lighter(d);
            lemma_from_values_typed(flatten(d), host@);
        }
        return match column_from_values(&inner, host) {
            Err(e) => Err(e),
            Ok(child) => Ok(list_column(vals, &child)),
        };
    }
    let mut cells: Vec<Value> = Vec::new();
    match choose_type(vals) {
        Some(ty) => {
            for i in 0..vals.len()
                invariant
                    d == data(vals@),
                    cells@.len() == i,
                    forall|k: int| 0 <= k < i ==> (#[trigger] cells@[k])@ == retyped(d[k], ty),
            {
                cells.push(retype(&vals[i], ty));
            }
            let r = Column { dtype: ty, cells };
            assert(r@.cells =~= Seq::new(d.len(), |i: int| retyped(d[i], ty)));
            Ok(r)
        },
        None => text_column(vals, host),
    }
}

// ---------------------------------------------------------------- constant columns

/// The type and cell of a constant; a missing or nested one is a missing number.
pub open spec fn const_cell(d: Datum) -> (DataType, Datum) {
    match d {
        Datum::Bool(_) => (DataType::Bool, d),
        Datum::I64(_) => (DataType::I64, d),
        Datum::F64(_) => (DataType::F64, d),
        Datum::Dec(x) => (DataType::Decimal { scale: x.scale }, d),
        Datum::DateTime(t) => (DataType::DateTime { unit: t.unit }, d),
        Datum::Duration(t) => (DataType::Duration { unit: t.unit }, d),
        Datum::Date(_) => (DataType::Date, d),
        Datum::Time(t) => (
            DataType::Time,
            Datum::Time(TimeOfDay { ticks: t.ticks, unit: TimeUnit::Sec }),
        ),
        Datum::Str(_) => (DataType::Str, d),
        Datum::Resource(_) => (DataType::Resource, d),
        _ => (DataType::F64, Datum::Null),
    }
}

/// A column of `n` equal cells.
pub open spec fn repeated(ty: DataType, d: Datum, n: nat) -> Lane {
    Lane { dtype: ty, cells: Seq::new(n, |i: int| d) }
}

/// A column of a constant.
pub open spec fn const_lane(d: Datum, n: nat) -> Lane {
    repeated(const_cell(d).0, const_cell(d).1, n)
}

fn repeat(ty: DataType, v: &Value, n: usize) -> (r: Column)
    ensures
        r@ == repeated(ty, v@, n as nat),
{
    let mut cells: Vec<Value> = Vec::new();
    for i in 0..n
        invariant
            cells@.len() == i,
            forall|k: int| 0 <= k < i ==> (#[trigger] cells@[k])@ == v@,
    {
        cells.push(v.dup());
    }
    let r = Column { dtype: ty, cells };
    assert(r@.cells =~= repeated(ty, v@, n as nat).cells);
    r
}

/// A column of a constant (see [`const_cell`]).
pub fn const_column(v: &Value, n: usize) -> (r: Column)
    ensures
        r@ == const_lane(v@, n as nat),
{
    match v {
        Value::Bool(_) => repeat(DataType::Bool, v, n),
        Value::I64(_) => repeat(DataType::I64, v, n),
        Value::F64(_) => repeat(DataType::F64, v, n),
        Value::Dec(d) => repeat(DataType::Decimal { scale: d.scale }, v, n),
        Value::DateTime(t) => repeat(DataType::DateTime { unit: t.unit }, v, n),
        Value::Duration(t) => repeat(DataType::Duration { unit: t.unit }, v, n),
        Value::Date(_) => repeat(DataType::Date, v, n),
        Value::Time(t) => repeat(
            DataType::Time,
            &Value::Time(TimeOfDay { ticks: t.ticks, unit: TimeUnit::Sec }),
            n,
        ),
        Value::Str(_) => repeat(DataType::Str, v, n),
        Value::Resource(_) => repeat(DataType::Resource, v, n),
        _ => repeat(DataType::F64, &Value::Null, n),
    }
}

/// The column of a property of the chunk's origin; without an origin a text
/// column of missing cells.
pub open spec fn source_lane(name: Seq<char>, b: Batch) -> Lane {
    match b.source {
        Some(uri) => const_lane(resource_property(uri, name), b.len),
        None => repeated(DataType::Str, Datum::Null, b.len),
    }
}

/// The column of a property of the chunk's origin (see [`source_lane`]).
pub fn source_column(name: &str, chunk: &Chunk) -> (r: Column)
    ensures
        r@ == source_lane(name@, chunk@),
{
    match &chunk.source {
        Some(uri) => const_column(&resource_field(uri.as_str(), name), chunk.len),
        None => repeat(DataType::Str, &Value::Null, chunk.len),
    }
}

// ---------------------------------------------------------------- arithmetic

/// The number that a cell takes part in arithmetic with: texts and uris are
/// read, what is no number is not-a-number.
pub open spec fn lane_number(d: Datum, log: Log) -> Result<F64, Query> {
    match d {
        Datum::Str(s) => read_number(s, log),
        Datum::Resource(s) => read_number(s, log),
        _ => match numeric(d, log) {
            Err(e) => Err(e),
            Ok(Some(x)) => Ok(x),
            Ok(None) => Ok(F64::nan_value()),
        },
    }
}

/// A text read as a double; not-a-number where it is none.
pub open spec fn read_number(s: Seq<char>, log: Log) -> Result<F64, Query> {
    match maybe_float_answer(
        log,
        Query { op: HostOp::ParseFloat, args: seq![Datum::Str(trimmed(s))] },
    ) {
        Err(e) => Err(e),
        Ok(Some(x)) => Ok(x),
        Ok(None) => Ok(F64::nan_value()),
    }
}

fn number_read(s: &str, host: &Answers) -> (r: Result<F64, Ask>)
    ensures
        agree(r, read_number(s@, host@), |a, b| a == b),
{
    match get_maybe_float(host, ask1(HostOp::ParseFloat, Value::Str(trim(s)))) {
        Err(e) => Err(e),
        Ok(Some(x)) => Ok(x),
        Ok(None) => Ok(F64::quiet_nan()),
    }
}

fn number_of(v: &Value, host: &Answers) -> (r: Result<F64, Ask>)
    ensures
        agree(r, lane_number(v@, host@), |a, b| a == b),
{
    match v {
        Value::Str(s) => number_read(s.as_str(), host),
        Value::Resource(s) => number_read(s.as_str(), host),
        _ => match as_float(v, host) {
            Err(e) => Err(e),
            Ok(Some(x)) => Ok(x),
            Ok(None) => Ok(F64::quiet_nan()),
        },
    }
}

/// Does the type count in integers?
pub open spec fn integer_lane(ty: DataType) -> bool {
    ty is I64 || ty is Bool || ty is DateTime || ty is Duration || ty is Date || ty is Time
}

/// The arithmetic of two cells. A missing operand gives a missing result; a
/// zero divisor gives a missing result and is counted; integer columns stay
/// integers except under division.
pub open spec fn arith_cell(l: Datum, op: ArithOp, r: Datum, ints: bool, log: Log) -> Outcome {
    if l is Null || r is Null {
        clean(Datum::Null)
    } else if ints && !(op is Div) {
        whole_arith(whole(l), op, whole(r))
    } else {
        match lane_number(l, log) {
            Err(e) => Err(e),
            Ok(x) => match lane_number(r, log) {
                Err(e) => Err(e),
                Ok(y) => if (op is Div || op is Mod) && y.is_zero() {
                    Ok((Datum::Null, 1))
                } else {
                    match float_answer(
                        log,
                        Query { op: HostOp::Arith(op), args: seq![Datum::F64(x), Datum::F64(y)] },
                    ) {
                        Ok(z) => clean(Datum::F64(z)),
                        Err(e) => Err(e),
                    }
                },
            },
        }
    }
}

fn arith_values(l: &Value, op: ArithOp, r: &Value, ints: bool, host: &Answers, fails: &mut u64) -> (out: Result<
    Value,
    Ask,
>)
    ensures
        crate::cast::agree_out(
            out,
            *old(fails),
            *final(fails),
            arith_cell(l@, op, r@, ints, host@),
        ),
{
    if l.is_null() || r.is_null() {
        return Ok(Value::Null);
    }
    if ints && !matches!(op, ArithOp::Div) {
        return Ok(arith_whole(as_whole(l), op, as_whole(r), fails));
    }
    let x: F64 = match number_of(l, host) {
        Err(e) => {
            return Err(e);
        },
        Ok(x) => x,
    };
    let y: F64 = match number_of(r, host) {
        Err(e) => {
            return Err(e);
        },
        Ok(y) => y,
    };
    if matches!(op, ArithOp::Div | ArithOp::Mod) && y.zero() {
        count(fails, 1);
        return Ok(Value::Null);
    }
    match get_float(host, ask2(HostOp::Arith(op), Value::F64(x), Value::F64(y))) {
        Ok(z) => Ok(Value::F64(z)),
        Err(e) => Err(e),
    }
}

/// The temporal arithmetic of two cells; missing where it is none.
pub open spec fn temporal_cell(l: Datum, op: ArithOp, r: Datum, log: Log) -> Outcome {
    match temporal(l, op, r, log) {
        Err(e) => Err(e),
        Ok(Some(d)) => clean(d),
        Ok(None) => clean(Datum::Null),
    }
}

/// Does the column hold instants or spans?
pub open spec fn temporal_lane(ty: DataType) -> bool {
    ty is DateTime || ty is Duration
}

/// Do temporal rules apply to the columns? They do where one holds instants or
/// spans and the first row combines under them.
pub open spec fn temporal_rows(l: Lane, op: ArithOp, r: Lane, n: nat, log: Log) -> Result<bool, Query> {
    if !temporal_lane(l.dtype) && !temporal_lane(r.dtype) {
        Ok(false)
    } else if n == 0 {
        Ok(true)
    } else {
        match temporal(l.cells[0], op, r.cells[0], log) {
            Err(e) => Err(e),
            Ok(o) => Ok(o is Some),
        }
    }
}

/// The arithmetic of two columns of `n` rows.
pub open spec fn arith_lane(l: Lane, op: ArithOp, r: Lane, n: nat, log: Log) -> LaneOut {
    match temporal_rows(l, op, r, n, log) {
        Err(e) => Err(e),
        Ok(true) => match cells_from(
            |i: int| temporal_cell(l.cells[i], op, r.cells[i], log),
            n,
        ) {
            Err(e) => Err(e),
            Ok((s, k)) => match from_values(s, log) {
                Err(e) => Err(e),
                Ok(lane) => Ok((lane, k)),
            },
        },
        Ok(false) => {
            let ints = integer_lane(l.dtype) && integer_lane(r.dtype);
            match cells_from(|i: int| arith_cell(l.cells[i], op, r.cells[i], ints, log), n) {
                Err(e) => Err(e),
                Ok((s, k)) => Ok(
                    (
                        Lane {
                            dtype: if ints && !(op is Div) {
                                DataType::I64
                            } else {
                                DataType::F64
                            },
                            cells: s,
                        },
                        k,
                    ),
                ),
            }
        },
    }
}

fn counts_in_integers(ty: DataType) -> (r: bool)
    ensures
        r == integer_lane(ty),
{
    matches!(
        ty,
        DataType::I64 | DataType::Bool | DataType::DateTime { .. } | DataType::Duration { .. } | DataType::Date | DataType::Time
    )
}

fn holds_times(ty: DataType) -> (r: bool)
    ensures
        r == temporal_lane(ty),
{
    matches!(ty, DataType::DateTime { .. } | DataType::Duration { .. })
}

fn temporal_values(l: &Column, op: ArithOp, r: &Column, n: usize, host: &Answers) -> (out: Result<
    Vec<Value>,
    Ask,
>)
    requires
        l@.cells.len() == n,
        r@.cells.len() == n,
    ensures
        ({
            let f = |i: int| temporal_cell(l@.cells[i], op, r@.cells[i], host@);
            agree_cells(out, 0, 0, cells_from(f, n as nat)) && (cells_from(f, n as nat) matches Ok(
                (_, k),
            ) ==> k == 0)
        }),
{
    let ghost f = |i: int| temporal_cell(l@.cells[i], op, r@.cells[i], host@);
    let mut vals: Vec<Value> = Vec::new();
    assert(data(vals@) =~= Seq::empty());
    for i in 0..n
        invariant
            l@.cells.len() == n,
            r@.cells.len() == n,
            f == (|i: int| temporal_cell(l@.cells[i], op, r@.cells[i], host@)),
            cells_from(f, i as nat) == Ok::<(Seq<Datum>, nat), Query>((data(vals@), 0)),
    {
        assert(l@.cells[i as int] == l.cells@[i as int]@);
        assert(r@.cells[i as int] == r.cells@[i as int]@);
        assert(f(i as int) == temporal_cell(l@.cells[i as int], op, r@.cells[i as int], host@));
        let ghost sofar = data(vals@);
        match temporal_op(&l.cells[i], op, &r.cells[i], host) {
            Err(e) => {
                proof {
                    lemma_cells_stop(f, (i + 1) as nat, n as nat);
                }
                return Err(e);
            },
            Ok(Some(v)) => {
                vals.push(v);
                assert(data(vals@) =~= sofar.push(v@));
            },
            Ok(None) => {
                vals.push(Value::Null);
                assert(data(vals@) =~= sofar.push(Datum::Null));
            },
        }
    }
    Ok(vals)
}

/// The arithmetic of two columns (see [`arith_lane`]).
pub fn eval_arith(l: &Column, op: ArithOp, r: &Column, n: usize, host: &Answers, fails: &mut u64) -> (out:
    Result<Column, Ask>)
    requires
        l@.cells.len() == n,
        r@.cells.len() == n,
    ensures
        agree_lane(out, *old(fails), *final(fails), arith_lane(l@, op, r@, n as nat, host@)),
{
    if holds_times(l.dtype) || holds_times(r.dtype) {
        let mut rows: bool = true;
        if n > 0 {
            assert(l@.cells[0] == l.cells@[0]@);
            assert(r@.cells[0] == r.cells@[0]@);
            match temporal_op(&l.cells[0], op, &r.cells[0], host) {
                Err(e) => {
                    return Err(e);
                },
                Ok(o) => {
                    rows = o.is_some();
                },
            }
        }
        if rows {
            return match temporal_values(l, op, r, n, host) {
                Err(e) => Err(e),
                Ok(vals) => column_from_values(&vals, host),
            };
        }
    }
    let ints: bool = counts_in_integers(l.dtype) && counts_in_integers(r.dtype);
    let ghost f = |i: int| arith_cell(l@.cells[i], op, r@.cells[i], ints, host@);
    let ghost before = *fails;
    let ghost mut seen: nat = 0;
    let mut cells: Vec<Value> = Vec::new();
    assert(data(cells@) =~= Seq::empty());
    for i in 0..n
        invariant
            l@.cells.len() == n,
            r@.cells.len() == n,
            ints == (integer_lane(l@.dtype) && integer_lane(r@.dtype)),
            temporal_rows(l@, op, r@, n as nat, host@) == Ok::<bool, Query>(false),
            f == (|i: int| arith_cell(l@.cells[i], op, r@.cells[i], ints, host@)),
            cells_from(f, i as nat) == Ok::<(Seq<Datum>, nat), Query>((data(cells@), seen)),
            before == *old(fails),
            *fails == counted(before, seen),
    {
        assert(l@.cells[i as int] == l.cells@[i as int]@);
        assert(r@.cells[i as int] == r.cells@[i as int]@);
        assert(f(i as int) == arith_cell(
            l@.cells[i as int],
            op,
            r@.cells[i as int],
            ints,
            host@,
        ));
        let ghost sofar = data(cells@);
        match arith_values(&l.cells[i], op, &r.cells[i], ints, host, fails) {
            Err(e) => {
                proof {
                    lemma_cells_stop(f, (i + 1) as nat, n as nat);
                }
                return Err(e);
            },
            Ok(v) => {
                proof {
                    seen = seen + f(i as int)->Ok_0.1;
                }
                cells.push(v);
                assert(data(cells@) =~= sofar.push(v@));
            },
        }
    }
    let dtype: DataType = if ints && !matches!(op, ArithOp::Div) {
        DataType::I64
    } else {
        DataType::F64
    };
    Ok(Column { dtype, cells })
}

/// The arithmetic of columns keeps the number of rows and gives a typed column.
pub proof fn lemma_arith_lane_typed(l: Lane, op: ArithOp, r: Lane, n: nat, log: Log)
    ensures
        arith_lane(l, op, r, n, log) matches Ok((lane, _)) ==> lane.typed() && lane.cells.len()
            == n,
{
    match temporal_rows(l, op, r, n, log) {
        Ok(true) => {
            let f = |i: int| temporal_cell(l.cells[i], op, r.cells[i], log);
            lemma_cells_from(f, n);
            if let Ok((s, _)) = cells_from(f, n) {
                lemma_from_values_typed(s, log);
            }
        },
        Ok(false) => {
            let ints = integer_lane(l.dtype) && integer_lane(r.dtype);
            let f = |i: int| arith_cell(l.cells[i], op, r.cells[i], ints, log);
            lemma_cells_from(f, n);
            if let Ok((lane, _)) = arith_lane(l, op, r, n, log) {
                assert forall|i: int| 0 <= i < n implies fits(
                    #[trigger] lane.cells[i],
                    lane.dtype,
                ) by {
                    assert(f(i) matches Ok((d, _)) && d == lane.cells[i]);
                }
            }
        },
        _ => {},
    }
}

// ---------------------------------------------------------------- expressions

/// The values of an expression in all rows.
pub open spec fn rows(e: Expr, b: Batch, log: Log) -> Cells {
    cells_from(|i: int| eval(e, b, i, log), b.len)
}

/// The column of an expression's row values.
pub open spec fn rows_lane(e: Expr, b: Batch, log: Log) -> LaneOut {
    match rows(e, b, log) {
        Err(q) => Err(q),
        Ok((s, k)) => match from_values(s, log) {
            Err(q) => Err(q),
            Ok(l) => Ok((l, k)),
        },
    }
}

/// The fixed form that a function's column takes.
#[derive(Clone, Copy, Debug, PartialEq, Eq, Structural)]
pub enum Form {
    Int,
    Bool,
    Text,
}

/// The type of a form.
pub open spec fn form_type(form: Form) -> DataType {
    match form {
        Form::Int => DataType::I64,
        Form::Bool => DataType::Bool,
        Form::Text => DataType::Str,
    }
}

/// A value in a form: an integer (a missing value is 0), whether it is true, or
/// its text (a missing value is empty).
pub open spec fn formed(d: Datum, form: Form, log: Log) -> Result<Datum, Query> {
    match form {
        Form::Int => match integral(d, log) {
            Ok(n) => Ok(Datum::I64(n)),
            Err(q) => Err(q),
        },
        Form::Bool => Ok(Datum::Bool(d == Datum::Bool(true))),
        Form::Text => match rendered(d, log) {
            Ok(s) => Ok(Datum::Str(s)),
            Err(q) => Err(q),
        },
    }
}

/// An expression's value in a row, in a form.
pub open spec fn formed_row(e: Expr, b: Batch, row: int, form: Form, log: Log) -> Outcome {
    match eval(e, b, row, log) {
        Err(q) => Err(q),
        Ok((d, n)) => match formed(d, form, log) {
            Err(q) => Err(q),
            Ok(x) => Ok((x, n)),
        },
    }
}

/// The column of an expression in a form.
pub open spec fn formed_lane(e: Expr, b: Batch, form: Form, log: Log) -> LaneOut {
    match cells_from(|i: int| formed_row(e, b, i, form, log), b.len) {
        Err(q) => Err(q),
        Ok((s, k)) => Ok((Lane { dtype: form_type(form), cells: s }, k)),
    }
}

/// The column of a predicate; failures are not counted.
pub open spec fn predicate_lane(e: Expr, b: Batch, log: Log) -> LaneOut {
    match cells_from(|i: int| predicate_row(e, b, i, log), b.len) {
        Err(q) => Err(q),
        Ok((s, k)) => Ok((Lane { dtype: DataType::Bool, cells: s }, 0)),
    }
}

/// A predicate's verdict in a row, as a cell.
pub open spec fn predicate_row(e: Expr, b: Batch, row: int, log: Log) -> Outcome {
    match holds(e, b, row, log) {
        Err(q) => Err(q),
        Ok((x, _)) => clean(Datum::Bool(x)),
    }
}

/// Does the text of a cell hold a match of the pattern?
pub open spec fn regexp_cell(d: Datum, pat: Seq<char>, log: Log) -> Outcome {
    match rendered(d, log) {
        Err(q) => Err(q),
        Ok(s) => clean(Datum::Bool(regex_outcome(pat, s) == Some(true))),
    }
}

/// The column of regular expression matches of a column's texts.
pub open spec fn regexp_lane(l: Lane, k: nat, pat: Seq<char>, n: nat, log: Log) -> LaneOut {
    match cells_from(|i: int| regexp_cell(l.cells[i], pat, log), n) {
        Err(q) => Err(q),
        Ok((s, m)) => Ok((Lane { dtype: DataType::Bool, cells: s }, k + m)),
    }
}

/// The pattern of a regular expression test against a literal.
pub open spec fn regex_pattern(args: Seq<Expr>) -> Option<Seq<char>> {
    if args.len() >= 2 {
        match args[1] {
            Expr::Literal(Value::Str(s)) => Some(s@),
            _ => None,
        }
    } else {
        None
    }
}

/// The form of a function's column; `None` where its values choose the type.
pub open spec fn func_form(func: Func) -> Option<Form> {
    if func is Len || of_field(func) || func is Weekday {
        Some(Form::Int)
    } else if of_text2(func) || func is IsWeekend {
        Some(Form::Bool)
    } else if func is Trunc || func is Bucket || func is Hops || func is Abs || func is Round
        || func is Floor || func is Ceil || func is Coalesce || func is Date || func is Time {
        None
    } else {
        Some(Form::Text)
    }
}

/// The column of an expression over a chunk.
pub open spec fn lane_of(e: Expr, b: Batch, log: Log) -> LaneOut
    decreases e,
{
    match e {
        Expr::Field { name, access } => if access is Source {
            Ok((source_lane(name@, b), 0))
        } else if access is Deep {
            rows_lane(e, b, log)
        } else {
            match b.column(name@) {
                Some(c) => Ok((c, 0)),
                None => Ok(
                    (repeated(DataType::F64, Datum::F64(F64::nan_value()), b.len), 0),
                ),
            }
        },
        Expr::FieldAt(i) => if i < b.columns.len() {
            Ok((b.columns[i as int], 0))
        } else {
            Ok((const_lane(Datum::Null, b.len), b.len))
        },
        Expr::Literal(v) => Ok((const_lane(v@, b.len), 0)),
        Expr::Cast { expr, ty } => match lane_of(*expr, b, log) {
            Err(q) => Err(q),
            Ok((l, n)) => match cast_lane(l, ty, log) {
                Err(q) => Err(q),
                Ok((c, m)) => Ok((c, n + m)),
            },
        },
        Expr::Arith { left, op, right } => match lane_of(*left, b, log) {
            Err(q) => Err(q),
            Ok((l, n)) => match lane_of(*right, b, log) {
                Err(q) => Err(q),
                Ok((r, m)) => match arith_lane(l, op, r, b.len, log) {
                    Err(q) => Err(q),
                    Ok((c, k)) => Ok((c, n + m + k)),
                },
            },
        },
        Expr::Func { func, args } => if func is Regexp && regex_pattern(args@) is Some {
            match lane_of(args@[0], b, log) {
                Err(q) => Err(q),
                Ok((l, k)) => regexp_lane(l, k, regex_pattern(args@)->0, b.len, log),
            }
        } else {
            match func_form(func) {
                Some(form) => formed_lane(e, b, form, log),
                None => rows_lane(e, b, log),
            }
        },
        Expr::Case { branches, default } => rows_lane(e, b, log),
        Expr::SubView { base, name, start, end } => rows_lane(e, b, log),
        Expr::Path(p) => rows_lane(e, b, log),
        _ => predicate_lane(e, b, log),
    }
}

fn eval_rows(e: &Expr, chunk: &Chunk, host: &Answers, fails: &mut u64) -> (r: Result<Vec<Value>, Ask>)
    requires
        chunk@.wf(),
    ensures
        agree_cells(r, *old(fails), *final(fails), rows(*e, chunk@, host@)),
{
    let ghost f = |i: int| eval(*e, chunk@, i, host@);
    let ghost before = *fails;
    let ghost mut seen: nat = 0;
    let mut vals: Vec<Value> = Vec::new();
    assert(data(vals@) =~= Seq::empty());
    for i in 0..chunk.len
        invariant
            chunk@.wf(),
            f == (|i: int| eval(*e, chunk@, i, host@)),
            cells_from(f, i as nat) == Ok::<(Seq<Datum>, nat), Query>((data(vals@), seen)),
            before == *old(fails),
            *fails == counted(before, seen),
    {
        let ghost sofar = data(vals@);
        assert(f(i as int) == eval(*e, chunk@, i as int, host@));
        match eval_acc(e, chunk, i, host, fails) {
            Err(q) => {
                proof {
                    lemma_cells_stop(f, (i + 1) as nat, chunk.len as nat);
                }
                return Err(q);
            },
            Ok(v) => {
                proof {
                    seen = seen + f(i as int)->Ok_0.1;
                }
                vals.push(v);
                assert(data(vals@) =~= sofar.push(v@));
            },
        }
    }
    Ok(vals)
}

fn eval_rows_column(e: &Expr, chunk: &Chunk, host: &Answers, fails: &mut u64) -> (r: Result<Column, Ask>)
    requires
        chunk@.wf(),
    ensures
        agree_lane(r, *old(fails), *final(fails), rows_lane(*e, chunk@, host@)),
{
    match eval_rows(e, chunk, host, fails) {
        Err(q) => Err(q),
        Ok(vals) => column_from_values(&vals, host),
    }
}

fn form_value(v: Value, form: Form, host: &Answers) -> (r: Result<Value, Ask>)
    ensures
        agree(r, formed(v@, form, host@), |a: Value, b: Datum| a@ == b),
{
    match form {
        Form::Int => match to_i64(&v, host) {
            Ok(n) => Ok(Value::I64(n)),
            Err(q) => Err(q),
        },
        Form::Bool => Ok(Value::Bool(matches!(v, Value::Bool(true)))),
        Form::Text => match render(&v, host) {
            Ok(s) => Ok(Value::Str(s)),
            Err(q) => Err(q),
        },
    }
}

fn eval_formed(e: &Expr, form: Form, chunk: &Chunk, host: &Answers, fails: &mut u64) -> (r: Result<Column, Ask>)
    requires
        chunk@.wf(),
    ensures
        agree_lane(r, *old(fails), *final(fails), formed_lane(*e, chunk@, form, host@)),
{
    let ghost f = |i: int| formed_row(*e, chunk@, i, form, host@);
    let ghost before = *fails;
    let ghost mut seen: nat = 0;
    let mut vals: Vec<Value> = Vec::new();
    assert(data(vals@) =~= Seq::empty());
    for i in 0..chunk.len
        invariant
            chunk@.wf(),
            f == (|i: int| formed_row(*e, chunk@, i, form, host@)),
            cells_from(f, i as nat) == Ok::<(Seq<Datum>, nat), Query>((data(vals@), seen)),
            before == *old(fails),
            *fails == counted(before, seen),
    {
        let ghost sofar = data(vals@);
        assert(f(i as int) == formed_row(*e, chunk@, i as int, form, host@));
        let item: Result<Value, Ask> = match eval_acc(e, chunk, i, host, fails) {
            Err(q) => Err(q),
            Ok(v) => form_value(v, form, host),
        };
        match item {
            Err(q) => {
                proof {
                    lemma_cells_stop(f, (i + 1) as nat, chunk.len as nat);
                }
                return Err(q);
            },
            Ok(v) => {
                proof {
                    seen = seen + f(i as int)->Ok_0.1;
                }
                vals.push(v);
                assert(data(vals@) =~= sofar.push(v@));
            },
        }
    }
    let dtype: DataType = match form {
        Form::Int => DataType::I64,
        Form::Bool => DataType::Bool,
        Form::Text => DataType::Str,
    };
    Ok(Column { dtype, cells: vals })
}

fn eval_predicates(e: &Expr, chunk: &Chunk, host: &Answers) -> (r: Result<Column, Ask>)
    requires
        chunk@.wf(),
    ensures
        agree_lane(r, 0, 0, predicate_lane(*e, chunk@, host@)),
{
    let ghost f = |i: int| predicate_row(*e, chunk@, i, host@);
    let mut vals: Vec<Value> = Vec::new();
    assert(data(vals@) =~= Seq::empty());
    for i in 0..chunk.len
        invariant
            chunk@.wf(),
            f == (|i: int| predicate_row(*e, chunk@, i, host@)),
            cells_from(f, i as nat) == Ok::<(Seq<Datum>, nat), Query>((data(vals@), 0)),
    {
        let ghost sofar = data(vals@);
        assert(f(i as int) == predicate_row(*e, chunk@, i as int, host@));
        match eval_predicate(e, chunk, i, host) {
            Err(q) => {
                proof {
                    lemma_cells_stop(f, (i + 1) as nat, chunk.len as nat);
                }
                return Err(q);
            },
            Ok(b) => {
                vals.push(Value::Bool(b));
                assert(data(vals@) =~= sofar.push(Datum::Bool(b)));
            },
        }
    }
    Ok(Column { dtype: DataType::Bool, cells: vals })
}

/// The column of regular expression matches of a column's texts.
pub fn regexp_column(col: &Column, pat: &str, n: usize, host: &Answers) -> (r: Result<Column, Ask>)
    requires
        col@.cells.len() == n,
    ensures
        agree_lane(r, 0, 0, regexp_lane(col@, 0, pat@, n as nat, host@)),
{
    let ghost f = |i: int| regexp_cell(col@.cells[i], pat@, host@);
    let mut vals: Vec<Value> = Vec::new();
    assert(data(vals@) =~= Seq::empty());
    for i in 0..n
        invariant
            col@.cells.len() == n,
            f == (|i: int| regexp_cell(col@.cells[i], pat@, host@)),
            cells_from(f, i as nat) == Ok::<(Seq<Datum>, nat), Query>((data(vals@), 0)),
    {
        let ghost sofar = data(vals@);
        assert(col@.cells[i as int] == col.cells@[i as int]@);
        assert(f(i as int) == regexp_cell(col@.cells[i as int], pat@, host@));
        match render(&col.cells[i], host) {
            Err(q) => {
                proof {
                    lemma_cells_stop(f, (i + 1) as nat, n as nat);
                }
                return Err(q);
            },
            Ok(s) => {
                let hit: bool = regexp_match(s.as_str(), pat);
                vals.push(Value::Bool(hit));
                assert(data(vals@) =~= sofar.push(Datum::Bool(hit)));
            },
        }
    }
    Ok(Column { dtype: DataType::Bool, cells: vals })
}

/// The pattern of a regular expression test against a literal.
fn regex_literal(args: &Vec<Expr>) -> (r: Option<&str>)
    ensures
        match (r, regex_pattern(args@)) {
            (Some(s), Some(t)) => s@ == t,
            (None, None) => true,
            _ => false,
        },
{
    if args.len() >= 2 {
        match &args[1] {
            Expr::Literal(Value::Str(s)) => Some(s.as_str()),
            _ => None,
        }
    } else {
        None
    }
}

fn form_of(func: Func) -> (r: Option<Form>)
    ensures
        r == func_form(func),
{
    match func {
        Func::Len | Func::Year | Func::Month | Func::Day | Func::Hour | Func::Minute | Func::Second | Func::Weekday => Some(Form::Int),
        Func::Contains | Func::StartsWith | Func::EndsWith | Func::Like | Func::Glob | Func::Regexp | Func::IsWeekend => Some(Form::Bool),
        Func::Trunc | Func::Bucket | Func::Hops | Func::Abs | Func::Round | Func::Floor | Func::Ceil | Func::Coalesce | Func::Date | Func::Time => None,
        _ => Some(Form::Text),
    }
}

/// The column of an expression has a row for each row of the chunk and is
/// typed.
pub proof fn lemma_lane_of_typed(e: Expr, b: Batch, log: Log)
    requires
        b.wf(),
    ensures
        lane_of(e, b, log) matches Ok((l, _)) ==> l.typed() && l.cells.len() == b.len,
    decreases e,
{
    if let Ok((s, _)) = rows(e, b, log) {
        lemma_cells_from(|i: int| eval(e, b, i, log), b.len);
        lemma_from_values_typed(s, log);
    }
    match e {
        Expr::Field { name, access } => {
            crate::chunk::lemma_index_in(b.fields, name@);
            if let Some(i) = index_in(b.fields, name@) {
                assert(b.columns[i].typed());
            }
        },
        Expr::FieldAt(i) => {
            if i < b.columns.len() {
                assert(b.columns[i as int].typed());
            }
        },
        Expr::Cast { expr, ty } => {
            lemma_lane_of_typed(*expr, b, log);
            if let Ok((l, _)) = lane_of(*expr, b, log) {
                lemma_cast_lane_typed(l, ty, log);
            }
        },
        Expr::Arith { left, op, right } => {
            if let (Ok((l, _)), Ok((r, _))) = (lane_of(*left, b, log), lane_of(*right, b, log)) {
                lemma_arith_lane_typed(l, op, r, b.len, log);
            }
        },
        Expr::Func { func, args } => {
            if func is Regexp && regex_pattern(args@) is Some {
                if let Ok((l, k)) = lane_of(args@[0], b, log) {
                    let pat = regex_pattern(args@)->0;
                    let f = |i: int| regexp_cell(l.cells[i], pat, log);
                    lemma_cells_from(f, b.len);
                    if let Ok((out, _)) = lane_of(e, b, log) {
                        assert forall|i: int| 0 <= i < b.len implies fits(
                            #[trigger] out.cells[i],
                            out.dtype,
                        ) by {
                            assert(f(i) matches Ok((d, _)) && d == out.cells[i]);
                        }
                    }
                }
            } else if let Some(form) = func_form(func) {
                let f = |i: int| formed_row(e, b, i, form, log);
                lemma_cells_from(f, b.len);
                if let Ok((out, _)) = formed_lane(e, b, form, log) {
                    assert forall|i: int| 0 <= i < b.len implies fits(
                        #[trigger] out.cells[i],
                        out.dtype,
                    ) by {
                        assert(f(i) matches Ok((d, _)) && d == out.cells[i]);
                    }
                }
            }
        },
        _ => {
            let f = |i: int| predicate_row(e, b, i, log);
            lemma_cells_from(f, b.len);
            if let Ok((out, _)) = predicate_lane(e, b, log) {
                assert forall|i: int| 0 <= i < b.len implies fits(
                    #[trigger] out.cells[i],
                    out.dtype,
                ) by {
                    assert(f(i) matches Ok((d, _)) && d == out.cells[i]);
                }
            }
        },
    }
}

/// The column of an expression over a chunk (see [`lane_of`]); `fails` counts
/// what did not convert.
pub fn eval_column(e: &Expr, chunk: &Chunk, host: &Answers, fails: &mut u64) -> (r: Result<Column, Ask>)
    requires
        chunk@.wf(),
    ensures
        agree_lane(r, *old(fails), *final(fails), lane_of(*e, chunk@, host@)),
        r matches Ok(c) ==> c@.typed() && c@.cells.len() == chunk.len,
    decreases *e,
{
    proof {
        lemma_lane_of_typed(*e, chunk@, host@);
    }
    match e {
        Expr::Field { name, access } => match *access {
            Access::Source => Ok(source_column(name.as_str(), chunk)),
            Access::Deep => eval_rows_column(e, chunk, host, fails),
            _ => match chunk.column(name.as_str()) {
                Some(c) => Ok(c.dup()),
                None => Ok(repeat(DataType::F64, &Value::F64(F64::quiet_nan()), chunk.len)),
            },
        },
        Expr::FieldAt(i) => {
            let k: usize = *i as usize;
            if k < chunk.columns.len() {
                assert(chunk@.columns[k as int] == chunk.columns@[k as int]@);
                Ok(chunk.columns[k].dup())
            } else {
                count(fails, chunk.len as u64);
                Ok(const_column(&Value::Null, chunk.len))
            }
        },
        Expr::Literal(v) => Ok(const_column(v, chunk.len)),
        Expr::Cast { expr, ty } => match eval_column(expr, chunk, host, fails) {
            Err(q) => Err(q),
            Ok(c) => cast_column(c, *ty, host, fails),
        },
        Expr::Arith { left, op, right } => {
            let l: Column = match eval_column(left, chunk, host, fails) {
                Err(q) => {
                    return Err(q);
                },
                Ok(l) => l,
            };
            let r: Column = match eval_column(right, chunk, host, fails) {
                Err(q) => {
                    return Err(q);
                },
                Ok(r) => r,
            };
            eval_arith(&l, *op, &r, chunk.len, host, fails)
        },
        Expr::Func { func, args } => {
            if matches!(*func, Func::Regexp) {
                if let Some(pat) = regex_literal(args) {
                    proof {
                        assert(decreases_to!(*e => e->args));
                        assert(decreases_to!(e->args => e->args@));
                        assert(decreases_to!(args@ => args@[0]));
                    }
                    return match eval_column(&args[0], chunk, host, fails) {
                        Err(q) => Err(q),
                        Ok(c) => regexp_column(&c, pat, chunk.len, host),
                    };
                }
            }
            match form_of(*func) {
                Some(form) => eval_formed(e, form, chunk, host, fails),
                None => eval_rows_column(e, chunk, host, fails),
            }
        },
        Expr::Case { .. } => eval_rows_column(e, chunk, host, fails),
        Expr::SubView { .. } => eval_rows_column(e, chunk, host, fails),
        Expr::Path(_) => eval_rows_column(e, chunk, host, fails),
        _ => eval_predicates(e, chunk, host),
    }
}

/// A number: an integer, a boolean, a double or a decimal.
pub open spec fn is_number(d: Datum) -> bool {
    d is I64 || d is Bool || d is F64 || d is Dec
}

/// Columns and rows are computed alike: the arithmetic of two cells that are
/// numbers is the row-wise one, with the same value and the same failures.
pub proof fn lemma_row_arithmetic_agrees(l: Datum, op: ArithOp, r: Datum, log: Log)
    requires
        is_number(l),
        is_number(r),
    ensures
        arith_cell(
            l,
            op,
            r,
            (l is I64 || l is Bool) && (r is I64 || r is Bool),
            log,
        ) == crate::eval::arith(l, op, r, log),
{
}

} // verus!
