//! JSON values as typed columns: the cells, the fields and the text of values.
use vstd::prelude::*;
use crate::chunk::{flat_field, Column, Field, FieldV, Lane, Nested, Shape};
use crate::compare::agree;
use crate::float::{float_from, float_of};
use crate::host::{ask1, get_text, text_answer, Answers, Ask, HostOp, Log, Query};
use crate::infer::{sound, type_of, type_views, InferV, JType, JTypeV};
use crate::json::{lemma_list_view, lemma_struct_view, member_views, Members};
use crate::sink::{json_string, json_text};
use crate::text::{i64_text, int_text, owned, same_text};
use crate::value::{data, fits, texts, DataType, Datum, Value};

verus! {

// ------------------------------------------------------------ JSON as text

/// A value as JSON text: the members and elements in order, without white
/// space.
pub open spec fn json_of(d: Datum, log: Log) -> Result<Seq<char>, Query>
    decreases d, 1nat, 0nat,
{
    match d {
        Datum::Bool(b) => Ok(
            if b {
                "true"@
            } else {
                "false"@
            },
        ),
        Datum::I64(n) => Ok(int_text(n as int)),
        Datum::F64(x) => text_answer(
            log,
            Query { op: HostOp::FloatText, args: seq![Datum::F64(x)] },
        ),
        Datum::Str(s) => Ok(json_text(s)),
        Datum::Struct(m) => match json_members(d, m.len(), log) {
            Err(q) => Err(q),
            Ok(t) => Ok(seq!['{'] + t + seq!['}']),
        },
        Datum::List(v) => match json_elements(d, v.len(), log) {
            Err(q) => Err(q),
            Ok(t) => Ok(seq!['['] + t + seq![']']),
        },
        _ => Ok("null"@),
    }
}

/// The first `n` members of an object as JSON text.
pub open spec fn json_members(d: Datum, n: nat, log: Log) -> Result<Seq<char>, Query>
    decreases d, 0nat, n,
{
    match d {
        Datum::Struct(m) => if 0 < n <= m.len() {
            match json_members(d, (n - 1) as nat, log) {
                Err(q) => Err(q),
                Ok(s) => match json_of(m[n - 1].1, log) {
                    Err(q) => Err(q),
                    Ok(t) => Ok(
                        (if n == 1 {
                            s
                        } else {
                            s.push(',')
                        }) + json_text(m[n - 1].0) + seq![':'] + t,
                    ),
                },
            }
        } else {
            Ok(Seq::empty())
        },
        _ => Ok(Seq::empty()),
    }
}

/// The first `n` elements of an array as JSON text.
pub open spec fn json_elements(d: Datum, n: nat, log: Log) -> Result<Seq<char>, Query>
    decreases d, 0nat, n,
{
    match d {
        Datum::List(v) => if 0 < n <= v.len() {
            match json_elements(d, (n - 1) as nat, log) {
                Err(q) => Err(q),
                Ok(s) => match json_of(v[n - 1], log) {
                    Err(q) => Err(q),
                    Ok(t) => Ok(
                        (if n == 1 {
                            s
                        } else {
                            s.push(',')
                        }) + t,
                    ),
                },
            }
        } else {
            Ok(Seq::empty())
        },
        _ => Ok(Seq::empty()),
    }
}

proof fn lemma_json_members_stop(d: Datum, n: nat, m: nat, log: Log)
    requires
        d is Struct,
        n <= m <= d->Struct_0.len(),
        json_members(d, n, log) is Err,
    ensures
        json_members(d, m, log) == json_members(d, n, log),
    decreases m - n,
{
    if n < m {
        lemma_json_members_stop(d, n, (m - 1) as nat, log);
    }
}

proof fn lemma_json_elements_stop(d: Datum, n: nat, m: nat, log: Log)
    requires
        d is List,
        n <= m <= d->List_0.len(),
        json_elements(d, n, log) is Err,
    ensures
        json_elements(d, m, log) == json_elements(d, n, log),
    decreases m - n,
{
    if n < m {
        lemma_json_elements_stop(d, n, (m - 1) as nat, log);
    }
}

/// A value as JSON text (see [`json_of`]).
pub fn jval_json(v: &Value, host: &Answers) -> (r: Result<String, Ask>)
    ensures
        agree(r, json_of(v@, host@), |a: String, b: Seq<char>| a@ == b),
    decreases *v,
{
    match v {
        Value::Bool(b) => Ok(
            owned(
                if *b {
                    "true"
                } else {
                    "false"
                },
            ),
        ),
        Value::I64(n) => Ok(i64_text(*n)),
        Value::F64(x) => get_text(host, ask1(HostOp::FloatText, Value::F64(*x))),
        Value::Str(s) => {
            let mut t: String = String::new();
            json_string(&mut t, s.as_str());
            assert(t@ =~= json_text(s@));
            Ok(t)
        },
        Value::Struct(m) => {
            proof {
                lemma_struct_view(*m);
            }
            let mut t: String = String::new();
            assert(t@ =~= Seq::empty());
            for n in 0..m.len()
                invariant
                    v@ == Datum::Struct(member_views(m@)),
                    json_members(v@, n as nat, host@) == Ok::<Seq<char>, Query>(t@),
                    decreases_to!(*v => *m),
            {
                proof {
                    assert(decreases_to!(*m => m@));
                    assert(decreases_to!(m@ => m@[n as int]));
                    assert(decreases_to!(m@[n as int] => m@[n as int].1));
                    assert(member_views(m@)[n as int] == (m@[n as int].0@, m@[n as int].1@));
                }
                let x: String = match jval_json(&m[n].1, host) {
                    Err(a) => {
                        proof {
                            lemma_json_members_stop(v@, (n + 1) as nat, m@.len(), host@);
                        }
                        return Err(a);
                    },
                    Ok(x) => x,
                };
                let ghost before = t@;
                if n > 0 {
                    t.push(',');
                }
                json_string(&mut t, m[n].0.as_str());
                t.push(':');
                t.push_str(x.as_str());
                proof {
                    let head = if n == 0 {
                        before
                    } else {
                        before.push(',')
                    };
                    assert(t@ =~= head + json_text(m@[n as int].0@) + seq![':'] + x@);
                }
            }
            let mut out: String = String::new();
            out.push('{');
            out.push_str(t.as_str());
            out.push('}');
            assert(out@ =~= seq!['{'] + t@ + seq!['}']);
            Ok(out)
        },
        Value::List(es) => {
            proof {
                lemma_list_view(*es);
            }
            let mut t: String = String::new();
            assert(t@ =~= Seq::empty());
            for n in 0..es.len()
                invariant
                    v@ == Datum::List(data(es@)),
                    json_elements(v@, n as nat, host@) == Ok::<Seq<char>, Query>(t@),
                    decreases_to!(*v => *es),
            {
                proof {
                    assert(decreases_to!(*es => es@));
                    assert(decreases_to!(es@ => es@[n as int]));
                    assert(data(es@)[n as int] == es@[n as int]@);
                }
                let x: String = match jval_json(&es[n], host) {
                    Err(a) => {
                        proof {
                            lemma_json_elements_stop(v@, (n + 1) as nat, es@.len(), host@);
                        }
                        return Err(a);
                    },
                    Ok(x) => x,
                };
                if n > 0 {
                    t.push(',');
                }
                t.push_str(x.as_str());
            }
            let mut out: String = String::new();
            out.push('[');
            out.push_str(t.as_str());
            out.push(']');
            assert(out@ =~= seq!['['] + t@ + seq![']']);
            Ok(out)
        },
        _ => Ok(owned("null")),
    }
}

// ------------------------------------------------------------------- cells

/// The first value of that name; null where it is not there.
pub open spec fn member(m: Seq<(Seq<char>, Datum)>, k: Seq<char>) -> Datum
    decreases m.len(),
{
    if m.len() == 0 {
        Datum::Null
    } else if m[0].0 == k {
        m[0].1
    } else {
        member(m.drop_first(), k)
    }
}

/// The first value of that name; null where it is not there.
pub fn member_of(m: &Members, k: &str) -> (r: Value)
    ensures
        r@ == member(member_views(m@), k@),
{
    let ghost s = member_views(m@);
    assert(s.skip(0) =~= s);
    for i in 0..m.len()
        invariant
            s == member_views(m@),
            member(s, k@) == member(s.skip(i as int), k@),
    {
        assert(s.skip(i as int).drop_first() =~= s.skip(i + 1));
        assert(s.skip(i as int)[0] == (m@[i as int].0@, m@[i as int].1@));
        if same_text(m[i].0.as_str(), k) {
            return m[i].1.dup();
        }
    }
    Value::Null
}

/// A value as a cell of a scalar lane. What does not fit the lane is null, and
/// never a made-up value; a text lane takes everything.
pub open spec fn scalar_cell(ty: DataType, d: Datum, log: Log) -> Result<Datum, Query> {
    match ty {
        DataType::I64 => Ok(
            if d is I64 {
                d
            } else {
                Datum::Null
            },
        ),
        DataType::F64 => Ok(
            match d {
                Datum::I64(n) => Datum::F64(float_of(n as int)),
                Datum::F64(x) => d,
                _ => Datum::Null,
            },
        ),
        DataType::Bool => Ok(
            if d is Bool {
                d
            } else {
                Datum::Null
            },
        ),
        _ => match d {
            Datum::Null => Ok(Datum::Null),
            Datum::Str(s) => Ok(d),
            _ => match json_of(d, log) {
                Err(q) => Err(q),
                Ok(t) => Ok(Datum::Str(t)),
            },
        },
    }
}

fn build_scalar(ty: DataType, v: &Value, host: &Answers) -> (r: Result<Value, Ask>)
    ensures
        agree(r, scalar_cell(ty, v@, host@), |a: Value, b: Datum| a@ == b),
{
    match ty {
        DataType::I64 => Ok(
            match v {
                Value::I64(n) => Value::I64(*n),
                _ => Value::Null,
            },
        ),
        DataType::F64 => Ok(
            match v {
                Value::I64(n) => Value::F64(float_from(*n as i128)),
                Value::F64(x) => Value::F64(*x),
                _ => Value::Null,
            },
        ),
        DataType::Bool => Ok(
            match v {
                Value::Bool(b) => Value::Bool(*b),
                _ => Value::Null,
            },
        ),
        _ => match v {
            Value::Null => Ok(Value::Null),
            Value::Str(s) => Ok(Value::Str(s.clone())),
            _ => match jval_json(v, host) {
                Err(a) => Err(a),
                Ok(t) => Ok(Value::Str(t)),
            },
        },
    }
}

/// A value as a cell of a type: an object in a struct column, with a cell for
/// each of its names; an array in a list column; and null for anything else
/// there.
pub open spec fn cell_of(t: JTypeV, d: Datum, log: Log) -> Result<Datum, Query>
    decreases t, 1nat, 0nat,
{
    match t {
        JTypeV::Scalar(ty) => scalar_cell(ty, d, log),
        JTypeV::Struct { names, children } => match d {
            Datum::Struct(m) => match member_cells(t, m, children.len(), log) {
                Err(q) => Err(q),
                Ok(c) => Ok(Datum::Struct(c)),
            },
            _ => Ok(Datum::Null),
        },
        JTypeV::List(e) => match d {
            Datum::List(v) => match element_cells(t, v, v.len(), log) {
                Err(q) => Err(q),
                Ok(c) => Ok(Datum::List(c)),
            },
            _ => Ok(Datum::Null),
        },
    }
}

/// The cells of the first `n` names of a struct column.
pub open spec fn member_cells(t: JTypeV, m: Seq<(Seq<char>, Datum)>, n: nat, log: Log) -> Result<
    Seq<(Seq<char>, Datum)>,
    Query,
>
    decreases t, 0nat, n,
{
    match t {
        JTypeV::Struct { names, children } => if 0 < n <= children.len() {
            match member_cells(t, m, (n - 1) as nat, log) {
                Err(q) => Err(q),
                Ok(s) => match cell_of(children[n - 1], member(m, names[n - 1]), log) {
                    Err(q) => Err(q),
                    Ok(c) => Ok(s.push((names[n - 1], c))),
                },
            }
        } else {
            Ok(Seq::empty())
        },
        _ => Ok(Seq::empty()),
    }
}

/// The cells of the first `n` elements of a list column.
pub open spec fn element_cells(t: JTypeV, v: Seq<Datum>, n: nat, log: Log) -> Result<
    Seq<Datum>,
    Query,
>
    decreases t, 0nat, n,
{
    match t {
        JTypeV::List(e) => if n > 0 {
            match element_cells(t, v, (n - 1) as nat, log) {
                Err(q) => Err(q),
                Ok(s) => match cell_of(*e, v[n - 1], log) {
                    Err(q) => Err(q),
                    Ok(c) => Ok(s.push(c)),
                },
            }
        } else {
            Ok(Seq::empty())
        },
        _ => Ok(Seq::empty()),
    }
}

/// The lane of a type.
pub open spec fn lane_of(t: JTypeV) -> DataType {
    match t {
        JTypeV::Scalar(ty) => ty,
        JTypeV::Struct { .. } => DataType::Struct,
        JTypeV::List(_) => DataType::List,
    }
}

/// A lane that values can be read into.
pub open spec fn json_lane(ty: DataType) -> bool {
    ty is I64 || ty is F64 || ty is Bool || ty is Str
}

/// Every scalar in the type is one that values can be read into, and every
/// object has a type for each name.
pub open spec fn readable(t: JTypeV) -> bool
    decreases t,
{
    match t {
        JTypeV::Scalar(ty) => json_lane(ty),
        JTypeV::Struct { names, children } => names.len() == children.len() && forall|i: int|
            0 <= i < children.len() ==> readable(#[trigger] children[i]),
        JTypeV::List(e) => readable(*e),
    }
}

/// What is known of sound values is a type that values can be read into.
pub proof fn lemma_type_readable(a: InferV)
    requires
        sound(a),
    ensures
        readable(type_of(a)),
    decreases a,
{
    if a.structs is Some {
        let s = a.structs->Some_0;
        assert forall|i: int| 0 <= i < s.children.len() implies readable(
            #[trigger] type_of(s.children[i]),
        ) by {
            assert(sound(s.children[i]));
            lemma_type_readable(s.children[i]);
        }
        let t = type_of(a);
        if t is Struct {
            assert forall|i: int| 0 <= i < t->children.len() implies readable(
                #[trigger] t->children[i],
            ) by {
                assert(t->children[i] == type_of(s.children[i]));
            }
        }
    }
    if a.list is Some {
        lemma_type_readable(*a.list->Some_0);
    }
}

/// A cell fits the lane of its type.
pub proof fn lemma_cell_fits(t: JTypeV, d: Datum, log: Log)
    requires
        readable(t),
    ensures
        cell_of(t, d, log) matches Ok(c) ==> fits(c, lane_of(t)),
{
}

proof fn lemma_member_cells_stop(t: JTypeV, m: Seq<(Seq<char>, Datum)>, n: nat, k: nat, log: Log)
    requires
        t is Struct,
        n <= k <= t->children.len(),
        member_cells(t, m, n, log) is Err,
    ensures
        member_cells(t, m, k, log) == member_cells(t, m, n, log),
    decreases k - n,
{
    if n < k {
        lemma_member_cells_stop(t, m, n, (k - 1) as nat, log);
    }
}

proof fn lemma_element_cells_stop(t: JTypeV, v: Seq<Datum>, n: nat, k: nat, log: Log)
    requires
        t is List,
        n <= k,
        element_cells(t, v, n, log) is Err,
    ensures
        element_cells(t, v, k, log) == element_cells(t, v, n, log),
    decreases k - n,
{
    if n < k {
        lemma_element_cells_stop(t, v, n, (k - 1) as nat, log);
    }
}

/// A value as a cell of a type (see [`cell_of`]).
pub fn build_cell(t: &JType, v: &Value, host: &Answers) -> (r: Result<Value, Ask>)
    requires
        readable(t@),
    ensures
        agree(r, cell_of(t@, v@, host@), |a: Value, b: Datum| a@ == b),
    decreases *t,
{
    match t {
        JType::Scalar(ty) => build_scalar(*ty, v, host),
        JType::Struct { names, children } => match v {
            Value::Struct(m) => {
                proof {
                    lemma_struct_view(*m);
                    assert(t@->children =~= type_views(children@));
                }
                let mut out: Members = Vec::new();
                assert(member_views(out@) =~= Seq::empty());
                for n in 0..children.len()
                    invariant
                        *t == (JType::Struct { names: *names, children: *children }),
                        readable(t@),
                        t@->children == type_views(children@),
                        t@->names == texts(names@),
                        v@ == Datum::Struct(member_views(m@)),
                        member_cells(t@, member_views(m@), n as nat, host@) == Ok::<
                            Seq<(Seq<char>, Datum)>,
                            Query,
                        >(member_views(out@)),
                {
                    proof {
                        assert(decreases_to!(*t => *children));
                        assert(decreases_to!(*children => children@));
                        assert(decreases_to!(children@ => children@[n as int]));
                        assert(readable(t@->children[n as int]));
                        assert(t@->names[n as int] == names@[n as int]@);
                    }
                    let x: Value = member_of(m, names[n].as_str());
                    let c: Value = match build_cell(&children[n], &x, host) {
                        Err(a) => {
                            proof {
                                lemma_member_cells_stop(
                                    t@,
                                    member_views(m@),
                                    (n + 1) as nat,
                                    children@.len(),
                                    host@,
                                );
                            }
                            return Err(a);
                        },
                        Ok(c) => c,
                    };
                    let ghost up = member_views(out@);
                    let ghost one = (names@[n as int]@, c@);
                    out.push((names[n].clone(), c));
                    assert(member_views(out@) =~= up.push(one));
                }
                proof {
                    lemma_struct_view(out);
                }
                Ok(Value::Struct(out))
            },
            _ => Ok(Value::Null),
        },
        JType::List(e) => match v {
            Value::List(es) => {
                proof {
                    lemma_list_view(*es);
                }
                let mut out: Vec<Value> = Vec::new();
                assert(data(out@) =~= Seq::empty());
                for n in 0..es.len()
                    invariant
                        *t == JType::List(*e),
                        readable(t@),
                        v@ == Datum::List(data(es@)),
                        element_cells(t@, data(es@), n as nat, host@) == Ok::<Seq<Datum>, Query>(
                            data(out@),
                        ),
                {
                    proof {
                        assert(decreases_to!(*t => *e));
                        assert(data(es@)[n as int] == es@[n as int]@);
                    }
                    let c: Value = match build_cell(e, &es[n], host) {
                        Err(a) => {
                            proof {
                                lemma_element_cells_stop(
                                    t@,
                                    data(es@),
                                    (n + 1) as nat,
                                    es@.len(),
                                    host@,
                                );
                            }
                            return Err(a);
                        },
                        Ok(c) => c,
                    };
                    let ghost up = data(out@);
                    out.push(c);
                    assert(data(out@) =~= up.push(c@));
                }
                proof {
                    lemma_list_view(out);
                }
                Ok(Value::List(out))
            },
            _ => Ok(Value::Null),
        },
    }
}

/// The cells of the first `n` values.
pub open spec fn cells(t: JTypeV, vals: Seq<Datum>, n: nat, log: Log) -> Result<Seq<Datum>, Query>
    decreases n,
{
    if n == 0 {
        Ok(Seq::empty())
    } else {
        match cells(t, vals, (n - 1) as nat, log) {
            Err(q) => Err(q),
            Ok(s) => match cell_of(t, vals[n - 1], log) {
                Err(q) => Err(q),
                Ok(c) => Ok(s.push(c)),
            },
        }
    }
}

proof fn lemma_cells_stop(t: JTypeV, vals: Seq<Datum>, n: nat, m: nat, log: Log)
    requires
        n <= m,
        cells(t, vals, n, log) is Err,
    ensures
        cells(t, vals, m, log) == cells(t, vals, n, log),
    decreases m - n,
{
    if n < m {
        lemma_cells_stop(t, vals, n, (m - 1) as nat, log);
    }
}

/// A column of values (see [`cell_of`]).
pub fn build_column(t: &JType, vals: &Vec<Value>, host: &Answers) -> (r: Result<Column, Ask>)
    requires
        readable(t@),
    ensures
        agree(
            r,
            cells(t@, data(vals@), vals@.len(), host@),
            |c: Column, s: Seq<Datum>|
                c@ == (Lane { dtype: lane_of(t@), cells: s }) && c@.typed() && s.len() == vals@.len(),
        ),
{
    let dtype: DataType = match t {
        JType::Scalar(ty) => *ty,
        JType::Struct { .. } => DataType::Struct,
        JType::List(_) => DataType::List,
    };
    let mut out: Vec<Value> = Vec::new();
    assert(data(out@) =~= Seq::empty());
    for n in 0..vals.len()
        invariant
            readable(t@),
            dtype == lane_of(t@),
            out@.len() == n,
            cells(t@, data(vals@), n as nat, host@) == Ok::<Seq<Datum>, Query>(data(out@)),
            forall|k: int| 0 <= k < n ==> fits((#[trigger] out@[k])@, dtype),
    {
        assert(data(vals@)[n as int] == vals@[n as int]@);
        proof {
            lemma_cell_fits(t@, vals@[n as int]@, host@);
        }
        match build_cell(t, &vals[n], host) {
            Err(a) => {
                proof {
                    lemma_cells_stop(t@, data(vals@), (n + 1) as nat, vals@.len(), host@);
                }
                return Err(a);
            },
            Ok(c) => {
                let ghost up = data(out@);
                out.push(c);
                assert(data(out@) =~= up.push(c@));
            },
        }
    }
    Ok(Column { dtype, cells: out })
}

// ------------------------------------------------------------------ schema

/// The field of a type: a struct has a field for each name, a list one named
/// `item`.
pub open spec fn field_of(name: Seq<char>, t: JTypeV) -> FieldV
    decreases t,
{
    match t {
        JTypeV::Scalar(ty) => flat_field(name, ty),
        JTypeV::Struct { names, children } => FieldV {
            name,
            dtype: DataType::Struct,
            nested: Shape::Struct(
                Seq::new(
                    children.len(),
                    |i: int|
                        if 0 <= i < children.len() {
                            field_of(names[i], children[i])
                        } else {
                            arbitrary()
                        },
                ),
            ),
        },
        JTypeV::List(e) => FieldV {
            name,
            dtype: DataType::List,
            nested: Shape::List(Box::new(field_of("item"@, *e))),
        },
    }
}

/// The field of a type (see [`field_of`]).
pub fn jtype_to_field(name: String, t: &JType) -> (r: Field)
    requires
        readable(t@),
    ensures
        r@ == field_of(name@, t@),
        r@.dtype == lane_of(t@),
    decreases *t,
{
    match t {
        JType::Scalar(ty) => Field::flat(name, *ty),
        JType::Struct { names, children } => {
            proof {
                assert(t@->children =~= type_views(children@));
            }
            let mut kids: Vec<Field> = Vec::new();
            for n in 0..children.len()
                invariant
                    *t == (JType::Struct { names: *names, children: *children }),
                    readable(t@),
                    t@->children == type_views(children@),
                    t@->names == texts(names@),
                    kids@.len() == n,
                    forall|k: int|
                        0 <= k < n ==> (#[trigger] kids@[k])@ == field_of(
                            t@->names[k],
                            t@->children[k],
                        ),
            {
                proof {
                    assert(decreases_to!(*t => *children));
                    assert(decreases_to!(*children => children@));
                    assert(decreases_to!(children@ => children@[n as int]));
                    assert(readable(t@->children[n as int]));
                    assert(t@->names[n as int] == names@[n as int]@);
                }
                let f: Field = jtype_to_field(names[n].clone(), &children[n]);
                kids.push(f);
            }
            let r = Field { name, dtype: DataType::Struct, nested: Nested::Struct(kids) };
            proof {
                assert(r@.nested->Struct_0 =~= field_of(name@, t@).nested->Struct_0);
            }
            r
        },
        JType::List(e) => {
            let f: Field = jtype_to_field(owned("item"), e);
            Field { name, dtype: DataType::List, nested: Nested::List(Box::new(f)) }
        },
    }
}

} // verus!
