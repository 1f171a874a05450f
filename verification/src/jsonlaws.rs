//! What is read out of JSON: which type a column gets from its values, which cell a
//! value becomes, and that what a chunk writes comes back in its columns.
use vstd::prelude::*;
use crate::chunk::Batch;
use crate::float::{float_of, truncated};
use crate::host::{Log, Query};
use crate::infer::{keys_of, nothing, opened, seen_all, seen_members, type_of, JTypeV, StructV};
use crate::jcolumn::{cell_of, cells, element_cells, json_lane, json_of, lane_of, member, member_cells};
use crate::json::{after_ws, object_in, value_at};
use crate::jsonl::{array_from, balanced, column_values, columns_as, element_at, is_blank, rows_from, table_of, text_rows, Row, RowsV};
use crate::orderlaws::lemma_integer_double;
use crate::readback::{lemma_row_reads_back, row_members, self_written};
use crate::sink::json_object;
use crate::strings::{is_space, pieces, trim_end, trim_start};
use crate::text::int_text;
use crate::value::{fits, DataType, Datum};

verus! {

// --------------------------------------------------------------------- types

/// A value of the kinds that stand in a scalar column.
pub open spec fn scalar(d: Datum) -> bool {
    !(d is Struct) && !(d is List)
}

/// Some value is there.
pub open spec fn some_present(s: Seq<Datum>) -> bool {
    exists|i: int| 0 <= i < s.len() && !(#[trigger] s[i] is Null)
}

/// The lane that values call for: text where none is there; integers, truth values
/// or numbers where all that are there are; and text for any other mixture.
pub open spec fn called_for(s: Seq<Datum>, ty: DataType) -> bool {
    let whole = forall|i: int| 0 <= i < s.len() ==> (#[trigger] s[i] is Null || s[i] is I64);
    let number = forall|i: int|
        0 <= i < s.len() ==> (#[trigger] s[i] is Null || s[i] is I64 || s[i] is F64);
    let truth = forall|i: int| 0 <= i < s.len() ==> (#[trigger] s[i] is Null || s[i] is Bool);
    if !some_present(s) {
        ty == DataType::Str
    } else if whole {
        ty == DataType::I64
    } else if number {
        ty == DataType::F64
    } else if truth {
        ty == DataType::Bool
    } else {
        ty == DataType::Str
    }
}

/// What the flags of scalar values say.
proof fn lemma_flags_say(s: Seq<Datum>)
    requires
        forall|i: int| 0 <= i < s.len() ==> scalar(#[trigger] s[i]),
    ensures
        ({
            let a = seen_all(nothing(), s);
            &&& a.structs is None
            &&& a.list is None
            &&& a.scalar.any == some_present(s)
            &&& a.scalar.all_int == forall|i: int|
                0 <= i < s.len() ==> (#[trigger] s[i] is Null || s[i] is I64)
            &&& a.scalar.all_num == forall|i: int|
                0 <= i < s.len() ==> (#[trigger] s[i] is Null || s[i] is I64 || s[i] is F64)
            &&& a.scalar.all_bool == forall|i: int|
                0 <= i < s.len() ==> (#[trigger] s[i] is Null || s[i] is Bool)
        }),
    decreases s.len(),
{
    if s.len() > 0 {
        let up = s.drop_last();
        assert forall|i: int| 0 <= i < up.len() implies scalar(#[trigger] up[i]) by {
            assert(scalar(s[i]));
        }
        lemma_flags_say(up);
        let last = s[s.len() - 1];
        assert(scalar(last));
        assert forall|i: int| 0 <= i < up.len() implies s[i] == #[trigger] up[i] by {}
        assert forall|i: int| 0 <= i < s.len() implies #[trigger] s[i] == if i < up.len() {
            up[i]
        } else {
            last
        } by {}
        let a = seen_all(nothing(), s);
        if some_present(up) {
            let i = choose|i: int| 0 <= i < up.len() && !(#[trigger] up[i] is Null);
            assert(!(s[i] is Null));
        }
        let (b, n) = (seen_all(nothing(), up), s.len());
        assert(b.scalar.all_int && (last is Null || last is I64) ==> forall|i: int|
            0 <= i < n ==> (#[trigger] s[i] is Null || s[i] is I64));
        if !b.scalar.all_int {
            let i = choose|i: int| 0 <= i < up.len() && !(#[trigger] up[i] is Null || up[i] is I64);
            assert(!(s[i] is Null || s[i] is I64));
        }
        if !b.scalar.all_num {
            let i = choose|i: int|
                0 <= i < up.len() && !(#[trigger] up[i] is Null || up[i] is I64 || up[i] is F64);
            assert(!(s[i] is Null || s[i] is I64 || s[i] is F64));
        }
        if !b.scalar.all_bool {
            let i = choose|i: int| 0 <= i < up.len() && !(#[trigger] up[i] is Null || up[i] is Bool);
            assert(!(s[i] is Null || s[i] is Bool));
        }
    }
}

/// The type of a column of scalars is the one that its values call for.
pub proof fn lemma_values_call_for(s: Seq<Datum>)
    requires
        forall|i: int| 0 <= i < s.len() ==> scalar(#[trigger] s[i]),
    ensures
        type_of(seen_all(nothing(), s)) matches JTypeV::Scalar(ty) && called_for(s, ty),
{
    lemma_flags_say(s);
}

/// Where all values that are there are objects, the column is one of objects; where
/// all are arrays, one of arrays. Where kinds meet, it is text.
pub proof fn lemma_kinds_call_for(s: Seq<Datum>)
    requires
        some_present(s),
    ensures
        ({
            let t = type_of(seen_all(nothing(), s));
            &&& (forall|i: int| 0 <= i < s.len() ==> (#[trigger] s[i] is Null || s[i] is Struct))
                ==> t is Struct
            &&& (forall|i: int| 0 <= i < s.len() ==> (#[trigger] s[i] is Null || s[i] is List))
                ==> t is List
            &&& forall|i: int, j: int|
                0 <= i < s.len() && 0 <= j < s.len() && (#[trigger] s[i] is Struct)
                    && !(#[trigger] s[j] is Struct || s[j] is Null) ==> t == JTypeV::Scalar(
                    DataType::Str,
                )
            &&& forall|i: int, j: int|
                0 <= i < s.len() && 0 <= j < s.len() && (#[trigger] s[i] is List)
                    && !(#[trigger] s[j] is List || s[j] is Null) ==> t == JTypeV::Scalar(
                    DataType::Str,
                )
        }),
{
    lemma_kinds_seen(s);
}

proof fn lemma_kinds_seen(s: Seq<Datum>)
    ensures
        ({
            let a = seen_all(nothing(), s);
            &&& a.structs is Some <==> exists|i: int| 0 <= i < s.len() && #[trigger] s[i] is Struct
            &&& a.list is Some <==> exists|i: int| 0 <= i < s.len() && #[trigger] s[i] is List
            &&& a.saw_scalar <==> exists|i: int|
                0 <= i < s.len() && !(#[trigger] s[i] is Null) && scalar(s[i])
        }),
    decreases s.len(),
{
    if s.len() > 0 {
        let up = s.drop_last();
        lemma_kinds_seen(up);
        let (a, b) = (seen_all(nothing(), s), seen_all(nothing(), up));
        let last = s[s.len() - 1];
        assert forall|i: int| 0 <= i < s.len() implies #[trigger] s[i] == if i < up.len() {
            up[i]
        } else {
            last
        } by {}
        if b.structs is Some {
            let i = choose|i: int| 0 <= i < up.len() && #[trigger] up[i] is Struct;
            assert(s[i] is Struct);
        }
        if b.list is Some {
            let i = choose|i: int| 0 <= i < up.len() && #[trigger] up[i] is List;
            assert(s[i] is List);
        }
        if b.saw_scalar {
            let i = choose|i: int|
                0 <= i < up.len() && !(#[trigger] up[i] is Null) && scalar(up[i]);
            assert(!(s[i] is Null) && scalar(s[i]));
        }
        if last is Struct {
            assert(s[s.len() - 1] is Struct);
        } else if last is List {
            assert(s[s.len() - 1] is List);
        } else if !(last is Null) {
            assert(!(s[s.len() - 1] is Null) && scalar(s[s.len() - 1]));
        }
    }
}

proof fn lemma_members_lead(s: StructV, d: Datum, n: nat)
    requires
        s.shown <= s.names.len(),
    ensures
        ({
            let t = seen_members(s, d, n);
            &&& t.shown == s.shown
            &&& t.shown <= t.names.len()
            &&& t.names.take(t.shown as int) == s.names.take(s.shown as int)
        }),
    decreases n,
{
    if let Datum::Struct(m) = d {
        if 0 < n <= m.len() {
            lemma_members_lead(s, d, (n - 1) as nat);
            let (up, t) = (seen_members(s, d, (n - 1) as nat), seen_members(s, d, n));
            assert(t.names.take(t.shown as int) =~= up.names.take(up.shown as int));
        }
    }
}

proof fn lemma_names_lead(s: Seq<Datum>, i: int)
    requires
        0 <= i < s.len(),
        s[i] is Struct,
        forall|k: int| 0 <= k < i ==> !(#[trigger] s[k] is Struct),
    ensures
        ({
            let a = seen_all(nothing(), s);
            &&& a.structs is Some
            &&& a.structs->0.shown <= a.structs->0.names.len()
            &&& a.structs->0.names.take(a.structs->0.shown as int) == keys_of(s[i]->Struct_0)
        }),
    decreases s.len(),
{
    let up = s.drop_last();
    let last = s[s.len() - 1];
    assert forall|k: int| 0 <= k < up.len() implies up[k] == #[trigger] s[k] by {}
    let b = seen_all(nothing(), up);
    if i < up.len() {
        lemma_names_lead(up, i);
        if last is Struct {
            lemma_members_lead(b.structs->0, last, last->Struct_0.len());
        }
    } else {
        lemma_kinds_seen(up);
        assert(b.structs is None);
        let m = last->Struct_0;
        lemma_members_lead(opened(m), last, m.len());
        assert(opened(m).names.take(m.len() as int) =~= keys_of(m));
    }
}

/// A column of objects has the names of the first object, in its order.
pub proof fn lemma_names_of_first(s: Seq<Datum>, i: int)
    requires
        0 <= i < s.len(),
        s[i] is Struct,
        forall|k: int| 0 <= k < i ==> !(#[trigger] s[k] is Struct),
        forall|k: int| 0 <= k < s.len() ==> (#[trigger] s[k] is Struct || s[k] is Null),
    ensures
        type_of(seen_all(nothing(), s)) matches JTypeV::Struct { names, children } && names == keys_of(
            s[i]->Struct_0,
        ) && children.len() == names.len(),
{
    lemma_names_lead(s, i);
    lemma_kinds_seen(s);
}

// --------------------------------------------------------------------- cells

/// A value that is of the column's type already stands in the column as it is, in
/// each lane that values are read into; and a missing value stays missing.
pub proof fn lemma_own_type_unchanged(ty: DataType, d: Datum, log: Log)
    requires
        json_lane(ty),
        fits(d, ty),
    ensures
        cell_of(JTypeV::Scalar(ty), d, log) == Ok::<Datum, Query>(d),
{
}

/// A value of another type is missing in a column of integers, numbers or truth
/// values, but for an integer among numbers, which is that number; a column of texts
/// takes its JSON.
pub proof fn lemma_other_types(ty: DataType, d: Datum, log: Log)
    requires
        json_lane(ty),
        !fits(d, ty),
    ensures
        ({
            let c = cell_of(JTypeV::Scalar(ty), d, log);
            &&& ty is I64 ==> c == Ok::<Datum, Query>(Datum::Null)
            &&& ty is Bool ==> c == Ok::<Datum, Query>(Datum::Null)
            &&& ty is F64 && !(d is I64) ==> c == Ok::<Datum, Query>(Datum::Null)
            &&& ty is F64 && d is I64 ==> (c matches Ok(Datum::F64(x)) && x == float_of(
                d->I64_0 as int,
            ) && (-0x20_0000_0000_0000 <= d->I64_0 <= 0x20_0000_0000_0000 ==> truncated(x)
                == d->I64_0))
            &&& ty is Str && d is I64 ==> c == Ok::<Datum, Query>(
                Datum::Str(int_text(d->I64_0 as int)),
            )
            &&& ty is Str && d == Datum::Bool(true) ==> c == Ok::<Datum, Query>(
                Datum::Str(seq!['t', 'r', 'u', 'e']),
            )
            &&& ty is Str && d == Datum::Bool(false) ==> c == Ok::<Datum, Query>(
                Datum::Str(seq!['f', 'a', 'l', 's', 'e']),
            )
            &&& ty is Str ==> match json_of(d, log) {
                Ok(t) => c == Ok::<Datum, Query>(Datum::Str(t)),
                Err(q) => c == Err::<Datum, Query>(q),
            }
        }),
{
    reveal_strlit("true");
    reveal_strlit("false");
    assert("true"@ =~= seq!['t', 'r', 'u', 'e']);
    assert("false"@ =~= seq!['f', 'a', 'l', 's', 'e']);
    if let Datum::I64(n) = d {
        if -0x20_0000_0000_0000 <= n <= 0x20_0000_0000_0000 {
            lemma_integer_double(n as int);
        }
    }
}

/// The value of a name in a row is that of its first member of that name; without
/// one it is missing.
pub proof fn lemma_member_is_first(m: Row, k: Seq<char>, i: int)
    ensures
        0 <= i < m.len() && m[i].0 == k && (forall|j: int| 0 <= j < i ==> (#[trigger] m[j]).0 != k)
            ==> member(m, k) == m[i].1,
        (forall|j: int| 0 <= j < m.len() ==> (#[trigger] m[j]).0 != k) ==> member(m, k)
            == Datum::Null,
    decreases m.len(),
{
    if m.len() > 0 {
        let rest = m.drop_first();
        assert forall|j: int| 0 <= j < rest.len() implies rest[j] == #[trigger] m[j + 1] by {}
        if m[0].0 != k {
            lemma_member_is_first(rest, k, i - 1);
            if 0 <= i < m.len() && m[i].0 == k && (forall|j: int|
                0 <= j < i ==> (#[trigger] m[j]).0 != k) {
                assert(i > 0);
                assert(rest[i - 1] == m[i]);
                assert forall|j: int| 0 <= j < i - 1 implies (#[trigger] rest[j]).0 != k by {
                    assert(rest[j] == m[j + 1]);
                }
            }
            if forall|j: int| 0 <= j < m.len() ==> (#[trigger] m[j]).0 != k {
                assert forall|j: int| 0 <= j < rest.len() implies (#[trigger] rest[j]).0 != k by {
                    assert(rest[j] == m[j + 1]);
                }
            }
        }
    }
}

proof fn lemma_member_cells(t: JTypeV, m: Row, n: nat, log: Log)
    requires
        t is Struct,
        n <= t->children.len(),
        member_cells(t, m, n, log) is Ok,
    ensures
        ({
            let c = member_cells(t, m, n, log)->Ok_0;
            &&& c.len() == n
            &&& forall|i: int|
                0 <= i < n ==> (#[trigger] c[i]).0 == t->names[i] && cell_of(
                    t->children[i],
                    member(m, t->names[i]),
                    log,
                ) == Ok::<Datum, Query>(c[i].1)
        }),
    decreases n,
{
    if n > 0 {
        lemma_member_cells(t, m, (n - 1) as nat, log);
        let up = member_cells(t, m, (n - 1) as nat, log)->Ok_0;
        let c = member_cells(t, m, n, log)->Ok_0;
        assert forall|i: int| 0 <= i < n - 1 implies #[trigger] c[i] == up[i] by {}
    }
}

proof fn lemma_element_cells(t: JTypeV, v: Seq<Datum>, n: nat, log: Log)
    requires
        t is List,
        element_cells(t, v, n, log) is Ok,
    ensures
        ({
            let c = element_cells(t, v, n, log)->Ok_0;
            &&& c.len() == n
            &&& forall|i: int|
                0 <= i < n ==> cell_of(*t->List_0, v[i], log) == Ok::<Datum, Query>(#[trigger] c[i])
        }),
    decreases n,
{
    if n > 0 {
        lemma_element_cells(t, v, (n - 1) as nat, log);
        let up = element_cells(t, v, (n - 1) as nat, log)->Ok_0;
        let c = element_cells(t, v, n, log)->Ok_0;
        assert forall|i: int| 0 <= i < n - 1 implies #[trigger] c[i] == up[i] by {}
    }
}

/// A nested value becomes a cell part by part: an object in a column of objects has
/// for each name of the column the cell of its member of that name; an array in a
/// column of arrays has the cell of each element, in order. Anything else there is
/// missing.
pub proof fn lemma_nested_cells(t: JTypeV, d: Datum, log: Log)
    requires
        cell_of(t, d, log) is Ok,
    ensures
        ({
            let c = cell_of(t, d, log)->Ok_0;
            &&& t is Struct && d is Struct ==> (c matches Datum::Struct(p) && {
                &&& p.len() == t->children.len()
                &&& forall|i: int|
                    0 <= i < p.len() ==> (#[trigger] p[i]).0 == t->names[i] && cell_of(
                        t->children[i],
                        member(d->Struct_0, t->names[i]),
                        log,
                    ) == Ok::<Datum, Query>(p[i].1)
            })
            &&& t is List && d is List ==> (c matches Datum::List(p) && {
                &&& p.len() == d->List_0.len()
                &&& forall|i: int|
                    0 <= i < p.len() ==> cell_of(*t->List_0, d->List_0[i], log) == Ok::<Datum, Query>(
                        #[trigger] p[i],
                    )
            })
            &&& t is Struct && !(d is Struct) ==> c is Null
            &&& t is List && !(d is List) ==> c is Null
        }),
{
    if t is Struct && d is Struct {
        lemma_member_cells(t, d->Struct_0, t->children.len(), log);
    }
    if t is List && d is List {
        lemma_element_cells(t, d->List_0, d->List_0.len(), log);
    }
}

// ------------------------------------------------------------------- columns

proof fn lemma_cells_each(t: JTypeV, vals: Seq<Datum>, n: nat, log: Log)
    ensures
        cells(t, vals, n, log) matches Ok(c) ==> {
            &&& c.len() == n
            &&& forall|i: int|
                0 <= i < n ==> cell_of(t, vals[i], log) == Ok::<Datum, Query>(#[trigger] c[i])
        },
        (forall|i: int| 0 <= i < n ==> cell_of(t, #[trigger] vals[i], log) is Ok) ==> cells(
            t,
            vals,
            n,
            log,
        ) is Ok,
    decreases n,
{
    if n > 0 {
        lemma_cells_each(t, vals, (n - 1) as nat, log);
        if cells(t, vals, n, log) is Ok {
            let up = cells(t, vals, (n - 1) as nat, log)->Ok_0;
            let c = cells(t, vals, n, log)->Ok_0;
            assert forall|i: int| 0 <= i < n - 1 implies #[trigger] c[i] == up[i] by {}
        }
        if forall|i: int| 0 <= i < n ==> cell_of(t, #[trigger] vals[i], log) is Ok {
            assert(cell_of(t, vals[n - 1], log) is Ok);
        }
    }
}

/// The columns of rows: the cell at a row of a column is that of the row's member of
/// the column's name, in the column's type; and every column has a cell for each row.
pub proof fn lemma_columns_hold_members(
    rows: Seq<Row>,
    names: Seq<Seq<char>>,
    types: Seq<JTypeV>,
    n: nat,
    log: Log,
)
    requires
        columns_as(rows, names, types, n, log) is Ok,
    ensures
        ({
            let cols = columns_as(rows, names, types, n, log)->Ok_0;
            &&& cols.len() == n
            &&& forall|j: int|
                #![trigger cols[j]]
                0 <= j < n ==> {
                    &&& cols[j].cells.len() == rows.len()
                    &&& cols[j].dtype == lane_of(types[j])
                    &&& forall|r: int|
                        0 <= r < rows.len() ==> cell_of(types[j], member(rows[r], names[j]), log)
                            == Ok::<Datum, Query>(#[trigger] cols[j].cells[r])
                }
        }),
    decreases n,
{
    if n > 0 {
        lemma_columns_hold_members(rows, names, types, (n - 1) as nat, log);
        let up = columns_as(rows, names, types, (n - 1) as nat, log)->Ok_0;
        let cols = columns_as(rows, names, types, n, log)->Ok_0;
        let vals = column_values(rows, names[n - 1]);
        lemma_cells_each(types[n - 1], vals, rows.len(), log);
        assert forall|j: int|
            #![trigger cols[j]]
            0 <= j < n implies {
            &&& cols[j].cells.len() == rows.len()
            &&& cols[j].dtype == lane_of(types[j])
            &&& forall|r: int|
                0 <= r < rows.len() ==> cell_of(types[j], member(rows[r], names[j]), log) == Ok::<
                    Datum,
                    Query,
                >(#[trigger] cols[j].cells[r])
        } by {
            if j < n - 1 {
                assert(cols[j] == up[j]);
            }
        }
    }
}

// --------------------------------------------------------------- there and back

/// A chunk of texts, integers and truth values, each column of a name of its own.
pub open spec fn plain_chunk(b: Batch) -> bool {
    &&& b.wf()
    &&& b.fields.len() == b.columns.len()
    &&& b.fields.len() > 0
    &&& b.len > 0
    &&& forall|j: int|
        0 <= j < b.columns.len() ==> ((#[trigger] b.columns[j]).dtype is Str || b.columns[j].dtype is I64
            || b.columns[j].dtype is Bool)
    &&& forall|i: int, j: int|
        0 <= i < j < b.fields.len() ==> (#[trigger] b.fields[i]).name != (#[trigger] b.fields[j]).name
}

/// The rows of a chunk as they are written: each column's name with its cell.
pub open spec fn written_rows(b: Batch) -> Seq<Row> {
    Seq::new(b.len, |r: int| row_members(b, r, 0))
}

proof fn lemma_written_values(b: Batch, j: int)
    requires
        plain_chunk(b),
        0 <= j < b.fields.len(),
    ensures
        column_values(written_rows(b), b.fields[j].name) == b.columns[j].cells,
{
    let rows = written_rows(b);
    let k = b.fields[j].name;
    assert forall|r: int| 0 <= r < rows.len() implies member(#[trigger] rows[r], k)
        == b.columns[j].cells[r] by {
        let m = rows[r];
        assert(m[j].0 == k);
        assert forall|i: int| 0 <= i < j implies (#[trigger] m[i]).0 != k by {
            assert(m[i].0 == b.fields[i].name);
        }
        lemma_member_is_first(m, k, j);
    }
    assert(b.columns[j].cells.len() == b.len);
    assert(column_values(rows, k) =~= b.columns[j].cells);
}

/// What a chunk writes, read into columns of the types that its values call for, is
/// the chunk: the names in order, and every cell. A column in which some value is
/// there has its type again.
pub proof fn lemma_chunk_reads_back(b: Batch, log: Log)
    requires
        plain_chunk(b),
    ensures
        table_of(written_rows(b), 0, log) matches Ok(Some(t)) && {
            &&& t.bad_rows == 0
            &&& t.fields.len() == b.fields.len()
            &&& t.columns.len() == b.columns.len()
            &&& forall|j: int|
                0 <= j < b.fields.len() ==> (#[trigger] t.fields[j]).name == b.fields[j].name
            &&& forall|j: int|
                0 <= j < b.columns.len() ==> (#[trigger] t.columns[j]).cells == b.columns[j].cells
            &&& forall|j: int|
                0 <= j < b.columns.len() && some_present(b.columns[j].cells) ==> (
                #[trigger] t.columns[j]).dtype == b.columns[j].dtype
        },
{
    let rows = written_rows(b);
    let names = keys_of(rows[0]);
    let types = crate::jsonl::row_types(rows, names);
    assert(names.len() == b.fields.len());
    assert forall|j: int| 0 <= j < names.len() implies {
        &&& #[trigger] names[j] == b.fields[j].name
        &&& types[j] is Scalar
        &&& some_present(b.columns[j].cells) ==> types[j] == JTypeV::Scalar(b.columns[j].dtype)
        &&& forall|r: int|
            0 <= r < b.len ==> cell_of(types[j], member(rows[r], names[j]), log) == Ok::<Datum, Query>(
                #[trigger] b.columns[j].cells[r],
            )
    } by {
        assert(names[j] == b.fields[j].name);
        lemma_written_values(b, j);
        let c = b.columns[j];
        let s = c.cells;
        assert(c.typed());
        assert forall|i: int| 0 <= i < s.len() implies scalar(#[trigger] s[i]) && (s[i] is Null
            || s[i] is Str || s[i] is I64 || s[i] is Bool) && fits(s[i], c.dtype) by {
            assert(fits(s[i], c.dtype));
        }
        lemma_values_call_for(s);
        let t = types[j];
        assert(t == type_of(seen_all(nothing(), s)));
        let ty = t->Scalar_0;
        if some_present(s) {
            let i = choose|i: int| 0 <= i < s.len() && !(#[trigger] s[i] is Null);
            assert(fits(s[i], c.dtype));
            if c.dtype is Str {
                assert(s[i] is Str);
            } else if c.dtype is I64 {
                assert(s[i] is I64);
            } else {
                assert(s[i] is Bool);
                assert(!(s[i] is Null || s[i] is I64));
                assert(!(s[i] is Null || s[i] is I64 || s[i] is F64));
            }
            assert(ty == c.dtype);
        }
        assert forall|r: int| 0 <= r < b.len implies cell_of(t, member(rows[r], names[j]), log)
            == Ok::<Datum, Query>(#[trigger] s[r]) by {
            assert(column_values(rows, names[j])[r] == s[r]);
            assert(fits(s[r], c.dtype));
            if !some_present(s) {
                assert(s[r] is Null);
            }
            lemma_own_type_unchanged(ty, s[r], log);
        }
    }
    assert forall|j: int, r: int|
        #![trigger names[j], rows[r]]
        0 <= j < names.len() && 0 <= r < rows.len() implies cell_of(
        types[j],
        member(rows[r], names[j]),
        log,
    ) is Ok by {
        assert(names[j] == b.fields[j].name);
        assert(cell_of(types[j], member(rows[r], names[j]), log) == Ok::<Datum, Query>(
            b.columns[j].cells[r],
        ));
    }
    lemma_columns_are_ok(rows, names, types, names.len(), log);
    lemma_columns_hold_members(rows, names, types, names.len(), log);
    let cols = columns_as(rows, names, types, names.len(), log)->Ok_0;
    assert forall|j: int| 0 <= j < b.columns.len() implies (#[trigger] cols[j]).cells
        == b.columns[j].cells by {
        assert(names[j] == b.fields[j].name);
        assert(b.columns[j].cells.len() == b.len);
        assert forall|r: int| 0 <= r < b.len implies #[trigger] cols[j].cells[r]
            == b.columns[j].cells[r] by {
            assert(cell_of(types[j], member(rows[r], names[j]), log) == Ok::<Datum, Query>(
                b.columns[j].cells[r],
            ));
        }
        assert(cols[j].cells =~= b.columns[j].cells);
    }
    assert forall|j: int| 0 <= j < b.columns.len() && some_present(b.columns[j].cells) implies (
    #[trigger] cols[j]).dtype == b.columns[j].dtype by {
        assert(names[j] == b.fields[j].name);
    }
    let t = table_of(rows, 0, log)->Ok_0->0;
    assert forall|j: int| 0 <= j < b.fields.len() implies (#[trigger] t.fields[j]).name
        == b.fields[j].name by {
        assert(names[j] == b.fields[j].name);
        assert(types[j] is Scalar);
    }
}

proof fn lemma_columns_are_ok(
    rows: Seq<Row>,
    names: Seq<Seq<char>>,
    types: Seq<JTypeV>,
    n: nat,
    log: Log,
)
    requires
        forall|j: int, r: int|
            #![trigger names[j], rows[r]]
            0 <= j < n && 0 <= r < rows.len() ==> cell_of(types[j], member(rows[r], names[j]), log)
                is Ok,
    ensures
        columns_as(rows, names, types, n, log) is Ok,
    decreases n,
{
    if n > 0 {
        lemma_columns_are_ok(rows, names, types, (n - 1) as nat, log);
        let vals = column_values(rows, names[n - 1]);
        assert forall|i: int| 0 <= i < rows.len() implies cell_of(
            types[n - 1],
            #[trigger] vals[i],
            log,
        ) is Ok by {
            assert(vals[i] == member(rows[i], names[n - 1]));
        }
        lemma_cells_each(types[n - 1], vals, rows.len(), log);
    }
}

proof fn lemma_line_reads_back(b: Batch, line: Seq<char>, i: int, log: Log)
    requires
        plain_chunk(b),
        0 <= i < b.len,
        json_object(b, i, log) == Ok::<Seq<char>, Query>(line),
    ensures
        !is_blank(line),
        object_in(line, log) == Ok::<_, Query>(Some(row_members(b, i, 0))),
{
    assert forall|j: int| 0 <= j < b.fields.len() implies self_written(#[trigger] b.cell(i, j)) by {
        let c = b.columns[j];
        assert(c.typed() && c.cells.len() == b.len);
        assert(fits(c.cells[i], c.dtype));
    }
    lemma_row_reads_back(b, i, log);
    lemma_braced_not_blank(line);
}

proof fn lemma_lines_from(lines: Seq<Seq<char>>, all: Seq<Row>, i: int, log: Log)
    requires
        lines.len() == all.len(),
        0 <= i <= lines.len(),
        forall|r: int|
            0 <= r < lines.len() ==> !is_blank(#[trigger] lines[r]) && object_in(lines[r], log)
                == Ok::<_, Query>(Some(all[r])),
    ensures
        rows_from(lines, i, log) == Ok::<(Seq<Row>, nat), Query>((all.skip(i), 0)),
    decreases lines.len() - i,
{
    if i < lines.len() {
        lemma_lines_from(lines, all, i + 1, log);
        assert(!is_blank(lines[i]));
        assert(seq![all[i]] + all.skip(i + 1) =~= all.skip(i));
    } else {
        assert(all.skip(i) =~= Seq::empty());
    }
}

/// The lines that a chunk writes are the chunk's rows again, with none malformed.
pub proof fn lemma_lines_read_back(b: Batch, lines: Seq<Seq<char>>, log: Log)
    requires
        plain_chunk(b),
        lines.len() == b.len,
        forall|r: int|
            0 <= r < lines.len() ==> json_object(b, r, log) == Ok::<Seq<char>, Query>(
                #[trigger] lines[r],
            ),
    ensures
        rows_from(lines, 0, log) == Ok::<(Seq<Row>, nat), Query>((written_rows(b), 0)),
{
    let all = written_rows(b);
    assert forall|r: int| 0 <= r < lines.len() implies !is_blank(#[trigger] lines[r]) && object_in(
        lines[r],
        log,
    ) == Ok::<_, Query>(Some(all[r])) by {
        lemma_line_reads_back(b, lines[r], r, log);
    }
    lemma_lines_from(lines, all, 0, log);
    assert(all.skip(0) =~= all);
}

proof fn lemma_braced_not_blank(line: Seq<char>)
    requires
        line.len() >= 2,
        line[0] == '{',
        line.last() == '}',
    ensures
        !is_blank(line),
{
    assert(!is_space('{') && !is_space('}'));
    assert(trim_start(line) == line);
    assert(trim_end(line) == line);
}

// ------------------------------------------------------------------ documents

/// A document that starts with a bracket is an array, read behind the bracket; one
/// that starts with neither a bracket nor white space is lines.
pub proof fn lemma_document_kinds(t: Seq<char>, log: Log)
    requires
        t.len() > 0,
        !is_space(t[0]),
    ensures
        t[0] == '[' ==> text_rows(t, log) == array_from(t, 1, log),
        t[0] != '[' ==> text_rows(t, log) == rows_from(pieces(t, seq!['\n']), 0, log),
{
    assert(trim_start(t) == t);
}

/// Rows with one more before them.
pub open spec fn before_others(m: Row, rest: RowsV) -> RowsV {
    match rest {
        Ok((rows, bad)) => Ok((seq![m] + rows, bad)),
        Err(q) => Err(q),
    }
}

/// Rows with one more that is malformed.
pub open spec fn one_worse(rest: RowsV) -> RowsV {
    match rest {
        Ok((rows, bad)) => Ok((rows, bad + 1)),
        Err(q) => Err(q),
    }
}

/// The elements of an array, one after the other: the closing bracket ends it, a comma
/// is passed over, an object is a row, and an object that cannot be read, as well as
/// any other value, is malformed; the reading goes on behind it.
pub proof fn lemma_array_elements(b: Seq<char>, i: int, e: int, log: Log)
    requires
        0 <= i < b.len(),
        b[i] != ' ' && b[i] != '\t' && b[i] != '\r' && b[i] != '\n',
        i < e <= b.len(),
    ensures
        b[i] == ']' ==> array_from(b, i, log) == Ok::<(Seq<Row>, nat), Query>((Seq::empty(), 0)),
        b[i] == ',' ==> array_from(b, i, log) == array_from(b, i + 1, log),
        b[i] == '{' && balanced(b, i + 1, '{', '}', 1, false) == Some(e) ==> match object_in(
            b.subrange(i, e),
            log,
        ) {
            Ok(Some(m)) => array_from(b, i, log) == before_others(m, array_from(b, e, log)),
            Ok(None) => array_from(b, i, log) == one_worse(array_from(b, e, log)),
            Err(q) => array_from(b, i, log) == Err::<(Seq<Row>, nat), Query>(q),
        },
        b[i] != ']' && b[i] != ',' && b[i] != '{' ==> (value_at(b, i, log) matches Ok(Some((d, k)))
            && k == e ==> array_from(b, i, log) == one_worse(array_from(b, e, log))),
{
    reveal(element_at);
    assert(after_ws(b, i) == i);
    if let Ok((rows, bad)) = array_from(b, e, log) {
        assert(Seq::<Row>::empty() + rows =~= rows);
    }
}

/// The span of an object ends at its closing brace: characters that are neither a
/// brace nor a quote are passed over, and so is a string, whatever it holds but for
/// quotes and backslashes.
pub proof fn lemma_span_ends(b: Seq<char>, i: int, e: int, depth: nat)
    requires
        0 <= i < e <= b.len(),
    ensures
        depth <= 1 && b[i] == '}' ==> balanced(b, i, '{', '}', depth, false) == Some(i + 1),
        depth > 1 && b[i] == '}' ==> balanced(b, i, '{', '}', depth, false) == balanced(
            b,
            i + 1,
            '{',
            '}',
            (depth - 1) as nat,
            false,
        ),
        b[i] == '{' ==> balanced(b, i, '{', '}', depth, false) == balanced(
            b,
            i + 1,
            '{',
            '}',
            depth + 1,
            false,
        ),
        (forall|k: int| i <= k < e ==> (#[trigger] b[k]) != '{' && b[k] != '}' && b[k] != '"')
            ==> balanced(b, i, '{', '}', depth, false) == balanced(b, e, '{', '}', depth, false),
        (forall|k: int| i <= k < e ==> (#[trigger] b[k]) != '\\' && b[k] != '"') ==> balanced(
            b,
            i,
            '{',
            '}',
            depth,
            true,
        ) == balanced(b, e, '{', '}', depth, true),
        b[i] == '"' ==> balanced(b, i, '{', '}', depth, false) == balanced(
            b,
            i + 1,
            '{',
            '}',
            depth,
            true,
        ) && balanced(b, i, '{', '}', depth, true) == balanced(b, i + 1, '{', '}', depth, false),
    decreases e - i,
{
    if i + 1 < e {
        lemma_span_ends(b, i + 1, e, depth);
        if forall|k: int| i <= k < e ==> (#[trigger] b[k]) != '{' && b[k] != '}' && b[k] != '"' {
            assert(b[i] != '{' && b[i] != '}' && b[i] != '"');
        }
        if forall|k: int| i <= k < e ==> (#[trigger] b[k]) != '\\' && b[k] != '"' {
            assert(b[i] != '\\' && b[i] != '"');
        }
    } else {
        if forall|k: int| i <= k < e ==> (#[trigger] b[k]) != '{' && b[k] != '}' && b[k] != '"' {
            assert(b[i] != '{' && b[i] != '}' && b[i] != '"');
        }
        if forall|k: int| i <= k < e ==> (#[trigger] b[k]) != '\\' && b[k] != '"' {
            assert(b[i] != '\\' && b[i] != '"');
        }
    }
}

} // verus!
