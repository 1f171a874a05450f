//! What a group puts out, told by the rows that it was handed, and what a summary of
//! columns shows.
use vstd::prelude::*;
use crate::agg::{one_pass, Acc, AggFunc, Item};
use crate::cast::rendered;
use crate::chunk::{lemma_index_in, Batch, Lane};
use crate::describe::{noted, shown, summary_chunk, LineV};
use crate::event::CtxV;
use crate::float::float_of;
use crate::group::{agg_lane, agg_lanes, group_ends, group_views, grouped, has_key, items_for, items_of, lemma_dom, lemma_group_is_one_pass, lemma_place_is, number_cells, row_in, rows_in, AggV, GroupBy, GroupV, Groups, RowV};
use crate::host::{Log, Query};
use crate::orderlaws::{alphabetical, lemma_integer_double, lemma_texts_alphabetical};
use crate::rows::key_parts;
use crate::text::int_text;
use crate::value::{texts, Datum};

verus! {

// --------------------------------------------------------------- what is read

/// What a group reads of a row: the texts of its key cells, one for each key column,
/// and for each aggregate the cell of its column, with the cell's text where the
/// aggregate is one of texts; nothing where there is no such column.
pub open spec fn reads(b: Batch, at: Seq<usize>, aggs: Seq<AggV>, row: int, r: RowV, log: Log) -> bool {
    &&& r.parts.len() == at.len()
    &&& forall|i: int|
        0 <= i < at.len() ==> rendered(b.columns[at[i] as int].cells[row], log) == Ok::<
            Seq<char>,
            Query,
        >(#[trigger] r.parts[i])
    &&& r.items.len() == aggs.len()
    &&& forall|j: int| #![trigger r.items[j]]
        0 <= j < aggs.len() ==> match b.column(aggs[j].col) {
            None => r.items[j] is None,
            Some(c) => r.items[j] matches Some((d, t)) && d == c.cells[row] && (if aggs[j].func is CountDistinct
                || aggs[j].func is First || aggs[j].func is Last {
                rendered(d, log) == Ok::<Seq<char>, Query>(t)
            } else {
                t.len() == 0
            }),
        }
}

proof fn lemma_parts_read(b: Batch, at: Seq<usize>, row: int, n: nat, log: Log)
    requires
        key_parts(b, at, row, n, log) is Ok,
    ensures
        ({
            let p = key_parts(b, at, row, n, log)->Ok_0;
            &&& p.len() == n
            &&& forall|i: int|
                0 <= i < n ==> rendered(b.columns[at[i] as int].cells[row], log) == Ok::<
                    Seq<char>,
                    Query,
                >(#[trigger] p[i])
        }),
    decreases n,
{
    if n > 0 {
        lemma_parts_read(b, at, row, (n - 1) as nat, log);
    }
}

proof fn lemma_items_read(b: Batch, aggs: Seq<AggV>, row: int, n: nat, log: Log)
    requires
        n <= aggs.len(),
        items_of(b, aggs, row, n, log) is Ok,
    ensures
        ({
            let s = items_of(b, aggs, row, n, log)->Ok_0;
            &&& s.len() == n
            &&& forall|j: int| #![trigger s[j]]
                0 <= j < n ==> match b.column(aggs[j].col) {
                    None => s[j] is None,
                    Some(c) => s[j] matches Some((d, t)) && d == c.cells[row] && (if aggs[j].func is CountDistinct
                        || aggs[j].func is First || aggs[j].func is Last {
                        rendered(d, log) == Ok::<Seq<char>, Query>(t)
                    } else {
                        t.len() == 0
                    }),
                }
        }),
    decreases n,
{
    if n > 0 {
        lemma_items_read(b, aggs, row, (n - 1) as nat, log);
        lemma_index_in(b.fields, aggs[n - 1].col);
    }
}

/// Each row of a chunk is read once, in order, as [`reads`] says.
pub proof fn lemma_rows_are_read(b: Batch, at: Seq<usize>, aggs: Seq<AggV>, n: nat, log: Log)
    requires
        rows_in(b, at, aggs, n, log) is Ok,
    ensures
        ({
            let rows = rows_in(b, at, aggs, n, log)->Ok_0;
            &&& rows.len() == n
            &&& forall|i: int| 0 <= i < n ==> reads(b, at, aggs, i, #[trigger] rows[i], log)
        }),
    decreases n,
{
    if n > 0 {
        lemma_rows_are_read(b, at, aggs, (n - 1) as nat, log);
        let (rows, up) = (
            rows_in(b, at, aggs, n, log)->Ok_0,
            rows_in(b, at, aggs, (n - 1) as nat, log)->Ok_0,
        );
        let r = row_in(b, at, aggs, n - 1, log)->Ok_0;
        lemma_parts_read(b, at, n - 1, at.len(), log);
        lemma_items_read(b, aggs, n - 1, aggs.len(), log);
        assert forall|i: int| 0 <= i < n implies reads(b, at, aggs, i, #[trigger] rows[i], log) by {
            if i < n - 1 {
                assert(rows[i] == up[i]);
            } else {
                assert(rows[i] == r);
            }
        }
    }
}

// ---------------------------------------------------------------- what is held

/// How many of the rows have the key.
pub open spec fn times(rows: Seq<RowV>, key: Seq<char>) -> int
    decreases rows.len(),
{
    if rows.len() == 0 {
        0
    } else {
        times(rows.drop_last(), key) + if rows.last().key() == key {
            1int
        } else {
            0
        }
    }
}

/// The first row with the key.
pub open spec fn first_of_key(rows: Seq<RowV>, key: Seq<char>, r: int) -> bool {
    &&& 0 <= r < rows.len()
    &&& rows[r].key() == key
    &&& forall|i: int| 0 <= i < r ==> (#[trigger] rows[i]).key() != key
}

proof fn lemma_group_held(rows: Seq<RowV>, aggs: Seq<AggV>, key: Seq<char>, r: int)
    requires
        rows.len() <= i64::MAX,
    ensures
        ({
            let g = grouped(Groups::empty(), rows, aggs);
            &&& 0 <= times(rows, key) <= rows.len()
            &&& g.dom().contains(key) <==> times(rows, key) > 0
            &&& g.dom().contains(key) ==> g[key].count == times(rows, key)
            &&& first_of_key(rows, key, r) ==> g.dom().contains(key) && g[key].parts == rows[r].parts
        }),
    decreases rows.len(),
{
    if rows.len() > 0 {
        let up = rows.drop_last();
        lemma_group_held(up, aggs, key, r);
        assert forall|i: int| 0 <= i < up.len() implies up[i] == #[trigger] rows[i] by {}
        if first_of_key(rows, key, r) {
            if r < up.len() {
                assert(first_of_key(up, key, r));
            } else {
                lemma_no_times(up, key);
            }
        }
    }
}

proof fn lemma_no_times(rows: Seq<RowV>, key: Seq<char>)
    requires
        forall|i: int| 0 <= i < rows.len() ==> (#[trigger] rows[i]).key() != key,
    ensures
        times(rows, key) == 0,
    decreases rows.len(),
{
    if rows.len() > 0 {
        let up = rows.drop_last();
        assert forall|i: int| 0 <= i < up.len() implies (#[trigger] up[i]).key() != key by {
            assert(up[i] == rows[i]);
        }
        assert(rows[rows.len() - 1].key() != key);
        lemma_no_times(up, key);
    }
}

// ------------------------------------------------------------- what is put out

proof fn lemma_lanes_each(gs: Seq<GroupV>, aggs: Seq<AggV>, n: nat, log: Log)
    requires
        agg_lanes(gs, aggs, n, log) is Ok,
    ensures
        ({
            let ls = agg_lanes(gs, aggs, n, log)->Ok_0;
            &&& ls.len() == n
            &&& forall|j: int|
                0 <= j < n ==> agg_lane(gs, aggs[j].func, j, log) == Ok::<Lane, Query>(#[trigger] ls[j])
        }),
    decreases n,
{
    if n > 0 {
        lemma_lanes_each(gs, aggs, (n - 1) as nat, log);
    }
}

proof fn lemma_numbers_each(gs: Seq<GroupV>, j: int, n: nat, log: Log)
    requires
        number_cells(gs, j, n, log) is Ok,
    ensures
        ({
            let s = number_cells(gs, j, n, log)->Ok_0;
            &&& s.len() == n
            &&& forall|i: int|
                0 <= i < n ==> (gs[i].accs[j].number(log) matches Ok(x) && #[trigger] s[i] == Datum::F64(
                    x,
                ))
        }),
    decreases n,
{
    if n > 0 {
        lemma_numbers_each(gs, j, (n - 1) as nat, log);
    }
}

/// What a cell of an aggregate's column is, by one pass over the items of the group's
/// rows: the number of different texts, the first or the last text, the exact
/// instant or decimal, or the number.
pub open spec fn cell_tells(f: AggFunc, items: Seq<Item>, d: Datum, log: Log) -> bool {
    let acc = one_pass(f, items);
    match f {
        AggFunc::CountDistinct => acc.distinct.len() <= i64::MAX ==> (d matches Datum::I64(n) && n
            == acc.distinct.len()),
        AggFunc::First => d == Datum::Str(
            match acc.first {
                Some(t) => t,
                None => Seq::empty(),
            },
        ),
        AggFunc::Last => d == Datum::Str(
            match acc.last {
                Some(t) => t,
                None => Seq::empty(),
            },
        ),
        _ => match d {
            Datum::DateTime(t) => (f is Min || f is Max) && (acc.instant() matches Some(x) && x.ticks
                == t.ticks),
            Datum::Dec(v) => acc.decimal() matches Some(x) && x.unscaled == v.unscaled,
            Datum::F64(x) => acc.number(log) == Ok::<_, Query>(x),
            _ => false,
        },
    }
}

/// The columns that a group puts out: named by the keys, `count`, and the aggregates'
/// labels and columns.
pub proof fn lemma_group_names(a: GroupBy, c: CtxV, log: Log, out: Batch, z: GroupBy, d: CtxV)
    requires
        a.wf(),
        !a.emitted,
        group_ends(a, c, log, Some(out), z, d),
    ensures
        ({
            let (keys, aggs) = (texts(a.keys@), a.aggs_view());
            let n = keys.len() as int;
            &&& out.len == a.table.order().len()
            &&& out.fields.len() == n + 1 + aggs.len()
            &&& out.columns.len() == n + 1 + aggs.len()
            &&& forall|i: int| 0 <= i < n ==> (#[trigger] out.fields[i]).name == keys[i]
            &&& out.fields[n].name == seq!['c', 'o', 'u', 'n', 't']
            &&& forall|j: int|
                0 <= j < aggs.len() ==> out.fields[n + 1 + j].name == (#[trigger] aggs[j]).label
                    + seq!['_'] + aggs[j].col
        }),
{
    let aggs = a.aggs_view();
    let gs = group_views(a.table.states@);
    lemma_lanes_each(gs, aggs, aggs.len(), log);
    reveal_strlit("count");
    assert("count"@ =~= seq!['c', 'o', 'u', 'n', 't']);
}

proof fn lemma_group_at(a: GroupBy, g: int)
    requires
        a.wf(),
        0 <= g < a.table.order().len(),
    ensures
        ({
            let gs = group_views(a.table.states@);
            let k = a.table.order()[g];
            &&& gs.len() == a.table.order().len()
            &&& a.groups().dom().contains(k)
            &&& a.groups()[k] == gs[g]
        }),
{
    let order = a.table.order();
    lemma_place_is(order, g);
    assert(order.contains(order[g]));
}

/// A group puts out a row for each key that some row has, in alphabetical order, each
/// key once.
pub proof fn lemma_group_order(a: GroupBy, rows: Seq<RowV>)
    requires
        a.wf(),
        a.groups() == grouped(Groups::empty(), rows, a.aggs_view()),
    ensures
        ({
            let order = a.table.order();
            &&& forall|h: int, g: int|
                0 <= h < g < order.len() ==> alphabetical(#[trigger] order[h], #[trigger] order[g])
            &&& forall|t: Seq<char>| #[trigger] order.contains(t) == has_key(rows, t)
        }),
{
    let order = a.table.order();
    assert forall|h: int, g: int| 0 <= h < g < order.len() implies alphabetical(
        #[trigger] order[h],
        #[trigger] order[g],
    ) by {
        lemma_texts_alphabetical(order[h], order[g]);
    }
    assert forall|t: Seq<char>| #[trigger] order.contains(t) == has_key(rows, t) by {
        lemma_dom(Groups::empty(), rows, a.aggs_view(), t);
        assert(a.groups().dom().contains(t) == order.contains(t));
    }
}

/// The row of a key shows the key's texts, as the first row with the key has them, and
/// the number of rows with the key.
pub proof fn lemma_group_counts(
    a: GroupBy,
    rows: Seq<RowV>,
    c: CtxV,
    log: Log,
    out: Batch,
    z: GroupBy,
    d: CtxV,
    g: int,
    r: int,
)
    requires
        a.wf(),
        !a.emitted,
        a.groups() == grouped(Groups::empty(), rows, a.aggs_view()),
        rows.len() <= i64::MAX,
        group_ends(a, c, log, Some(out), z, d),
        0 <= g < a.table.order().len(),
    ensures
        ({
            let (k, n) = (a.table.order()[g], a.keys@.len() as int);
            &&& first_of_key(rows, k, r) ==> forall|i: int|
                0 <= i < n ==> (#[trigger] out.columns[i]).cells[g] == Datum::Str(rows[r].parts[i])
            &&& out.columns[n].cells[g] matches Datum::I64(m) && m == times(rows, k)
        }),
{
    let aggs = a.aggs_view();
    let gs = group_views(a.table.states@);
    let k = a.table.order()[g];
    lemma_lanes_each(gs, aggs, aggs.len(), log);
    lemma_group_at(a, g);
    lemma_group_held(rows, aggs, k, r);
    assert(texts(a.keys@).len() == a.keys@.len());
}

/// The row of a key shows each aggregate of the items of the rows with the key.
pub proof fn lemma_group_aggregates(
    a: GroupBy,
    rows: Seq<RowV>,
    c: CtxV,
    log: Log,
    out: Batch,
    z: GroupBy,
    d: CtxV,
    g: int,
    j: int,
)
    requires
        a.wf(),
        !a.emitted,
        a.groups() == grouped(Groups::empty(), rows, a.aggs_view()),
        group_ends(a, c, log, Some(out), z, d),
        0 <= g < a.table.order().len(),
        0 <= j < a.aggs@.len(),
    ensures
        cell_tells(
            a.aggs_view()[j].func,
            items_for(rows, a.table.order()[g], j),
            out.columns[a.keys@.len() + 1 + j].cells[g],
            log,
        ),
{
    let aggs = a.aggs_view();
    let gs = group_views(a.table.states@);
    let k = a.table.order()[g];
    let ls = agg_lanes(gs, aggs, a.aggs@.len(), log)->Ok_0;
    lemma_lanes_each(gs, aggs, aggs.len(), log);
    lemma_group_at(a, g);
    lemma_group_is_one_pass(rows, aggs, k, j);
    let n = a.keys@.len() as int;
    assert(texts(a.keys@).len() == n);
    assert(out.columns[n + 1 + j] == ls[j]);
    lemma_cell_tells(gs, aggs[j].func, j, ls[j], g, items_for(rows, k, j), log);
}

proof fn lemma_cell_tells(
    gs: Seq<GroupV>,
    f: AggFunc,
    j: int,
    l: Lane,
    g: int,
    items: Seq<Item>,
    log: Log,
)
    requires
        0 <= g < gs.len(),
        agg_lane(gs, f, j, log) == Ok::<Lane, Query>(l),
        gs[g].accs[j] == one_pass(f, items),
    ensures
        cell_tells(f, items, l.cells[g], log),
{
    if !(f is CountDistinct || f is First || f is Last) {
        if (f is Min || f is Max) && crate::group::all_instants(gs, j) {
            assert(gs[g].accs[j].instant() is Some);
        } else if (f is Sum || f is Avg || f is Min || f is Max) && crate::group::all_decimals(gs, j) {
            assert(gs[g].accs[j].decimal() is Some);
        } else {
            lemma_numbers_each(gs, j, gs.len(), log);
        }
    }
}

/// The items that an aggregate takes in for a key are those of the rows with the key,
/// in the order of the rows: one more row adds its item where it has the key and an
/// item, and nothing where it has not.
pub proof fn lemma_items_in_order(rows: Seq<RowV>, r: RowV, key: Seq<char>, j: int)
    ensures
        items_for(Seq::empty(), key, j).len() == 0,
        r.key() == key && r.items[j] is Some ==> items_for(rows.push(r), key, j) == items_for(
            rows,
            key,
            j,
        ).push(r.items[j]->0),
        r.key() != key || r.items[j] is None ==> items_for(rows.push(r), key, j) == items_for(
            rows,
            key,
            j,
        ),
{
    assert(rows.push(r).drop_last() =~= rows);
}

// ------------------------------------------------------------------- summaries

/// The numbers among the first `n` cells, in order.
pub open spec fn numeric_items(cells: Seq<Datum>, n: nat) -> Seq<Item>
    decreases n,
{
    if n == 0 {
        Seq::empty()
    } else {
        let up = numeric_items(cells, (n - 1) as nat);
        if cells[n - 1] is I64 || cells[n - 1] is F64 {
            up.push((cells[n - 1], Seq::empty()))
        } else {
            up
        }
    }
}

/// A summary takes in the integers and doubles of a column, in one pass, and nothing
/// else.
pub proof fn lemma_summary_takes_numbers(c: Lane, n: nat)
    ensures
        noted(Acc::empty(AggFunc::Avg), c, n) == one_pass(AggFunc::Avg, numeric_items(c.cells, n)),
    decreases n,
{
    if n > 0 {
        lemma_summary_takes_numbers(c, (n - 1) as nat);
        let (all, up) = (numeric_items(c.cells, n), numeric_items(c.cells, (n - 1) as nat));
        if c.cells[n - 1] is I64 || c.cells[n - 1] is F64 {
            assert(all.drop_last() =~= up);
        }
    }
}

/// An integer below 10^15 in size is shown as its numeral.
pub proof fn lemma_integers_shown(n: int, log: Log)
    requires
        -1_000_000_000_000_000 < n < 1_000_000_000_000_000,
    ensures
        shown(float_of(n), log) == Ok::<Seq<char>, Query>(int_text(n)),
{
    lemma_integer_double(n);
}

/// The summary has a row for each column: its name, its type, the count, and the
/// least, the greatest and the mean, each under its heading.
pub proof fn lemma_summary_rows(l: Seq<LineV>, count: i64, id: u64, i: int)
    requires
        0 <= i < l.len(),
    ensures
        ({
            let b = summary_chunk(l, count, id);
            &&& b.len == l.len()
            &&& b.fields.len() == 6 && b.columns.len() == 6
            &&& b.column("column"@) matches Some(c) && c.cells[i] == Datum::Str(l[i].name)
            &&& b.column("type"@) matches Some(c) && c.cells[i] == Datum::Str(l[i].dtype)
            &&& b.column("count"@) matches Some(c) && c.cells[i] == Datum::I64(count)
            &&& b.column("min"@) matches Some(c) && c.cells[i] == Datum::Str(l[i].min)
            &&& b.column("max"@) matches Some(c) && c.cells[i] == Datum::Str(l[i].max)
            &&& b.column("mean"@) matches Some(c) && c.cells[i] == Datum::Str(l[i].mean)
        }),
{
    let b = summary_chunk(l, count, id);
    reveal_strlit("column");
    reveal_strlit("type");
    reveal_strlit("count");
    reveal_strlit("min");
    reveal_strlit("max");
    reveal_strlit("mean");
    assert("column"@.len() == 6 && "type"@.len() == 4 && "count"@.len() == 5 && "min"@.len() == 3
        && "max"@.len() == 3 && "mean"@.len() == 4);
    assert("min"@[1] == 'i' && "max"@[1] == 'a' && "mean"@[0] == 'm' && "type"@[0] == 't');
    lemma_index_in(b.fields, "column"@);
    lemma_index_in(b.fields, "type"@);
    lemma_index_in(b.fields, "count"@);
    lemma_index_in(b.fields, "min"@);
    lemma_index_in(b.fields, "max"@);
    lemma_index_in(b.fields, "mean"@);
    assert(b.fields[0].name == "column"@);
    assert(b.fields[1].name == "type"@);
    assert(b.fields[2].name == "count"@);
    assert(b.fields[3].name == "min"@);
    assert(b.fields[4].name == "max"@);
    assert(b.fields[5].name == "mean"@);
}

} // verus!
