//! What the operators on rows and columns hand on, told by the cells.
use vstd::prelude::*;
use crate::agg::AggFunc;
use crate::cast::{cast_lane, rendered};
use crate::chunk::{gathered, index_in, lemma_index_in, Batch, FieldV, Lane};
use crate::eval::{arith, eval, holds};
use crate::expr::{Access, ArithOp, Expr, Func};
use crate::fill::{backward, carried, filled_chunk, forward, refilled, stat_func, upcoming};
use crate::host::{Log, Query};
use crate::kernel::{passing, selected};
use crate::lanes::{arith_cell, arith_lane, cells_from, formed_row, from_values, integer_lane, lane_of, lemma_cells_from, predicate_row, rows};
use crate::rows::{emitted, every, known, lemma_kept, targets, unknown};
use crate::select::{filled_rows, filtered, let_through, no_blank};
use crate::shape::{completed, computed, dropped, front, picked, rebuilt, recast, renamed, reordered, undropped};
use crate::strings::{is_space, trimmed};
use crate::textlaws::{lemma_trimmed_between, trims};
use crate::value::{DataType, Datum, Value};

verus! {

// ---------------------------------------------------------------------- rows

/// The chunks handed on are these rows of a chunk, every cell with its row; or none
/// where there are no rows.
pub open spec fn rows_out(b: Batch, out: Seq<Batch>, keep: Seq<usize>) -> bool {
    if keep.len() == 0 {
        out.len() == 0
    } else {
        &&& out.len() == 1
        &&& out[0].len == keep.len()
        &&& out[0].fields == b.fields
        &&& out[0].columns.len() == b.columns.len()
        &&& forall|c: int| #![trigger out[0].columns[c]]
            0 <= c < b.columns.len() ==> {
                &&& out[0].columns[c].dtype == b.columns[c].dtype
                &&& out[0].columns[c].cells.len() == keep.len()
                &&& forall|i: int|
                    0 <= i < keep.len() ==> #[trigger] out[0].columns[c].cells[i]
                        == b.columns[c].cells[keep[i] as int]
            }
    }
}

/// The list is ascending, and holds just the numbers below `n` that have a property.
pub open spec fn just_those(keep: Seq<usize>, n: nat, p: spec_fn(int) -> bool) -> bool {
    &&& forall|i: int, j: int|
        0 <= i < j < keep.len() ==> (#[trigger] keep[i]) < (#[trigger] keep[j])
    &&& forall|i: int| 0 <= i < keep.len() ==> (#[trigger] keep[i]) < n
    &&& forall|r: usize| r < n ==> #[trigger] keep.contains(r) == p(r as int)
}

proof fn lemma_emitted(b: Batch, keep: Seq<usize>)
    ensures
        rows_out(b, emitted(b, keep), keep),
{
}

/// Every predicate holds in the row.
pub open spec fn all_hold(preds: Seq<Expr>, b: Batch, row: int, log: Log) -> bool {
    forall|i: int|
        0 <= i < preds.len() ==> (holds(#[trigger] preds[i], b, row, log) matches Ok((x, n)) && x)
}

proof fn lemma_passing(preds: Seq<Expr>, b: Batch, row: int, log: Log)
    ensures
        passing(preds, b, row, log) == Ok::<bool, Query>(true) <==> all_hold(preds, b, row, log),
    decreases preds.len(),
{
    if preds.len() > 0 {
        let up = preds.drop_last();
        lemma_passing(up, b, row, log);
        assert(preds[preds.len() - 1] == preds.last());
        if all_hold(preds, b, row, log) {
            assert forall|i: int| 0 <= i < up.len() implies (holds(#[trigger] up[i], b, row, log) matches Ok(
                (x, n),
            ) && x) by {
                assert(up[i] == preds[i]);
            }
            assert(holds(preds[preds.len() - 1], b, row, log) matches Ok((x, n)) && x);
        }
        if all_hold(up, b, row, log) && (holds(preds.last(), b, row, log) matches Ok((x, n)) && x) {
            assert forall|i: int| 0 <= i < preds.len() implies (holds(
                #[trigger] preds[i],
                b,
                row,
                log,
            ) matches Ok((x, n)) && x) by {
                if i < up.len() {
                    assert(up[i] == preds[i]);
                }
            }
        }
    }
}

/// A filter hands on the rows in which every predicate holds, all of them and in
/// order, every cell with its row; and nothing where there are none.
pub proof fn lemma_filter_rows(preds: Seq<Expr>, b: Batch, log: Log)
    requires
        b.len <= usize::MAX,
        filtered(preds, b, log) is Ok,
    ensures
        exists|keep: Seq<usize>|
            #[trigger] rows_out(b, filtered(preds, b, log)->Ok_0, keep) && just_those(
                keep,
                b.len,
                |r: int| all_hold(preds, b, r, log),
            ),
{
    let f = |row: int| passing(preds, b, row, log);
    let keep = selected(preds, b, log)->Ok_0;
    lemma_kept(f, b.len);
    lemma_emitted(b, keep);
    let p = |r: int| all_hold(preds, b, r, log);
    assert forall|r: usize| r < b.len implies #[trigger] keep.contains(r) == p(r as int) by {
        lemma_passing(preds, b, r as int, log);
        if keep.contains(r) {
            let i = choose|i: int| 0 <= i < keep.len() && keep[i] == r;
            assert(f(keep[i] as int) == Ok::<bool, Query>(true));
        }
        if p(r as int) {
            assert(f(r as int) == Ok::<bool, Query>(true));
        }
    }
    assert(rows_out(b, filtered(preds, b, log)->Ok_0, keep) && just_those(keep, b.len, p));
}

/// The places named: the first column of each name, in the order of the names.
pub open spec fn places_named(fields: Seq<FieldV>, names: Seq<Seq<char>>, at: Seq<usize>) -> bool {
    &&& at.len() == names.len()
    &&& forall|i: int| #![trigger at[i]]
        0 <= i < at.len() ==> {
            &&& at[i] < fields.len()
            &&& fields[at[i] as int].name == names[i]
            &&& forall|k: int| 0 <= k < at[i] ==> (#[trigger] fields[k]).name != names[i]
        }
}

/// Named columns are found by name, each name its first column; and all columns are
/// looked at where none is named.
pub proof fn lemma_names_find_columns(b: Batch, names: Seq<Seq<char>>)
    requires
        b.fields.len() <= usize::MAX,
        b.columns.len() <= usize::MAX,
    ensures
        (forall|i: int|
            0 <= i < names.len() ==> exists|k: int|
                0 <= k < b.fields.len() && (#[trigger] b.fields[k]).name == #[trigger] names[i])
            ==> places_named(b.fields, names, known(b.fields, names)) && unknown(b.fields, names) is None,
        (exists|i: int|
            0 <= i < names.len() && forall|k: int|
                0 <= k < b.fields.len() ==> (#[trigger] b.fields[k]).name != #[trigger] names[i])
            ==> unknown(b.fields, names) is Some,
        names.len() > 0 ==> targets(b, names) == known(b.fields, names),
        names.len() == 0 ==> targets(b, names).len() == b.columns.len() && forall|i: int|
            0 <= i < b.columns.len() ==> (#[trigger] targets(b, names)[i]) == i,
    decreases names.len(),
{
    if names.len() > 0 {
        let up = names.drop_last();
        let last = names[names.len() - 1];
        lemma_names_find_columns(b, up);
        lemma_index_in(b.fields, last);
        assert forall|i: int| 0 <= i < up.len() implies up[i] == #[trigger] names[i] by {}
        if forall|i: int|
            0 <= i < names.len() ==> exists|k: int|
                0 <= k < b.fields.len() && (#[trigger] b.fields[k]).name == #[trigger] names[i] {
            assert forall|i: int| 0 <= i < up.len() implies exists|k: int|
                0 <= k < b.fields.len() && (#[trigger] b.fields[k]).name == #[trigger] up[i] by {
                assert(up[i] == names[i]);
            }
            let k = choose|k: int| 0 <= k < b.fields.len() && (#[trigger] b.fields[k]).name == last;
            let (at, less) = (known(b.fields, names), known(b.fields, up));
            assert(index_in(b.fields, last) is Some);
            assert forall|i: int| #![trigger at[i]]
                0 <= i < at.len() implies {
                &&& at[i] < b.fields.len()
                &&& b.fields[at[i] as int].name == names[i]
                &&& forall|k: int| 0 <= k < at[i] ==> (#[trigger] b.fields[k]).name != names[i]
            } by {
                if i < less.len() {
                    assert(at[i] == less[i]);
                    assert(names[i] == up[i]);
                }
            }
        }
        if exists|i: int|
            0 <= i < names.len() && forall|k: int|
                0 <= k < b.fields.len() ==> (#[trigger] b.fields[k]).name != #[trigger] names[i] {
            let i = choose|i: int|
                0 <= i < names.len() && forall|k: int|
                    0 <= k < b.fields.len() ==> (#[trigger] b.fields[k]).name != #[trigger] names[i];
            if i < up.len() {
                assert(up[i] == names[i]);
            }
        }
    }
}

/// Every cell of the row in these columns prints as some text.
pub open spec fn all_filled(b: Batch, at: Seq<usize>, row: int, log: Log) -> bool {
    forall|i: int|
        0 <= i < at.len() ==> (rendered(b.cell(row, (#[trigger] at[i]) as int), log) matches Ok(t)
            && t.len() > 0)
}

proof fn lemma_no_blank(b: Batch, at: Seq<usize>, row: int, n: nat, log: Log)
    requires
        n <= at.len(),
    ensures
        no_blank(b, at, row, n, log) == Ok::<bool, Query>(true) <==> all_filled(
            b,
            at.take(n as int),
            row,
            log,
        ),
    decreases n,
{
    if n > 0 {
        lemma_no_blank(b, at, row, (n - 1) as nat, log);
        let (more, less) = (at.take(n as int), at.take(n - 1));
        assert forall|i: int| 0 <= i < less.len() implies less[i] == #[trigger] more[i] by {}
        assert(more[n - 1] == at[n - 1]);
        if all_filled(b, more, row, log) {
            assert forall|i: int| 0 <= i < less.len() implies (rendered(
                b.cell(row, (#[trigger] less[i]) as int),
                log,
            ) matches Ok(t) && t.len() > 0) by {
                assert(less[i] == more[i]);
            }
        }
        if all_filled(b, less, row, log) && (rendered(b.cell(row, at[n - 1] as int), log) matches Ok(t)
            && t.len() > 0) {
            assert forall|i: int| 0 <= i < more.len() implies (rendered(
                b.cell(row, (#[trigger] more[i]) as int),
                log,
            ) matches Ok(t) && t.len() > 0) by {
                if i < n - 1 {
                    assert(less[i] == more[i]);
                }
            }
        }
    }
}

/// `dropna` hands on the rows in which every cell looked at prints as some text, all
/// of them and in order.
pub proof fn lemma_dropna_rows(b: Batch, names: Seq<Seq<char>>, log: Log)
    requires
        b.len <= usize::MAX,
        filled_rows(b, names, log) is Ok,
    ensures
        ({
            let keep = filled_rows(b, names, log)->Ok_0;
            &&& rows_out(b, emitted(b, keep), keep)
            &&& just_those(keep, b.len, |r: int| all_filled(b, targets(b, names), r, log))
        }),
{
    let at = targets(b, names);
    let f = |row: int| no_blank(b, at, row, at.len(), log);
    let keep = filled_rows(b, names, log)->Ok_0;
    lemma_kept(f, b.len);
    lemma_emitted(b, keep);
    let p = |r: int| all_filled(b, targets(b, names), r, log);
    assert(at.take(at.len() as int) =~= at);
    assert forall|r: usize| r < b.len implies #[trigger] keep.contains(r) == p(r as int) by {
        lemma_no_blank(b, at, r as int, at.len(), log);
        if keep.contains(r) {
            let i = choose|i: int| 0 <= i < keep.len() && keep[i] == r;
            assert(f(keep[i] as int) == Ok::<bool, Query>(true));
        }
        if p(r as int) {
            assert(f(r as int) == Ok::<bool, Query>(true));
        }
    }
}

/// `take` hands on the first rows of a chunk, as many as are still wanted and there,
/// every cell as it is.
pub proof fn lemma_take_rows(b: Batch, wanted: nat)
    requires
        b.wf(),
        b.len <= usize::MAX,
    ensures
        ({
            let n = let_through(wanted, b.len);
            let out = gathered(b, every(n));
            &&& n <= wanted && n <= b.len && (n == wanted || n == b.len)
            &&& out.len == n
            &&& out.fields == b.fields
            &&& out.columns.len() == b.columns.len()
            &&& forall|c: int, i: int|
                0 <= c < b.columns.len() && 0 <= i < n ==> #[trigger] out.columns[c].cells[i]
                    == b.columns[c].cells[i]
        }),
{
}

// ------------------------------------------------------------------- columns

/// A projection hands on the named columns in the order of the names, every cell as
/// it is.
pub proof fn lemma_project_columns(b: Batch, names: Seq<Seq<char>>)
    requires
        b.wf(),
        b.fields.len() <= usize::MAX,
        names.len() > 0,
        places_named(b.fields, names, known(b.fields, names)),
    ensures
        ({
            let out = picked(b, known(b.fields, names));
            &&& out.len == b.len
            &&& out.fields.len() == names.len()
            &&& out.columns.len() == names.len()
            &&& forall|i: int|
                0 <= i < names.len() ==> {
                    &&& (#[trigger] out.fields[i]).name == names[i]
                    &&& b.column(names[i]) matches Some(c) && out.columns[i] == c
                }
        }),
{
    let at = known(b.fields, names);
    let out = picked(b, at);
    assert(at[0] < b.fields.len());
    assert(b.columns[at[0] as int].cells.len() == b.len);
    assert forall|i: int| 0 <= i < names.len() implies {
        &&& (#[trigger] out.fields[i]).name == names[i]
        &&& b.column(names[i]) matches Some(c) && out.columns[i] == c
    } by {
        assert(at[i] < b.fields.len());
        lemma_index_in(b.fields, names[i]);
    }
}

/// The last renaming of a column: the pair at `k` names it, and no later pair does.
pub open spec fn last_renaming(
    fields: Seq<FieldV>,
    pairs: Seq<(Seq<char>, Seq<char>)>,
    n: nat,
    i: int,
    k: int,
) -> bool {
    &&& 0 <= k < n
    &&& index_in(fields, pairs[k].0) == Some(i)
    &&& forall|j: int| k < j < n ==> index_in(fields, (#[trigger] pairs[j]).0) != Some(i)
}

/// A renaming gives a column the name that the last pair for it says, and leaves a
/// column that no pair names as it is; types, places and cells stay.
pub proof fn lemma_rename_fields(fields: Seq<FieldV>, pairs: Seq<(Seq<char>, Seq<char>)>, n: nat, i: int, k: int)
    requires
        n <= pairs.len(),
        0 <= i < fields.len(),
    ensures
        ({
            let out = renamed(fields, pairs, n);
            &&& out.len() == fields.len()
            &&& out[i].dtype == fields[i].dtype
            &&& last_renaming(fields, pairs, n, i, k) ==> out[i].name == pairs[k].1
            &&& (forall|j: int| 0 <= j < n ==> index_in(fields, (#[trigger] pairs[j]).0) != Some(i))
                ==> out[i] == fields[i]
        }),
    decreases n,
{
    if n > 0 {
        lemma_rename_fields(fields, pairs, (n - 1) as nat, i, k);
        lemma_index_in(fields, pairs[n - 1].0);
        if last_renaming(fields, pairs, n, i, k) && k < n - 1 {
            assert(index_in(fields, pairs[n - 1].0) != Some(i));
            assert(last_renaming(fields, pairs, (n - 1) as nat, i, k));
        }
    }
}

/// A renamed chunk has the columns that it had, with all their cells.
pub proof fn lemma_rename_keeps_cells(b: Batch, fields: Seq<FieldV>)
    requires
        b.wf(),
        b.columns.len() > 0,
    ensures
        rebuilt(b, fields, b.columns).columns == b.columns,
        rebuilt(b, fields, b.columns).len == b.len,
        rebuilt(b, fields, b.columns).fields == fields,
{
    assert(b.columns[0].cells.len() == b.len);
}

/// `drop` leaves the columns out whose names are listed, and keeps the others in
/// order, every cell as it is.
pub proof fn lemma_drop_columns(b: Batch, names: Seq<Seq<char>>)
    requires
        b.wf(),
        b.fields.len() == b.columns.len(),
        b.fields.len() <= usize::MAX,
        undropped(b.fields, names) is Ok,
    ensures
        ({
            let keep = undropped(b.fields, names)->Ok_0;
            let out = dropped(b, names);
            &&& just_those(keep, b.fields.len(), |i: int| !names.contains(b.fields[i].name))
            &&& out.fields.len() == keep.len()
            &&& out.columns.len() == keep.len()
            &&& forall|i: int|
                0 <= i < keep.len() ==> (#[trigger] out.fields[i]) == b.fields[keep[i] as int]
                    && out.columns[i] == b.columns[keep[i] as int]
        }),
{
    let f = |i: int| Ok::<bool, Query>(!names.contains(b.fields[i].name));
    let keep = undropped(b.fields, names)->Ok_0;
    lemma_kept(f, b.fields.len());
    let p = |i: int| !names.contains(b.fields[i].name);
    assert forall|r: usize| r < b.fields.len() implies #[trigger] keep.contains(r) == p(r as int) by {
        if keep.contains(r) {
            let i = choose|i: int| 0 <= i < keep.len() && keep[i] == r;
            assert(f(keep[i] as int) == Ok::<bool, Query>(true));
        }
        if p(r as int) {
            assert(f(r as int) == Ok::<bool, Query>(true));
        }
    }
    if keep.len() == b.fields.len() {
        lemma_all_kept(keep, b.fields.len(), 0);
    }
}

/// An ascending list of as many numbers below `n` as there are is all of them.
proof fn lemma_all_kept(keep: Seq<usize>, n: nat, k: nat)
    requires
        keep.len() == n,
        k <= n,
        forall|i: int, j: int|
            0 <= i < j < keep.len() ==> (#[trigger] keep[i]) < (#[trigger] keep[j]),
        forall|i: int| 0 <= i < keep.len() ==> (#[trigger] keep[i]) < n,
        forall|i: int| 0 <= i < k ==> (#[trigger] keep[i]) == i,
    ensures
        forall|i: int| 0 <= i < n ==> (#[trigger] keep[i]) == i,
    decreases n - k,
{
    if k < n {
        lemma_at_least(keep, n, k as int);
        lemma_at_most(keep, n, k as int);
        lemma_all_kept(keep, n, k + 1);
    }
}

proof fn lemma_at_least(keep: Seq<usize>, n: nat, i: int)
    requires
        keep.len() == n,
        0 <= i < n,
        forall|i: int, j: int|
            0 <= i < j < keep.len() ==> (#[trigger] keep[i]) < (#[trigger] keep[j]),
    ensures
        keep[i] >= i,
    decreases i,
{
    if i > 0 {
        lemma_at_least(keep, n, i - 1);
        assert(keep[i - 1] < keep[i]);
    }
}

proof fn lemma_at_most(keep: Seq<usize>, n: nat, i: int)
    requires
        keep.len() == n,
        0 <= i < n,
        forall|i: int, j: int|
            0 <= i < j < keep.len() ==> (#[trigger] keep[i]) < (#[trigger] keep[j]),
        forall|i: int| 0 <= i < keep.len() ==> (#[trigger] keep[i]) < n,
    ensures
        keep[i] <= i,
    decreases n - i,
{
    if i + 1 < n {
        lemma_at_most(keep, n, i + 1);
        assert(keep[i] < keep[i + 1]);
    }
}

/// `reorder` puts the first named column first and keeps the columns that no name
/// takes behind the named ones, as they were: the order starts with the places of the
/// names, and goes on in ascending order.
pub proof fn lemma_reorder_order(fields: Seq<FieldV>, names: Seq<Seq<char>>)
    requires
        fields.len() <= usize::MAX,
    ensures
        ({
            let first = front(fields, names);
            let order = reordered(fields, names);
            &&& first.len() <= order.len()
            &&& order.take(first.len() as int) == first
            &&& forall|i: int, j: int|
                first.len() <= i < j < order.len() ==> (#[trigger] order[i]) < (#[trigger] order[j])
            &&& places_named(fields, names, known(fields, names)) && names.no_duplicates() ==> first
                == known(fields, names)
        }),
{
    lemma_completed_order(front(fields, names), fields.len());
    if places_named(fields, names, known(fields, names)) && names.no_duplicates() {
        lemma_front_known(fields, names);
    }
}

proof fn lemma_completed_order(first: Seq<usize>, n: nat)
    requires
        n <= usize::MAX,
    ensures
        ({
            let order = completed(first, n);
            &&& first.len() <= order.len()
            &&& order.take(first.len() as int) == first
            &&& forall|i: int| first.len() <= i < order.len() ==> (#[trigger] order[i]) < n
            &&& forall|i: int, j: int|
                first.len() <= i < j < order.len() ==> (#[trigger] order[i]) < (#[trigger] order[j])
        }),
    decreases n,
{
    if n > 0 {
        lemma_completed_order(first, (n - 1) as nat);
        let (order, up) = (completed(first, n), completed(first, (n - 1) as nat));
        assert(order.take(first.len() as int) =~= up.take(first.len() as int));
    } else {
        assert(first.take(first.len() as int) =~= first);
    }
}

proof fn lemma_front_known(fields: Seq<FieldV>, names: Seq<Seq<char>>)
    requires
        fields.len() <= usize::MAX,
        places_named(fields, names, known(fields, names)),
        names.no_duplicates(),
    ensures
        front(fields, names) == known(fields, names),
    decreases names.len(),
{
    if names.len() > 0 {
        let up = names.drop_last();
        let (at, less) = (known(fields, names), known(fields, up));
        let last = names[names.len() - 1];
        lemma_index_in(fields, last);
        lemma_known_short(fields, up);
        assert(index_in(fields, last) is Some);
        assert forall|i: int| #![trigger less[i]]
            0 <= i < less.len() implies {
            &&& less[i] < fields.len()
            &&& fields[less[i] as int].name == up[i]
            &&& forall|k: int| 0 <= k < less[i] ==> (#[trigger] fields[k]).name != up[i]
        } by {
            assert(at[i] == less[i]);
            assert(names[i] == up[i]);
        }
        lemma_front_known(fields, up);
        let f = index_in(fields, last)->0;
        if less.contains(f as usize) {
            let i = choose|i: int| 0 <= i < less.len() && less[i] == f as usize;
            assert(fields[less[i] as int].name == up[i]);
            assert(names[i] == up[i]);
            assert(names[i] == last);
        }
    }
}

proof fn lemma_known_short(fields: Seq<FieldV>, names: Seq<Seq<char>>)
    ensures
        known(fields, names).len() <= names.len(),
    decreases names.len(),
{
    if names.len() > 0 {
        lemma_known_short(fields, names.drop_last());
    }
}

/// A cast of columns converts the named ones and leaves the others as they are: where
/// just one cast names a column, it is that cast's column of it.
pub proof fn lemma_cast_columns(b: Batch, casts: Seq<(Seq<char>, DataType)>, n: nat, i: int, k: int, log: Log)
    requires
        n <= casts.len(),
        b.wf(),
        0 <= i < b.fields.len(),
        recast(b, casts, n, log) is Ok,
    ensures
        ({
            let (fields, columns) = recast(b, casts, n, log)->Ok_0;
            &&& fields.len() == b.fields.len()
            &&& columns.len() == b.columns.len()
            &&& (forall|j: int| 0 <= j < n ==> index_in(b.fields, (#[trigger] casts[j]).0) != Some(i))
                ==> columns[i] == b.columns[i] && fields[i] == b.fields[i]
            &&& 0 <= k < n && (forall|j: int|
                0 <= j < n ==> (index_in(b.fields, (#[trigger] casts[j]).0) == Some(i) <==> j == k))
                ==> (cast_lane(b.columns[i], casts[k].1, log) matches Ok((l, f)) && columns[i] == l
                && fields[i].name == casts[k].0 && fields[i].dtype == l.dtype)
        }),
    decreases n,
{
    if n > 0 {
        lemma_cast_columns(b, casts, (n - 1) as nat, i, k, log);
        lemma_index_in(b.fields, casts[n - 1].0);
        if 0 <= k < n && (forall|j: int|
            0 <= j < n ==> (index_in(b.fields, (#[trigger] casts[j]).0) == Some(i) <==> j == k)) {
            if k == n - 1 {
                assert(index_in(b.fields, casts[n - 1].0) == Some(i));
            } else {
                assert(index_in(b.fields, casts[n - 1].0) != Some(i));
            }
        }
    }
}

/// A computed projection has a column for each item, of the item's name, with what
/// the item's expression gives.
pub proof fn lemma_computed_columns(b: Batch, items: Seq<(Expr, String)>, n: nat, log: Log)
    requires
        n <= items.len(),
        computed(b, items, n, log) is Ok,
    ensures
        ({
            let (fields, columns) = computed(b, items, n, log)->Ok_0;
            &&& fields.len() == n
            &&& columns.len() == n
            &&& forall|i: int|
                0 <= i < n ==> {
                    &&& (#[trigger] fields[i]).name == items[i].1@
                    &&& lane_of(items[i].0, b, log) matches Ok((l, f)) && columns[i] == l
                    &&& fields[i].dtype == columns[i].dtype
                }
        }),
    decreases n,
{
    if n > 0 {
        lemma_computed_columns(b, items, (n - 1) as nat, log);
    }
}

// -------------------------------------------------------- columns of expressions

/// The column of a comparison or a connective holds, row by row, whether it holds.
pub proof fn lemma_predicate_column(e: Expr, b: Batch, log: Log)
    requires
        e is Compare || e is And || e is Or,
        lane_of(e, b, log) is Ok,
    ensures
        ({
            let l = lane_of(e, b, log)->Ok_0.0;
            &&& l.dtype == DataType::Bool
            &&& l.cells.len() == b.len
            &&& forall|i: int|
                0 <= i < b.len ==> (holds(e, b, i, log) matches Ok((x, n)) && #[trigger] l.cells[i]
                    == Datum::Bool(x))
        }),
{
    let f = |i: int| predicate_row(e, b, i, log);
    let l = lane_of(e, b, log)->Ok_0.0;
    lemma_cells_from(f, b.len);
    assert forall|i: int| 0 <= i < b.len implies (holds(e, b, i, log) matches Ok((x, n))
        && #[trigger] l.cells[i] == Datum::Bool(x)) by {
        assert(f(i) == predicate_row(e, b, i, log));
        assert(f(i)->Ok_0.0 == l.cells[i]);
    }
}

/// The column of a literal holds it in each row; that of a flat reference is the
/// column of that name; and that of a reference by place is that column.
pub proof fn lemma_plain_columns(b: Batch, v: Value, name: String, access: Access, at: u32, log: Log)
    requires
        access is Fast || access is Dynamic,
    ensures
        v@ is I64 || v@ is F64 || v@ is Bool || v@ is Str || v@ is DateTime || v@ is Duration || v@ is Date
            || v@ is Dec ==> (lane_of(Expr::Literal(v), b, log) matches Ok((l, f)) && f == 0
            && l.cells.len() == b.len && forall|i: int|
            0 <= i < b.len ==> #[trigger] l.cells[i] == v@),
        b.column(name@) matches Some(c) ==> lane_of(Expr::Field { name, access }, b, log) == Ok::<
            (Lane, nat),
            Query,
        >((c, 0)),
        at < b.columns.len() ==> lane_of(Expr::FieldAt(at), b, log) == Ok::<(Lane, nat), Query>(
            (b.columns[at as int], 0),
        ),
{
}

/// The arithmetic of columns of numbers is, row by row, that of their cells.
pub proof fn lemma_arithmetic_column(l: Lane, op: ArithOp, r: Lane, n: nat, log: Log)
    requires
        l.dtype is I64 || l.dtype is F64 || l.dtype is Bool,
        r.dtype is I64 || r.dtype is F64 || r.dtype is Bool,
        l.typed(),
        r.typed(),
        l.cells.len() == n,
        r.cells.len() == n,
        arith_lane(l, op, r, n, log) is Ok,
    ensures
        ({
            let out = arith_lane(l, op, r, n, log)->Ok_0.0;
            &&& out.cells.len() == n
            &&& forall|i: int|
                0 <= i < n ==> (arith(l.cells[i], op, r.cells[i], log) matches Ok((d, f))
                    && #[trigger] out.cells[i] == d)
        }),
{
    let ints = integer_lane(l.dtype) && integer_lane(r.dtype);
    let f = |i: int| arith_cell(l.cells[i], op, r.cells[i], ints, log);
    let out = arith_lane(l, op, r, n, log)->Ok_0.0;
    lemma_cells_from(f, n);
    assert forall|i: int| 0 <= i < n implies (arith(l.cells[i], op, r.cells[i], log) matches Ok((d, k))
        && #[trigger] out.cells[i] == d) by {
        assert(f(i) is Ok && f(i)->Ok_0.0 == out.cells[i]);
        let (x, y) = (l.cells[i], r.cells[i]);
        assert(crate::value::fits(x, l.dtype) && crate::value::fits(y, r.dtype));
    }
}

/// The column of a function of truths, of integers or of texts holds, row by row, the
/// function's value there: whether it is true, the integer that it is, its text.
pub proof fn lemma_function_column(func: Func, args: Vec<Expr>, b: Batch, log: Log)
    requires
        lane_of(Expr::Func { func, args }, b, log) is Ok,
        func is Contains || func is StartsWith || func is EndsWith || func is Like || func is Glob || func is Len
            || func is Upper || func is Lower || func is Trim || func is Concat || func is Replace
            || func is Substr || func is SplitPart,
    ensures
        ({
            let e = Expr::Func { func, args };
            let l = lane_of(e, b, log)->Ok_0.0;
            &&& l.cells.len() == b.len
            &&& forall|i: int| #![trigger l.cells[i]]
                0 <= i < b.len ==> (eval(e, b, i, log) matches Ok((d, n)) && {
                    &&& d is Bool && !(func is Len) && l.dtype is Bool ==> l.cells[i] == d
                    &&& d is I64 && func is Len ==> l.cells[i] == d && l.dtype is I64
                    &&& d is Str && l.dtype is Str ==> l.cells[i] == d
                })
            &&& func is Contains || func is StartsWith || func is EndsWith || func is Like
                || func is Glob ==> l.dtype is Bool
            &&& func is Upper || func is Lower || func is Trim || func is Concat || func is Replace
                || func is Substr || func is SplitPart ==> l.dtype is Str
        }),
{
    let e = Expr::Func { func, args };
    let form = crate::lanes::func_form(func)->0;
    let f = |i: int| formed_row(e, b, i, form, log);
    let l = lane_of(e, b, log)->Ok_0.0;
    assert(lane_of(e, b, log) == crate::lanes::formed_lane(e, b, form, log));
    lemma_cells_from(f, b.len);
    assert forall|i: int| #![trigger l.cells[i]]
        0 <= i < b.len implies (eval(e, b, i, log) matches Ok((d, n)) && {
        &&& d is Bool && !(func is Len) && l.dtype is Bool ==> l.cells[i] == d
        &&& d is I64 && func is Len ==> l.cells[i] == d && l.dtype is I64
        &&& d is Str && l.dtype is Str ==> l.cells[i] == d
    }) by {
        assert(f(i) is Ok && f(i)->Ok_0.0 == l.cells[i]);
    }
}

/// Row values in a column: of one kind, or missing, they stand there as they are.
pub proof fn lemma_values_of_one_kind(vals: Seq<Datum>, log: Log)
    requires
        exists|i: int| 0 <= i < vals.len() && !(#[trigger] vals[i] is Null),
    ensures
        (forall|i: int| 0 <= i < vals.len() ==> (#[trigger] vals[i] is Null || vals[i] is I64)) ==> (
        from_values(vals, log) matches Ok(l) && l.cells == vals && l.dtype is I64),
        (forall|i: int| 0 <= i < vals.len() ==> (#[trigger] vals[i] is Null || vals[i] is F64)) ==> (
        from_values(vals, log) matches Ok(l) && l.cells == vals && l.dtype is F64),
        (forall|i: int| 0 <= i < vals.len() ==> (#[trigger] vals[i] is Null || vals[i] is Bool)) ==> (
        from_values(vals, log) matches Ok(l) && l.cells == vals && l.dtype is Bool),
        (forall|i: int| 0 <= i < vals.len() ==> (#[trigger] vals[i] is Null || vals[i] is Str)) ==> (
        from_values(vals, log) matches Ok(l) && l.cells == vals && l.dtype is Str),
        (forall|i: int| 0 <= i < vals.len() ==> (#[trigger] vals[i] is Null || vals[i] is Date)) ==> (
        from_values(vals, log) matches Ok(l) && l.cells == vals && l.dtype is Date),
{
    let w = choose|i: int| 0 <= i < vals.len() && !(#[trigger] vals[i] is Null);
    assert(crate::lanes::kind(vals[w]) >= 1);
    let out = from_values(vals, log);
    if forall|i: int| 0 <= i < vals.len() ==> (#[trigger] vals[i] is Null || vals[i] is I64) {
        assert(out->Ok_0.cells =~= vals);
    }
    if forall|i: int| 0 <= i < vals.len() ==> (#[trigger] vals[i] is Null || vals[i] is F64) {
        assert(out->Ok_0.cells =~= vals);
    }
    if forall|i: int| 0 <= i < vals.len() ==> (#[trigger] vals[i] is Null || vals[i] is Bool) {
        assert(out->Ok_0.cells =~= vals);
    }
    if forall|i: int| 0 <= i < vals.len() ==> (#[trigger] vals[i] is Null || vals[i] is Date) {
        assert(out->Ok_0.cells =~= vals);
    }
    if forall|i: int| 0 <= i < vals.len() ==> (#[trigger] vals[i] is Null || vals[i] is Str) {
        let f = |i: int| crate::lanes::text_cell(vals[i], log);
        lemma_cells_from(f, vals.len());
        lemma_texts_made(vals, log, vals.len());
        let s = cells_from(f, vals.len())->Ok_0.0;
        assert forall|i: int| 0 <= i < vals.len() implies #[trigger] s[i] == vals[i] by {
            assert(f(i) is Ok && f(i)->Ok_0.0 == s[i]);
        }
        assert(s =~= vals);
    }
}

proof fn lemma_texts_made(vals: Seq<Datum>, log: Log, n: nat)
    requires
        n <= vals.len(),
        forall|i: int| 0 <= i < vals.len() ==> (#[trigger] vals[i] is Null || vals[i] is Str),
    ensures
        cells_from(|i: int| crate::lanes::text_cell(vals[i], log), n) is Ok,
    decreases n,
{
    if n > 0 {
        lemma_texts_made(vals, log, (n - 1) as nat);
        assert(vals[n - 1] is Null || vals[n - 1] is Str);
    }
}

// ------------------------------------------------------------------- filling

/// `fill` puts the text into the blank cells of a column of texts, and leaves all
/// other cells of the chunk as they are.
pub proof fn lemma_fill_blanks(b: Batch, name: Seq<char>, value: Seq<char>, col: int)
    requires
        b.wf(),
        0 <= col < b.fields.len(),
        b.fields[col].name == name,
        b.columns[col].dtype is Str,
        forall|k: int| 0 <= k < col ==> (#[trigger] b.fields[k]).name != name,
    ensures
        ({
            let out = filled_chunk(b, name, value);
            &&& out.fields == b.fields
            &&& out.len == b.len
            &&& out.columns.len() == b.columns.len()
            &&& forall|c: int|
                0 <= c < b.columns.len() && c != col ==> #[trigger] out.columns[c] == b.columns[c]
            &&& out.columns[col].cells.len() == b.columns[col].cells.len()
            &&& forall|i: int|
                0 <= i < b.columns[col].cells.len() ==> {
                    let d = b.columns[col].cells[i];
                    #[trigger] out.columns[col].cells[i] == if d is Null || d == Datum::Str(
                        Seq::empty(),
                    ) {
                        Datum::Str(value)
                    } else {
                        d
                    }
                }
        }),
{
    lemma_index_in(b.fields, name);
}

/// The nearest text before a place: the cell at `k`, with only blanks between.
pub open spec fn nearest_before(cells: Seq<Datum>, i: int, k: int) -> bool {
    &&& 0 <= k < i
    &&& cells[k] matches Datum::Str(t) && t.len() > 0
    &&& forall|j: int| k < j < i ==> !(#[trigger] cells[j] matches Datum::Str(t) && t.len() > 0)
}

/// The nearest text behind a place: the cell at `k`, with only blanks between.
pub open spec fn nearest_behind(cells: Seq<Datum>, i: int, k: int) -> bool {
    &&& i <= k < cells.len()
    &&& cells[k] matches Datum::Str(t) && t.len() > 0
    &&& forall|j: int| i <= j < k ==> !(#[trigger] cells[j] matches Datum::Str(t) && t.len() > 0)
}

proof fn lemma_carried(cells: Seq<Datum>, n: nat, carry: Option<Seq<char>>, k: int)
    requires
        n <= cells.len(),
    ensures
        nearest_before(cells, n as int, k) ==> carried(cells, n, carry) == Some(cells[k]->Str_0),
        (forall|j: int|
            0 <= j < n ==> !(#[trigger] cells[j] matches Datum::Str(t) && t.len() > 0)) ==> carried(
            cells,
            n,
            carry,
        ) == carry,
    decreases n,
{
    if n > 0 {
        lemma_carried(cells, (n - 1) as nat, carry, k);
        if nearest_before(cells, n as int, k) && k < n - 1 {
            assert(!(cells[n - 1] matches Datum::Str(t) && t.len() > 0));
            assert(nearest_before(cells, n - 1, k));
        }
    }
}

proof fn lemma_upcoming(cells: Seq<Datum>, i: nat, next: Option<Seq<char>>, k: int)
    requires
        i <= cells.len(),
    ensures
        nearest_behind(cells, i as int, k) ==> upcoming(cells, i, next) == Some(cells[k]->Str_0),
        (forall|j: int|
            i <= j < cells.len() ==> !(#[trigger] cells[j] matches Datum::Str(t) && t.len() > 0))
            ==> upcoming(cells, i, next) == next,
    decreases cells.len() - i,
{
    if i < cells.len() {
        lemma_upcoming(cells, i + 1, next, k);
        if nearest_behind(cells, i as int, k) && k > i {
            assert(!(cells[i as int] matches Datum::Str(t) && t.len() > 0));
            assert(nearest_behind(cells, i as int + 1, k));
        }
    }
}

/// Filling forward leaves a cell that is not blank as it is; a blank one takes the
/// nearest text before it, or what is carried in where there is none; and stays
/// blank where nothing is.
pub proof fn lemma_forward_takes_nearest(cells: Seq<Datum>, carry: Option<Seq<char>>, i: int, k: int)
    requires
        0 <= i < cells.len(),
    ensures
        ({
            let out = forward(cells, carry);
            let open = cells[i] is Null || cells[i] == Datum::Str(Seq::empty());
            &&& out.len() == cells.len()
            &&& !open ==> out[i] == cells[i]
            &&& open && nearest_before(cells, i, k) ==> out[i] == cells[k]
            &&& open && (forall|j: int|
                0 <= j < i ==> !(#[trigger] cells[j] matches Datum::Str(t) && t.len() > 0)) ==> out[i]
                == match carry {
                Some(t) => Datum::Str(t),
                None => cells[i],
            }
        }),
{
    lemma_carried(cells, i as nat, carry, k);
}

/// Filling backward leaves a cell that is not blank as it is; a blank one takes the
/// nearest text behind it, or what comes next where there is none; and stays blank
/// where nothing does.
pub proof fn lemma_backward_takes_nearest(cells: Seq<Datum>, next: Option<Seq<char>>, i: int, k: int)
    requires
        0 <= i < cells.len(),
    ensures
        ({
            let out = backward(cells, next);
            let open = cells[i] is Null || cells[i] == Datum::Str(Seq::empty());
            &&& out.len() == cells.len()
            &&& !open ==> out[i] == cells[i]
            &&& open && nearest_behind(cells, i, k) ==> out[i] == cells[k]
            &&& open && (forall|j: int|
                i <= j < cells.len() ==> !(#[trigger] cells[j] matches Datum::Str(t) && t.len() > 0))
                ==> out[i] == match next {
                Some(t) => Datum::Str(t),
                None => cells[i],
            }
        }),
{
    lemma_upcoming(cells, i as nat, next, k);
}

/// Filling by a statistic puts its text into the cells that are missing or hold white
/// space alone, and leaves all others as they are.
pub proof fn lemma_stat_fills_blanks(cells: Seq<Datum>, value: Seq<char>, i: int)
    requires
        0 <= i < cells.len(),
    ensures
        ({
            let out = refilled(cells, value);
            &&& out.len() == cells.len()
            &&& cells[i] is Null ==> out[i] == Datum::Str(value)
            &&& cells[i] matches Datum::Str(t) ==> {
                &&& (forall|k: int| 0 <= k < t.len() ==> is_space(#[trigger] t[k])) ==> out[i]
                    == Datum::Str(value)
                &&& (exists|k: int| 0 <= k < t.len() && !is_space(#[trigger] t[k])) ==> out[i] == cells[i]
            }
            &&& !(cells[i] is Null) && !(cells[i] is Str) ==> out[i] == cells[i]
        }),
{
    if let Datum::Str(t) = cells[i] {
        lemma_trimmed_between(t);
        let u = trimmed(t);
        let j = choose|j: int| #[trigger] trims(t, u, j);
        if u.len() > 0 {
            assert(u[0] == t[j]);
        }
        if exists|k: int| 0 <= k < t.len() && !is_space(#[trigger] t[k]) {
            let k = choose|k: int| 0 <= k < t.len() && !is_space(#[trigger] t[k]);
            if u.len() == 0 {
                assert(is_space(t[k]));
            }
        }
    }
}

/// A column's mean is filled in by the average, its median by the middle value.
pub proof fn lemma_stat_functions()
    ensures
        stat_func(false) == AggFunc::Avg,
        stat_func(true) == AggFunc::Pct(50),
{
}

} // verus!
