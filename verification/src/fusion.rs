//! The fused pass of a join and a group hands the group the rows that the steps,
//! taken one by one, would hand it.
use vstd::prelude::*;
use crate::cast::Outcome;
use crate::chunk::{flat_field, gathered, index_in, lemma_index_in, Batch, FieldV, Lane, Mode};
use crate::division::{all_reaching, gathers, lemma_grouped_append, lemma_reaching_any, reaching};
use crate::eval::{coalesce_from, comparison, decimal_field, direct, direct_number, direct_text, eval, eval_all, holds, null_field};
use crate::event::CtxV;
use crate::expr::{CmpOp, Expr};
use crate::flow::tally;
use crate::fused::{cell_at, cell_for, cell_items, cell_named, cell_texts, filter_left, fused_datum, fused_out, fused_rows, item_named, key_at, passes_filters, place_in_join, plain_filter, plan_in, plan_items, lemma_left_sides, lemma_right_bound, pred_left, readable, resolved, right_place, roots, FusedCell, FusedPlan, FusedShapePlan, Place};
use crate::group::{agg_views, grouped, items_of, rows_in, AggV, Groups, RowV};
use crate::host::{Log, Query};
use crate::join::{all_left, first_at, gathered_side, join_pairs, joined_chunk, left_pairs, left_part, lemma_pairs_fit, padding, right_name, right_part, side, side_fits, JoinKind, Pair};
use crate::kernel::{passing, selected};
use crate::lanes::{cells_from, from_values, lane_of, lemma_lane_of_typed, rows_lane, text_cell};
use crate::parts::{worked, WorkerV};
use crate::plan::{NodeId, Op, PlanGraph};
use crate::rows::{emitted, kept, key_parts, known, unknown};
use crate::select::row_keys;
use crate::shape::{computed, rebuilt};
use crate::stage::{built, path_out, stage_out, stepped, Labelled, PathV, Stage};
use crate::value::{fits, texts, DataType, Datum};
use crate::workers::{fused_fed, fused_step, fuses};

verus! {

// ----------------------------------------------------------- the joined rows

/// The right columns that a join keeps, among the first `n`: all but the keys.
pub open spec fn kept_right(rk: Seq<usize>, n: nat) -> Seq<int>
    decreases n,
{
    if n == 0 {
        Seq::empty()
    } else if first_at(rk, n - 1) is Some {
        kept_right(rk, (n - 1) as nat)
    } else {
        kept_right(rk, (n - 1) as nat).push(n - 1)
    }
}

/// The fields that a join has from the right.
pub open spec fn right_fields(l: Batch, r: Batch, at: Seq<int>) -> Seq<FieldV> {
    Seq::new(
        at.len(),
        |i: int| flat_field(right_name(l, r.fields[at[i]].name), r.fields[at[i]].dtype),
    )
}

/// The columns of the pairs.
pub open spec fn paired_columns(l: Batch, r: Batch, at: Seq<int>, ps: Seq<Pair>) -> Seq<Lane> {
    Seq::new(l.fields.len(), |i: int| gathered_side(l.columns[i], ps, false)) + Seq::new(
        at.len(),
        |i: int| gathered_side(r.columns[at[i]], ps, true),
    )
}

/// The chunk that a join makes of pairs of rows, each of which has a left row.
pub open spec fn paired(l: Batch, r: Batch, rk: Seq<usize>, ps: Seq<Pair>, id: u64) -> Batch {
    let at = kept_right(rk, r.fields.len());
    Batch {
        fields: l.fields + right_fields(l, r, at),
        columns: paired_columns(l, r, at, ps),
        len: ps.len(),
        id,
        mode: Mode::Normal,
        source: None,
    }
}

/// The left and the right row of each pair are there.
pub open spec fn pairs_in(l: Batch, r: Batch, ps: Seq<Pair>) -> bool {
    all_left(ps) && side_fits(l.len, ps, false) && side_fits(r.len, ps, true)
}

proof fn lemma_kept_right(rk: Seq<usize>, n: nat)
    ensures
        forall|i: int|
            0 <= i < kept_right(rk, n).len() ==> 0 <= (#[trigger] kept_right(rk, n)[i]) < n,
        kept_right(rk, n).len() <= n,
    decreases n,
{
    if n > 0 {
        lemma_kept_right(rk, (n - 1) as nat);
    }
}

proof fn lemma_first_at_contains(v: Seq<usize>, x: usize)
    ensures
        first_at(v, x as int) is Some == v.contains(x),
    decreases v.len(),
{
    if v.len() > 0 {
        let up = v.drop_last();
        lemma_first_at_contains(up, x);
        if v.contains(x) && v.last() != x {
            let i = choose|i: int| 0 <= i < v.len() && v[i] == x;
            assert(up[i] == x);
        }
        if up.contains(x) {
            let i = choose|i: int| 0 <= i < up.len() && up[i] == x;
            assert(v[i] == x);
        }
        if v.last() == x {
            assert(v[v.len() - 1] == x);
        }
    }
}

proof fn lemma_right_part_is(l: Batch, r: Batch, rk: Seq<usize>, ps: Seq<Pair>, n: nat)
    ensures
        ({
            let at = kept_right(rk, n);
            right_part(l, r, rk, ps, n) == (
                right_fields(l, r, at),
                Seq::new(at.len(), |i: int| gathered_side(r.columns[at[i]], ps, true)),
            )
        }),
    decreases n,
{
    let at = kept_right(rk, n);
    let lanes = Seq::new(at.len(), |i: int| gathered_side(r.columns[at[i]], ps, true));
    if n > 0 {
        lemma_right_part_is(l, r, rk, ps, (n - 1) as nat);
    }
    assert(right_part(l, r, rk, ps, n).0 =~= right_fields(l, r, at));
    assert(right_part(l, r, rk, ps, n).1 =~= lanes);
}

proof fn lemma_left_part_is(l: Batch, r: Batch, lk: Seq<usize>, rk: Seq<usize>, ps: Seq<Pair>, n: nat, log: Log)
    requires
        l.wf(),
        n <= l.fields.len(),
        all_left(ps),
    ensures
        left_part(l, r, lk, rk, ps, n, log) == Ok::<(Seq<FieldV>, Seq<Lane>), Query>(
            (l.fields.take(n as int), Seq::new(n, |i: int| gathered_side(l.columns[i], ps, false))),
        ),
    decreases n,
{
    let lanes = Seq::new(n, |i: int| gathered_side(l.columns[i], ps, false));
    if n == 0 {
        assert(l.fields.take(0) =~= Seq::empty());
        assert(lanes =~= Seq::empty());
    } else {
        lemma_left_part_is(l, r, lk, rk, ps, (n - 1) as nat, log);
        let up = Seq::new((n - 1) as nat, |i: int| gathered_side(l.columns[i], ps, false));
        assert(l.columns[n - 1].dtype == l.fields[n - 1].dtype);
        assert(l.fields.take(n as int) =~= l.fields.take(n - 1).push(l.fields[n - 1]));
        assert(lanes =~= up.push(gathered_side(l.columns[n - 1], ps, false)));
    }
}

proof fn lemma_right_index(l: Batch, r: Batch, rk: Seq<usize>, name: Seq<char>, n: nat)
    requires
        n <= usize::MAX,
    ensures
        ({
            let at = kept_right(rk, n);
            let fs = right_fields(l, r, at);
            match right_place(l, r, rk, name, n) {
                Some(i) => exists|p: int|
                    0 <= p < at.len() && (#[trigger] at[p]) == i && fs[p].name == name && forall|
                        k: int,
                    |
                        0 <= k < p ==> (#[trigger] fs[k]).name != name,
                None => forall|k: int| 0 <= k < at.len() ==> (#[trigger] fs[k]).name != name,
            }
        }),
    decreases n,
{
    if n > 0 {
        let m = (n - 1) as nat;
        lemma_right_index(l, r, rk, name, m);
        lemma_first_at_contains(rk, m as usize);
        let up = kept_right(rk, m);
        let at = kept_right(rk, n);
        let fu = right_fields(l, r, up);
        let fs = right_fields(l, r, at);
        assert forall|k: int| 0 <= k < up.len() implies at[k] == up[k] && (#[trigger] fs[k]) == fu[k] by {}
        match right_place(l, r, rk, name, m) {
            Some(i) => {
                let p = choose|p: int|
                    0 <= p < up.len() && (#[trigger] up[p]) == i && fu[p].name == name && forall|
                        k: int,
                    |
                        0 <= k < p ==> (#[trigger] fu[k]).name != name;
                assert(fs[p] == fu[p]);
                assert(at[p] == i);
                assert forall|k: int| 0 <= k < p implies (#[trigger] fs[k]).name != name by {
                    assert(fs[k] == fu[k]);
                }
            },
            None => {
                assert forall|k: int| 0 <= k < up.len() implies (#[trigger] fs[k]).name != name by {
                    assert(fs[k] == fu[k]);
                }
                if at.len() > up.len() {
                    assert(at[up.len() as int] == m);
                    assert(fs[up.len() as int].name == right_name(l, r.fields[n - 1].name));
                }
            },
        }
    }
}

proof fn lemma_padding_fits(ty: crate::value::DataType)
    ensures
        fits(padding(ty), ty),
{
}

proof fn lemma_paired_wf(l: Batch, r: Batch, rk: Seq<usize>, ps: Seq<Pair>, id: u64)
    requires
        l.wf(),
        r.wf(),
        pairs_in(l, r, ps),
    ensures
        paired(l, r, rk, ps, id).wf(),
{
    let at = kept_right(rk, r.fields.len());
    let b = paired(l, r, rk, ps, id);
    lemma_kept_right(rk, r.fields.len());
    assert forall|i: int| 0 <= i < b.columns.len() implies {
        &&& (#[trigger] b.columns[i]).cells.len() == b.len
        &&& b.columns[i].typed()
        &&& b.columns[i].dtype == b.fields[i].dtype
    } by {
        let right = i >= l.fields.len();
        let c = if right {
            r.columns[at[i - l.fields.len()]]
        } else {
            l.columns[i]
        };
        assert(b.columns[i] == gathered_side(c, ps, right));
        lemma_padding_fits(c.dtype);
        assert forall|k: int| 0 <= k < b.columns[i].cells.len() implies fits(
            #[trigger] b.columns[i].cells[k],
            b.columns[i].dtype,
        ) by {
            assert(side(ps[k], right) matches Some(x) ==> fits(c.cells[x as int], c.dtype));
        }
    }
}

/// The column of the join that a name means holds, row by row, what the cell of
/// that place reads.
proof fn lemma_place_reads(l: Batch, r: Batch, rk: Seq<usize>, ps: Seq<Pair>, id: u64, name: Seq<char>, c: FusedCell)
    requires
        l.wf(),
        r.wf(),
        r.fields.len() <= usize::MAX,
        all_left(ps),
        cell_at(c, place_in_join(l, r, rk, name)),
    ensures
        reads(paired(l, r, rk, ps, id), name, c, l, r, ps),
{
    let at = kept_right(rk, r.fields.len());
    let b = paired(l, r, rk, ps, id);
    let fs = right_fields(l, r, at);
    lemma_index_in(l.fields, name);
    lemma_index_in(b.fields, name);
    lemma_kept_right(rk, r.fields.len());
    match index_in(l.fields, name) {
        Some(i) => {
            assert(b.fields[i] == l.fields[i]);
            assert forall|k: int| 0 <= k < i implies (#[trigger] b.fields[k]).name != name by {
                assert(b.fields[k] == l.fields[k]);
            }
            assert(index_in(b.fields, name) == Some(i));
            assert(b.columns[i] == gathered_side(l.columns[i], ps, false));
        },
        None => {
            lemma_right_index(l, r, rk, name, r.fields.len());
            let i = right_place(l, r, rk, name, r.fields.len())->Some_0;
            let p = choose|p: int|
                0 <= p < at.len() && (#[trigger] at[p]) == i && fs[p].name == name && forall|k: int|
                    0 <= k < p ==> (#[trigger] fs[k]).name != name;
            let j = l.fields.len() as int + p;
            assert(b.fields[j] == fs[p]);
            assert forall|k: int| 0 <= k < j implies (#[trigger] b.fields[k]).name != name by {
                if k < l.fields.len() {
                    assert(b.fields[k] == l.fields[k]);
                } else {
                    assert(b.fields[k] == fs[k - l.fields.len()]);
                }
            }
            assert(index_in(b.fields, name) == Some(j));
            assert(b.columns[j] == gathered_side(r.columns[i], ps, true));
        },
    }
}

/// The column of that name holds, row by row, what the cell reads.
pub open spec fn reads(b: Batch, name: Seq<char>, c: FusedCell, l: Batch, r: Batch, ps: Seq<Pair>) -> bool {
    index_in(b.fields, name) matches Some(j) && forall|i: int|
        0 <= i < ps.len() ==> (#[trigger] b.columns[j].cells[i]) == fused_datum(
            c,
            l,
            ps[i].0->Some_0 as int,
            r,
            ps[i].1,
        )
}

// ------------------------------------------------------------- predicates

proof fn lemma_left_column(l: Batch, r: Batch, rk: Seq<usize>, ps: Seq<Pair>, id: u64, name: Seq<char>, row: int)
    requires
        0 <= row < ps.len(),
        ps[row].0 is Some,
        index_in(l.fields, name) is Some,
    ensures
        ({
            let b = paired(l, r, rk, ps, id);
            let i = index_in(l.fields, name)->Some_0;
            &&& index_in(b.fields, name) == Some(i)
            &&& b.columns[i].cells[row] == l.columns[i].cells[ps[row].0->Some_0 as int]
        }),
{
    let b = paired(l, r, rk, ps, id);
    lemma_index_in(l.fields, name);
    lemma_index_in(b.fields, name);
    let i = index_in(l.fields, name)->Some_0;
    assert(b.fields[i] == l.fields[i]);
    assert forall|k: int| 0 <= k < i implies (#[trigger] b.fields[k]).name != name by {
        assert(b.fields[k] == l.fields[k]);
    }
    assert(b.columns[i] == gathered_side(l.columns[i], ps, false));
}

/// A column that the expression names has the same cell in both rows.
spec fn same_leaf(e: Expr, b: Batch, row: int, l: Batch, li: int) -> bool {
    e matches Expr::Field { name, access } ==> access.flat() && (b.column(name@) matches Some(c) && (
    l.column(name@) matches Some(d) && c.cells[row] == d.cells[li]))
}

proof fn lemma_same_direct(x: Expr, op: CmpOp, y: Expr, b: Batch, row: int, l: Batch, li: int, log: Log)
    requires
        same_leaf(x, b, row, l, li),
        same_leaf(y, b, row, l, li),
    ensures
        direct(x, op, y, b, row, log) == direct(x, op, y, l, li, log),
{
    assert(null_field(x, b, row) == null_field(x, l, li));
    assert(null_field(y, b, row) == null_field(y, l, li));
    assert(decimal_field(x, b, row) == decimal_field(x, l, li));
    assert(decimal_field(y, b, row) == decimal_field(y, l, li));
    assert(direct_text(x, b, row) == direct_text(x, l, li));
    assert(direct_text(y, b, row) == direct_text(y, l, li));
    assert(direct_number(x, b, row, log) == direct_number(x, l, li, log));
    assert(direct_number(y, b, row, log) == direct_number(y, l, li, log));
}

proof fn lemma_left_leaf(e: Expr, l: Batch, r: Batch, rk: Seq<usize>, ps: Seq<Pair>, id: u64, row: int)
    requires
        0 <= row < ps.len(),
        ps[row].0 is Some,
        pred_left(e, l.fields),
    ensures
        same_leaf(e, paired(l, r, rk, ps, id), row, l, ps[row].0->Some_0 as int),
{
    if let Expr::Field { name, access } = e {
        lemma_left_column(l, r, rk, ps, id, name@, row);
    }
}

/// Every expression on left columns meets the same cells in both rows.
spec fn same_leaves(b: Batch, row: int, l: Batch, li: int) -> bool {
    forall|x: Expr| pred_left(x, l.fields) ==> #[trigger] same_leaf(x, b, row, l, li)
}

proof fn lemma_same_comparison(e: Expr, b: Batch, row: int, l: Batch, li: int, log: Log)
    requires
        pred_left(e, l.fields),
        same_leaves(b, row, l, li),
    ensures
        comparison(e, b, row, log) == comparison(e, l, li, log),
    decreases e, 0nat,
{
    if let Expr::Compare { left, op, right } = e {
        lemma_same_eval(*left, b, row, l, li, log);
        lemma_same_eval(*right, b, row, l, li, log);
        assert(same_leaf(*left, b, row, l, li));
        assert(same_leaf(*right, b, row, l, li));
        lemma_same_direct(*left, op, *right, b, row, l, li, log);
    }
}

proof fn lemma_same_eval(e: Expr, b: Batch, row: int, l: Batch, li: int, log: Log)
    requires
        pred_left(e, l.fields),
        same_leaves(b, row, l, li),
    ensures
        eval(e, b, row, log) == eval(e, l, li, log),
    decreases e, 1nat,
{
    match e {
        Expr::Field { .. } => {
            assert(same_leaf(e, b, row, l, li));
        },
        Expr::Compare { .. } => {
            lemma_same_comparison(e, b, row, l, li, log);
        },
        Expr::And(x, y) => {
            lemma_same_holds(*x, b, row, l, li, log);
            lemma_same_holds(*y, b, row, l, li, log);
        },
        _ => {},
    }
}

proof fn lemma_same_holds(e: Expr, b: Batch, row: int, l: Batch, li: int, log: Log)
    requires
        pred_left(e, l.fields),
        same_leaves(b, row, l, li),
    ensures
        holds(e, b, row, log) == holds(e, l, li, log),
    decreases e, 2nat,
{
    match e {
        Expr::Compare { .. } => {
            lemma_same_comparison(e, b, row, l, li, log);
        },
        Expr::And(x, y) => {
            lemma_same_holds(*x, b, row, l, li, log);
            lemma_same_holds(*y, b, row, l, li, log);
        },
        _ => {
            lemma_same_eval(e, b, row, l, li, log);
        },
    }
}

/// A predicate on the left columns has on a joined row the verdict that it has on
/// the left row.
pub proof fn lemma_left_predicate(e: Expr, l: Batch, r: Batch, rk: Seq<usize>, ps: Seq<Pair>, id: u64, row: int, log: Log)
    requires
        0 <= row < ps.len(),
        ps[row].0 is Some,
        pred_left(e, l.fields),
    ensures
        holds(e, paired(l, r, rk, ps, id), row, log) == holds(e, l, ps[row].0->Some_0 as int, log),
{
    let b = paired(l, r, rk, ps, id);
    let li = ps[row].0->Some_0 as int;
    assert forall|x: Expr| pred_left(x, l.fields) implies #[trigger] same_leaf(x, b, row, l, li) by {
        lemma_left_leaf(x, l, r, rk, ps, id, row);
    }
    lemma_same_holds(e, b, row, l, li, log);
}

proof fn lemma_left_passing(preds: Seq<Expr>, l: Batch, r: Batch, rk: Seq<usize>, ps: Seq<Pair>, id: u64, row: int, log: Log)
    requires
        0 <= row < ps.len(),
        ps[row].0 is Some,
        forall|i: int| 0 <= i < preds.len() ==> pred_left(#[trigger] preds[i], l.fields),
    ensures
        passing(preds, paired(l, r, rk, ps, id), row, log) == passing(
            preds,
            l,
            ps[row].0->Some_0 as int,
            log,
        ),
    decreases preds.len(),
{
    if preds.len() > 0 {
        let up = preds.drop_last();
        assert forall|i: int| 0 <= i < up.len() implies pred_left(#[trigger] up[i], l.fields) by {
            assert(up[i] == preds[i]);
        }
        lemma_left_passing(up, l, r, rk, ps, id, row, log);
        assert(preds.last() == preds[preds.len() - 1]);
        lemma_left_predicate(preds.last(), l, r, rk, ps, id, row, log);
    }
}

// ---------------------------------------------------------------- sifting

/// The pairs on which `t` holds, in order.
pub open spec fn sifted(ps: Seq<Pair>, t: spec_fn(Pair) -> bool) -> Seq<Pair>
    decreases ps.len(),
{
    if ps.len() == 0 {
        Seq::empty()
    } else if t(ps.last()) {
        sifted(ps.drop_last(), t).push(ps.last())
    } else {
        sifted(ps.drop_last(), t)
    }
}

proof fn lemma_sifted(ps: Seq<Pair>, t: spec_fn(Pair) -> bool)
    ensures
        sifted(ps, t).len() <= ps.len(),
        forall|i: int|
            0 <= i < sifted(ps, t).len() ==> t(#[trigger] sifted(ps, t)[i]) && ps.contains(
                sifted(ps, t)[i],
            ),
        forall|i: int|
            0 <= i < ps.len() && t(#[trigger] ps[i]) ==> sifted(ps, t).contains(ps[i]),
    decreases ps.len(),
{
    if ps.len() > 0 {
        let up = ps.drop_last();
        lemma_sifted(up, t);
        let s = sifted(ps, t);
        let su = sifted(up, t);
        assert forall|i: int| 0 <= i < s.len() implies t(#[trigger] s[i]) && ps.contains(s[i]) by {
            if i < su.len() {
                assert(s[i] == su[i]);
                let k = choose|k: int| 0 <= k < up.len() && up[k] == su[i];
                assert(ps[k] == s[i]);
            } else {
                assert(ps[ps.len() - 1] == s[i]);
            }
        }
        assert forall|i: int| 0 <= i < ps.len() && t(#[trigger] ps[i]) implies s.contains(ps[i]) by {
            if i < up.len() {
                assert(up[i] == ps[i]);
                let k = choose|k: int| 0 <= k < su.len() && su[k] == ps[i];
                assert(s[k] == ps[i]);
            } else {
                assert(s[su.len() as int] == ps[i]);
            }
        }
    }
}

proof fn lemma_sifted_twice(ps: Seq<Pair>, a: spec_fn(Pair) -> bool, b: spec_fn(Pair) -> bool, c: spec_fn(Pair) -> bool)
    requires
        forall|i: int| 0 <= i < ps.len() ==> c(#[trigger] ps[i]) == (a(ps[i]) && b(ps[i])),
    ensures
        sifted(sifted(ps, a), b) == sifted(ps, c),
    decreases ps.len(),
{
    if ps.len() > 0 {
        let up = ps.drop_last();
        assert forall|i: int| 0 <= i < up.len() implies c(#[trigger] up[i]) == (a(up[i]) && b(up[i])) by {
            assert(up[i] == ps[i]);
        }
        lemma_sifted_twice(up, a, b, c);
        let x = ps[ps.len() - 1];
        assert(ps.last() == x);
        if a(x) {
            assert(sifted(up, a).push(x).drop_last() =~= sifted(up, a));
            assert(sifted(up, a).push(x).last() == x);
        }
    }
}

/// The pairs at the given places.
pub open spec fn pairs_at(ps: Seq<Pair>, keep: Seq<usize>) -> Seq<Pair> {
    Seq::new(keep.len(), |i: int| ps[keep[i] as int])
}

proof fn lemma_kept_sifts(ps: Seq<Pair>, f: spec_fn(int) -> Result<bool, Query>, t: spec_fn(Pair) -> bool, n: nat)
    requires
        n <= ps.len() <= usize::MAX,
        forall|i: int|
            0 <= i < n ==> (#[trigger] f(i) matches Ok(yes) ==> yes == t(ps[i])),
    ensures
        match kept(f, n) {
            Ok(keep) => pairs_at(ps, keep) == sifted(ps.take(n as int), t) && (forall|i: int|
                0 <= i < n ==> #[trigger] f(i) is Ok) && forall|i: int|
                0 <= i < keep.len() ==> (#[trigger] keep[i]) < n,
            Err(_) => exists|i: int| 0 <= i < n && #[trigger] f(i) is Err,
        },
    decreases n,
{
    if n == 0 {
        assert(pairs_at(ps, Seq::empty()) =~= Seq::empty());
        assert(ps.take(0) =~= Seq::empty());
    } else {
        let m = (n - 1) as nat;
        lemma_kept_sifts(ps, f, t, m);
        assert(ps.take(n as int).drop_last() =~= ps.take(m as int));
        assert(ps.take(n as int).last() == ps[n - 1]);
        if let Ok(s) = kept(f, m) {
            if let Ok(yes) = f(n - 1) {
                if yes {
                    assert(pairs_at(ps, s.push(m as usize)) =~= pairs_at(ps, s).push(ps[n - 1]));
                }
            }
        }
    }
}

proof fn lemma_paired_gathered(l: Batch, r: Batch, rk: Seq<usize>, ps: Seq<Pair>, id: u64, keep: Seq<usize>)
    requires
        forall|i: int| 0 <= i < keep.len() ==> (#[trigger] keep[i]) < ps.len(),
    ensures
        gathered(paired(l, r, rk, ps, id), keep) == paired(l, r, rk, pairs_at(ps, keep), id),
{
    let at = kept_right(rk, r.fields.len());
    let a = gathered(paired(l, r, rk, ps, id), keep);
    let b = paired(l, r, rk, pairs_at(ps, keep), id);
    assert forall|i: int| 0 <= i < b.columns.len() implies (#[trigger] a.columns[i]) == b.columns[i] by {
        let right = i >= l.fields.len();
        let c = if right {
            r.columns[at[i - l.fields.len()]]
        } else {
            l.columns[i]
        };
        assert(b.columns[i] == gathered_side(c, pairs_at(ps, keep), right));
        assert(paired(l, r, rk, ps, id).columns[i] == gathered_side(c, ps, right));
        assert(a.columns[i].cells =~= b.columns[i].cells);
    }
    assert(a.columns =~= b.columns);
}

// ---------------------------------------------------------------- the path

/// The verdict of a filter on a row.
pub open spec fn filter_verdict(op: Op, l: Batch, li: int, log: Log) -> Result<bool, Query> {
    match op {
        Op::Filter { pred } => match holds(pred, l, li, log) {
            Err(q) => Err(q),
            Ok(v) => Ok(v.0),
        },
        Op::FilterProject { preds, .. } => passing(preds@, l, li, log),
        _ => Ok(true),
    }
}

spec fn passer(op: Op, l: Batch, log: Log) -> spec_fn(Pair) -> bool {
    |p: Pair| filter_verdict(op, l, p.0->Some_0 as int, log) == Ok::<bool, Query>(true)
}

spec fn emitted_pairs(l: Batch, r: Batch, rk: Seq<usize>, s: Seq<Pair>, id: u64) -> Seq<Batch> {
    if s.len() == 0 {
        Seq::empty()
    } else {
        seq![paired(l, r, rk, s, id)]
    }
}

proof fn lemma_selects(preds: Seq<Expr>, op: Op, l: Batch, r: Batch, rk: Seq<usize>, s: Seq<Pair>, id: u64, log: Log)
    requires
        all_left(s),
        s.len() <= usize::MAX,
        forall|i: int| 0 <= i < preds.len() ==> pred_left(#[trigger] preds[i], l.fields),
        forall|li: int| #[trigger] filter_verdict(op, l, li, log) == passing(preds, l, li, log),
    ensures
        match selected(preds, paired(l, r, rk, s, id), log) {
            Ok(keep) => emitted(paired(l, r, rk, s, id), keep) == emitted_pairs(
                l,
                r,
                rk,
                sifted(s, passer(op, l, log)),
                id,
            ) && forall|i: int|
                0 <= i < s.len() ==> filter_verdict(op, l, (#[trigger] s[i]).0->Some_0 as int, log) is Ok,
            Err(_) => exists|i: int|
                0 <= i < s.len() && filter_verdict(op, l, (#[trigger] s[i]).0->Some_0 as int, log) is Err,
        },
{
    let b = paired(l, r, rk, s, id);
    let f = |row: int| passing(preds, b, row, log);
    let t = passer(op, l, log);
    assert forall|i: int| 0 <= i < s.len() implies #[trigger] f(i) == filter_verdict(
        op,
        l,
        s[i].0->Some_0 as int,
        log,
    ) by {
        assert(s[i].0 is Some);
        lemma_left_passing(preds, l, r, rk, s, id, i, log);
    }
    lemma_kept_sifts(s, f, t, s.len());
    assert(s.take(s.len() as int) =~= s);
    match kept(f, b.len) {
        Ok(keep) => {
            lemma_paired_gathered(l, r, rk, s, id, keep);
            assert(pairs_at(s, keep).len() == keep.len());
            assert forall|i: int| 0 <= i < s.len() implies filter_verdict(
                op,
                l,
                (#[trigger] s[i]).0->Some_0 as int,
                log,
            ) is Ok by {
                assert(f(i) is Ok);
            }
        },
        Err(_) => {
            let i = choose|i: int| 0 <= i < s.len() && #[trigger] f(i) is Err;
            assert(s[i] == s[i]);
        },
    }
}

proof fn lemma_filter_step(op: Op, stage: Stage, l: Batch, r: Batch, rk: Seq<usize>, s: Seq<Pair>, id: u64, c: CtxV, log: Log)
    requires
        plain_filter(op),
        built(op, stage),
        filter_left(op, l.fields),
        all_left(s),
        s.len() <= usize::MAX,
    ensures
        match stage_out(stage, paired(l, r, rk, s, id), c, log) {
            Ok((out, _)) => out == emitted_pairs(l, r, rk, sifted(s, passer(op, l, log)), id) && forall|i: int|
                0 <= i < s.len() ==> filter_verdict(op, l, (#[trigger] s[i]).0->Some_0 as int, log) is Ok,
            Err(_) => exists|i: int|
                0 <= i < s.len() && filter_verdict(op, l, (#[trigger] s[i]).0->Some_0 as int, log) is Err,
        },
{
    match op {
        Op::Filter { pred } => {
            let preds = seq![pred];
            assert forall|li: int| #[trigger] filter_verdict(op, l, li, log) == passing(
                preds,
                l,
                li,
                log,
            ) by {
                assert(preds.drop_last() =~= Seq::empty());
                assert(preds.last() == pred);
                assert(passing(preds.drop_last(), l, li, log) == Ok::<bool, Query>(true));
            }
            assert forall|i: int| 0 <= i < preds.len() implies pred_left(#[trigger] preds[i], l.fields) by {}
            lemma_selects(preds, op, l, r, rk, s, id, log);
        },
        Op::FilterProject { preds, .. } => {
            lemma_selects(preds@, op, l, r, rk, s, id, log);
        },
        _ => {},
    }
}

/// Is the path the join, the filters and the projection of a plan, one by one?
pub open spec fn spelled_out(
    g: PlanGraph,
    p: FusedShapePlan,
    r: Batch,
    rk: Seq<usize>,
    path: Seq<Labelled>,
) -> bool {
    let join = g.nodes@[p.join as int].op;
    let n = p.filters@.len() as int;
    &&& path.len() == 1 + n + if p.items is Some {
        1int
    } else {
        0int
    }
    &&& path[0].stage matches Stage::Broadcast(b) && b.right@ == r && b.rk@ == rk && b.kind
        == join->Join_kind && texts(b.left_keys@) == roots(join->Join_left_keys@)
    &&& forall|i: int|
        0 <= i < n ==> plain_filter(g.nodes@[(#[trigger] p.filters@[i]) as int].op) && built(
            g.nodes@[p.filters@[i] as int].op,
            path[1 + i].stage,
        )
    &&& p.items matches Some(k) ==> g.nodes@[k as int].op is ProjectExpr && built(
        g.nodes@[k as int].op,
        path[1 + n].stage,
    )
}

spec fn pass_through(g: PlanGraph, filters: Seq<NodeId>, n: nat, l: Batch, log: Log) -> spec_fn(Pair) -> bool {
    |p: Pair|
        passes_filters(g, filters, n, l, p.0->Some_0 as int, log) == Ok::<bool, Query>(true)
}

/// The first `n` filters ask nothing of the pairs.
spec fn settled(g: PlanGraph, filters: Seq<NodeId>, n: nat, l: Batch, ps: Seq<Pair>, log: Log) -> bool {
    forall|i: int|
        0 <= i < ps.len() ==> passes_filters(
            g,
            filters,
            n,
            l,
            (#[trigger] ps[i]).0->Some_0 as int,
            log,
        ) is Ok
}

/// What is on its way after the first `n` filters.
spec fn sifted_so_far(
    v: PathV,
    g: PlanGraph,
    filters: Seq<NodeId>,
    n: nat,
    l: Batch,
    r: Batch,
    rk: Seq<usize>,
    ps: Seq<Pair>,
    id: u64,
    log: Log,
) -> bool {
    let s = sifted(ps, pass_through(g, filters, n, l, log));
    match v.chunk {
        Some(b) => b == paired(l, r, rk, s, id),
        None => s.len() == 0,
    }
}

proof fn lemma_sifted_all(ps: Seq<Pair>, t: spec_fn(Pair) -> bool)
    requires
        forall|i: int| 0 <= i < ps.len() ==> t(#[trigger] ps[i]),
    ensures
        sifted(ps, t) == ps,
    decreases ps.len(),
{
    if ps.len() > 0 {
        let up = ps.drop_last();
        assert forall|i: int| 0 <= i < up.len() implies t(#[trigger] up[i]) by {
            assert(up[i] == ps[i]);
        }
        lemma_sifted_all(up, t);
        assert(t(ps[ps.len() - 1]));
        assert(up.push(ps.last()) =~= ps);
    } else {
        assert(sifted(ps, t) =~= ps);
    }
}

proof fn lemma_one_filter(
    g: PlanGraph,
    filters: Seq<NodeId>,
    n: nat,
    step: Labelled,
    v: PathV,
    l: Batch,
    r: Batch,
    rk: Seq<usize>,
    ps: Seq<Pair>,
    id: u64,
    log: Log,
)
    requires
        0 < n <= filters.len(),
        all_left(ps),
        ps.len() <= usize::MAX,
        plain_filter(g.nodes@[filters[n - 1] as int].op),
        built(g.nodes@[filters[n - 1] as int].op, step.stage),
        filter_left(g.nodes@[filters[n - 1] as int].op, l.fields),
        settled(g, filters, (n - 1) as nat, l, ps, log),
        sifted_so_far(v, g, filters, (n - 1) as nat, l, r, rk, ps, id, log),
    ensures
        match stepped(step, v, log) {
            Ok(x) => settled(g, filters, n, l, ps, log) && sifted_so_far(
                x,
                g,
                filters,
                n,
                l,
                r,
                rk,
                ps,
                id,
                log,
            ),
            Err(_) => !settled(g, filters, n, l, ps, log),
        },
{
    reveal(stepped);
    let m = (n - 1) as nat;
    let op = g.nodes@[filters[n - 1] as int].op;
    let a = pass_through(g, filters, m, l, log);
    let b = passer(op, l, log);
    let c = pass_through(g, filters, n, l, log);
    let s = sifted(ps, a);
    lemma_sifted(ps, a);
    assert(all_left(s)) by {
        assert forall|i: int| 0 <= i < s.len() implies (#[trigger] s[i]).0 is Some by {
            let k = choose|k: int| 0 <= k < ps.len() && ps[k] == s[i];
            assert(ps[k].0 is Some);
        }
    }
    assert forall|i: int| 0 <= i < ps.len() implies passes_filters(
        g,
        filters,
        n,
        l,
        (#[trigger] ps[i]).0->Some_0 as int,
        log,
    ) == if a(ps[i]) {
        filter_verdict(op, l, ps[i].0->Some_0 as int, log)
    } else {
        Ok(false)
    } by {}
    lemma_sifted_twice(ps, a, b, c);
    match v.chunk {
        None => {
            assert forall|i: int| 0 <= i < ps.len() implies passes_filters(
                g,
                filters,
                n,
                l,
                (#[trigger] ps[i]).0->Some_0 as int,
                log,
            ) is Ok by {
                if a(ps[i]) {
                    assert(s.contains(ps[i]));
                }
            }
            assert(sifted(s, b) =~= Seq::empty());
        },
        Some(x) => {
            let ctx = CtxV { label: step.label@, errors: v.events, next_chunk_id: v.next };
            lemma_filter_step(op, step.stage, l, r, rk, s, id, ctx, log);
            match stage_out(step.stage, x, ctx, log) {
                Ok((out, _)) => {
                    assert forall|i: int| 0 <= i < ps.len() implies passes_filters(
                        g,
                        filters,
                        n,
                        l,
                        (#[trigger] ps[i]).0->Some_0 as int,
                        log,
                    ) is Ok by {
                        if a(ps[i]) {
                            assert(s.contains(ps[i]));
                            let k = choose|k: int| 0 <= k < s.len() && s[k] == ps[i];
                            assert(filter_verdict(op, l, s[k].0->Some_0 as int, log) is Ok);
                        }
                    }
                },
                Err(_) => {
                    let k = choose|k: int|
                        0 <= k < s.len() && filter_verdict(
                            op,
                            l,
                            (#[trigger] s[k]).0->Some_0 as int,
                            log,
                        ) is Err;
                    assert(a(s[k]));
                    let i = choose|i: int| 0 <= i < ps.len() && ps[i] == s[k];
                    assert(passes_filters(g, filters, n, l, ps[i].0->Some_0 as int, log) is Err);
                },
            }
        },
    }
}

proof fn lemma_filters_path(
    g: PlanGraph,
    p: FusedShapePlan,
    l: Batch,
    r: Batch,
    rk: Seq<usize>,
    path: Seq<Labelled>,
    start: PathV,
    ps: Seq<Pair>,
    id: u64,
    n: nat,
    log: Log,
)
    requires
        n <= p.filters@.len(),
        all_left(ps),
        ps.len() <= usize::MAX,
        spelled_out(g, p, r, rk, path),
        forall|i: int|
            0 <= i < p.filters@.len() ==> filter_left(
                g.nodes@[(#[trigger] p.filters@[i]) as int].op,
                l.fields,
            ),
        path_out(path, 1, start, log) is Ok,
        path_out(path, 1, start, log)->Ok_0.chunk == Some(paired(l, r, rk, ps, id)),
    ensures
        match path_out(path, 1 + n, start, log) {
            Ok(v) => settled(g, p.filters@, n, l, ps, log) && sifted_so_far(
                v,
                g,
                p.filters@,
                n,
                l,
                r,
                rk,
                ps,
                id,
                log,
            ),
            Err(_) => !settled(g, p.filters@, n, l, ps, log),
        },
    decreases n,
{
    if n == 0 {
        lemma_sifted_all(ps, pass_through(g, p.filters@, 0, l, log));
    } else {
        let m = (n - 1) as nat;
        lemma_filters_path(g, p, l, r, rk, path, start, ps, id, m, log);
        assert(plain_filter(g.nodes@[p.filters@[n - 1] as int].op));
        match path_out(path, 1 + m, start, log) {
            Ok(v) => {
                lemma_one_filter(g, p.filters@, n, path[n as int], v, l, r, rk, ps, id, log);
            },
            Err(_) => {
                let i = choose|i: int|
                    0 <= i < ps.len() && passes_filters(
                        g,
                        p.filters@,
                        m,
                        l,
                        (#[trigger] ps[i]).0->Some_0 as int,
                        log,
                    ) is Err;
                assert(passes_filters(g, p.filters@, n, l, ps[i].0->Some_0 as int, log) is Err);
            },
        }
    }
}

// ---------------------------------------------------------------- the join

proof fn lemma_all_known(fields: Seq<FieldV>, names: Seq<Seq<char>>, at: Seq<usize>)
    requires
        names.len() == at.len(),
        forall|i: int|
            0 <= i < names.len() ==> index_in(fields, #[trigger] names[i]) == Some(at[i] as int),
    ensures
        unknown(fields, names) is None,
        known(fields, names) == at,
    decreases names.len(),
{
    if names.len() == 0 {
        assert(known(fields, names) =~= at);
    } else {
        let up = names.drop_last();
        assert forall|i: int| 0 <= i < up.len() implies index_in(fields, #[trigger] up[i]) == Some(
            at.drop_last()[i] as int,
        ) by {
            assert(up[i] == names[i]);
        }
        lemma_all_known(fields, up, at.drop_last());
        assert(names.last() == names[names.len() - 1]);
        assert(at.drop_last().push(at.last()) =~= at);
    }
}

/// The rows that a join pairs: few enough to be counted.
pub open spec fn pairs_counted(l: Batch, lk: Seq<usize>, r: Batch, rk: Seq<usize>, kind: JoinKind, log: Log) -> bool {
    match (row_keys(l, lk, l.len, log), row_keys(r, rk, r.len, log)) {
        (Ok(a), Ok(b)) => join_pairs(a, b, kind).len() <= usize::MAX,
        _ => true,
    }
}

proof fn lemma_row_keys_len(b: Batch, at: Seq<usize>, n: nat, log: Log)
    ensures
        row_keys(b, at, n, log) matches Ok(k) ==> k.len() == n,
    decreases n,
{
    if n > 0 {
        lemma_row_keys_len(b, at, (n - 1) as nat, log);
    }
}

proof fn lemma_joined_is_paired(l: Batch, r: Batch, lk: Seq<usize>, rk: Seq<usize>, kind: JoinKind, id: u64, log: Log)
    requires
        l.wf(),
        r.wf(),
        l.fields.len() > 0,
        l.len <= usize::MAX,
        r.len <= usize::MAX,
        !kind.right_kept(),
    ensures
        match (row_keys(l, lk, l.len, log), row_keys(r, rk, r.len, log)) {
            (Ok(a), Ok(b)) => pairs_in(l, r, join_pairs(a, b, kind)) && joined_chunk(
                l,
                r,
                lk,
                rk,
                kind,
                id,
                log,
            ) == Ok::<Batch, Query>(paired(l, r, rk, join_pairs(a, b, kind), id)),
            _ => joined_chunk(l, r, lk, rk, kind, id, log) is Err,
        },
{
    lemma_row_keys_len(l, lk, l.len, log);
    lemma_row_keys_len(r, rk, r.len, log);
    match (row_keys(l, lk, l.len, log), row_keys(r, rk, r.len, log)) {
        (Ok(a), Ok(b)) => {
            let ps = join_pairs(a, b, kind);
            lemma_pairs_fit(a, b, kind);
            lemma_left_sides(a, b, kind, a.len());
            assert(ps =~= left_pairs(a, b, kind, a.len()));
            lemma_left_part_is(l, r, lk, rk, ps, l.fields.len(), log);
            lemma_right_part_is(l, r, rk, ps, r.fields.len());
            assert(l.fields.take(l.fields.len() as int) =~= l.fields);
            let j = joined_chunk(l, r, lk, rk, kind, id, log)->Ok_0;
            let want = paired(l, r, rk, ps, id);
            assert(j.columns =~= want.columns);
            assert(j.columns[0] == gathered_side(l.columns[0], ps, false));
            assert(j.fields =~= want.fields);
        },
        _ => {},
    }
}

// --------------------------------------------------------------- the items

proof fn lemma_cells_all(f: spec_fn(int) -> Outcome, v: spec_fn(int) -> Datum, n: nat)
    requires
        forall|i: int| 0 <= i < n ==> #[trigger] f(i) == Ok::<(Datum, nat), Query>((v(i), 0)),
    ensures
        cells_from(f, n) == Ok::<(Seq<Datum>, nat), Query>((Seq::new(n, v), 0)),
    decreases n,
{
    if n == 0 {
        assert(Seq::new(0, v) =~= Seq::empty());
    } else {
        lemma_cells_all(f, v, (n - 1) as nat);
        assert(f(n - 1) == Ok::<(Datum, nat), Query>((v(n - 1), 0)));
        assert(Seq::new(n, v) =~= Seq::new((n - 1) as nat, v).push(v(n - 1)));
    }
}

proof fn lemma_texts_lane(vals: Seq<Datum>, log: Log)
    requires
        forall|i: int| 0 <= i < vals.len() ==> (#[trigger] vals[i]) is Str,
    ensures
        from_values(vals, log) == Ok::<Lane, Query>(Lane { dtype: DataType::Str, cells: vals }),
{
    lemma_cells_all(|i: int| text_cell(vals[i], log), |i: int| vals[i], vals.len());
    assert(Seq::new(vals.len(), |i: int| vals[i]) =~= vals);
    if vals.len() > 0 {
        assert(vals[0] is Str);
    }
    assert(forall|lo: int, hi: int| lo >= 1 && hi <= 8 ==> !#[trigger] crate::lanes::within(vals, lo, hi));
}

/// The text that stands in a column, or another where it is missing.
proof fn lemma_coalesced(e: Expr, b: Batch, row: int, log: Log)
    requires
        e matches Expr::Func { func, args } && func is Coalesce && args@.len() == 2 && args@[0] is Field
            && args@[0]->Field_access.flat() && args@[1] is Literal && args@[1]->Literal_0 is Str && b.column(
            args@[0]->Field_name@,
        ) is Some,
    ensures
        ({
            let args = e->Func_args@;
            let d = b.column(args[0]->Field_name@)->Some_0.cells[row];
            eval(e, b, row, log) == Ok::<(Datum, nat), Query>(
                (
                    if d is Null {
                        args[1]->Literal_0@
                    } else {
                        d
                    },
                    0,
                ),
            )
        }),
{
    let args = e->Func_args;
    let outs = eval_all(args, b, row, log);
    assert(outs.len() == 2);
    assert(outs[0] == eval(args@[0], b, row, log));
    assert(outs[1] == eval(args@[1], b, row, log));
    reveal_with_fuel(coalesce_from, 3);
}

/// The column of an item holds, row by row, what its cell reads.
proof fn lemma_item_lane(e: Expr, c: FusedCell, l: Batch, r: Batch, rk: Seq<usize>, s: Seq<Pair>, id: u64, log: Log)
    requires
        l.wf(),
        r.wf(),
        r.fields.len() <= usize::MAX,
        pairs_in(l, r, s),
        cell_for(c, e, l, r, rk),
    ensures
        lane_of(e, paired(l, r, rk, s, id), log) matches Ok((lane, _)) && lane.cells.len() == s.len() && forall|
            i: int,
        |
            0 <= i < s.len() ==> (#[trigger] lane.cells[i]) == fused_datum(
                c,
                l,
                s[i].0->Some_0 as int,
                r,
                s[i].1,
            ),
{
    let b = paired(l, r, rk, s, id);
    lemma_paired_wf(l, r, rk, s, id);
    lemma_lane_of_typed(e, b, log);
    match e {
        Expr::Field { name, access } => {
            lemma_place_reads(l, r, rk, s, id, name@, c);
        },
        Expr::Literal(v) => {},
        Expr::Func { func, args } => {
            let name = args@[0]->Field_name@;
            let plain = match c {
                FusedCell::CoalesceLeft(k, _) => FusedCell::Left(k),
                FusedCell::CoalesceRight(k, _) => FusedCell::Right(k),
                _ => c,
            };
            lemma_place_reads(l, r, rk, s, id, name, plain);
            lemma_index_in(l.fields, name);
            lemma_right_bound(l, r, rk, name, r.fields.len());
            let v = |i: int| fused_datum(c, l, s[i].0->Some_0 as int, r, s[i].1);
            let f = |i: int| eval(e, b, i, log);
            assert forall|i: int| 0 <= i < s.len() implies #[trigger] f(i) == Ok::<(Datum, nat), Query>(
                (v(i), 0),
            ) by {
                lemma_coalesced(e, b, i, log);
                let j = index_in(b.fields, name)->Some_0;
                assert(b.columns[j].cells[i] == fused_datum(
                    plain,
                    l,
                    s[i].0->Some_0 as int,
                    r,
                    s[i].1,
                ));
            }
            lemma_cells_all(f, v, b.len);
            let vals = Seq::new(b.len, v);
            assert forall|i: int| 0 <= i < vals.len() implies (#[trigger] vals[i]) is Str by {
                assert(s[i].0 is Some);
                assert(side(s[i], false) matches Some(x) ==> x < l.len);
                assert(side(s[i], true) matches Some(x) ==> x < r.len);
                match c {
                    FusedCell::CoalesceLeft(k, _) => {
                        assert(l.columns[k as int].typed());
                        assert(fits(l.columns[k as int].cells[s[i].0->Some_0 as int], DataType::Str));
                    },
                    FusedCell::CoalesceRight(k, _) => {
                        assert(r.columns[k as int].typed());
                        if s[i].1 is Some {
                            assert(fits(r.columns[k as int].cells[s[i].1->Some_0 as int], DataType::Str));
                        }
                    },
                    _ => {},
                }
            }
            lemma_texts_lane(vals, log);
            assert(rows_lane(e, b, log) == Ok::<(Lane, nat), Query>(
                (Lane { dtype: DataType::Str, cells: vals }, 0),
            ));
        },
        _ => {},
    }
}

// ---------------------------------------------------------------- the rows

/// What the cells read of pairs, one after the other.
pub open spec fn rows_of_pairs(f: FusedPlan, aggs: Seq<AggV>, l: Batch, r: Batch, s: Seq<Pair>, log: Log) -> Result<
    Seq<RowV>,
    Query,
>
    decreases s.len(),
{
    if s.len() == 0 {
        Ok(Seq::empty())
    } else {
        match rows_of_pairs(f, aggs, l, r, s.drop_last(), log) {
            Err(q) => Err(q),
            Ok(rows) => {
                let li = s.last().0->Some_0 as int;
                match cell_texts(f.key_cells@, f.key_cells@.len(), l, li, r, s.last().1, log) {
                    Err(q) => Err(q),
                    Ok(parts) => match cell_items(
                        f.agg_cells@,
                        aggs,
                        f.agg_cells@.len(),
                        l,
                        li,
                        r,
                        s.last().1,
                        log,
                    ) {
                        Err(q) => Err(q),
                        Ok(items) => Ok(rows.push(RowV { parts, items })),
                    },
                }
            },
        }
    }
}

proof fn lemma_fused_rows_sifted(
    g: PlanGraph,
    f: FusedPlan,
    aggs: Seq<AggV>,
    l: Batch,
    r: Batch,
    ps: Seq<Pair>,
    n: nat,
    log: Log,
)
    requires
        n <= ps.len(),
    ensures
        settled(g, f.filters@, f.filters@.len(), l, ps.take(n as int), log) ==> fused_rows(
            g,
            f,
            aggs,
            l,
            r,
            ps,
            n,
            log,
        ) == rows_of_pairs(
            f,
            aggs,
            l,
            r,
            sifted(ps.take(n as int), pass_through(g, f.filters@, f.filters@.len(), l, log)),
            log,
        ),
        !settled(g, f.filters@, f.filters@.len(), l, ps.take(n as int), log) ==> fused_rows(
            g,
            f,
            aggs,
            l,
            r,
            ps,
            n,
            log,
        ) is Err,
    decreases n,
{
    let k = f.filters@.len();
    let t = pass_through(g, f.filters@, k, l, log);
    let now = ps.take(n as int);
    if n > 0 {
        let m = (n - 1) as nat;
        let up = ps.take(m as int);
        lemma_fused_rows_sifted(g, f, aggs, l, r, ps, m, log);
        assert(now.drop_last() =~= up);
        assert(now.last() == ps[n - 1]);
        if settled(g, f.filters@, k, l, now, log) {
            assert(settled(g, f.filters@, k, l, up, log)) by {
                assert forall|i: int| 0 <= i < up.len() implies passes_filters(
                    g,
                    f.filters@,
                    k,
                    l,
                    (#[trigger] up[i]).0->Some_0 as int,
                    log,
                ) is Ok by {
                    assert(up[i] == now[i]);
                }
            }
            assert(passes_filters(g, f.filters@, k, l, now[n - 1].0->Some_0 as int, log) is Ok);
            if t(ps[n - 1]) {
                let su = sifted(up, t);
                assert(su.push(ps[n - 1]).drop_last() =~= su);
                assert(su.push(ps[n - 1]).last() == ps[n - 1]);
            }
        } else if settled(g, f.filters@, k, l, up, log) {
            let i = choose|i: int|
                0 <= i < now.len() && !(passes_filters(
                    g,
                    f.filters@,
                    k,
                    l,
                    (#[trigger] now[i]).0->Some_0 as int,
                    log,
                ) is Ok);
            if i < m {
                assert(up[i] == now[i]);
            }
            assert(i == m);
        }
    }
}

/// A chunk of the pairs whose columns are what the cells read.
spec fn readable_as(
    x: Batch,
    keys: Seq<Seq<char>>,
    aggs: Seq<AggV>,
    f: FusedPlan,
    l: Batch,
    r: Batch,
    s: Seq<Pair>,
) -> bool {
    &&& x.len == s.len()
    &&& x.fields.len() <= usize::MAX
    &&& keys.len() == f.key_cells@.len()
    &&& aggs.len() == f.agg_cells@.len()
    &&& forall|i: int| 0 <= i < keys.len() ==> reads(x, #[trigger] keys[i], f.key_cells@[i], l, r, s)
    &&& forall|i: int|
        0 <= i < aggs.len() ==> reads(x, (#[trigger] aggs[i]).col, f.agg_cells@[i], l, r, s)
}

proof fn lemma_row_texts(
    x: Batch,
    keys: Seq<Seq<char>>,
    aggs: Seq<AggV>,
    f: FusedPlan,
    l: Batch,
    r: Batch,
    s: Seq<Pair>,
    at: Seq<usize>,
    row: int,
    n: nat,
    log: Log,
)
    requires
        readable_as(x, keys, aggs, f, l, r, s),
        at.len() == keys.len(),
        forall|i: int|
            0 <= i < keys.len() ==> index_in(x.fields, #[trigger] keys[i]) == Some(at[i] as int),
        0 <= row < s.len(),
        n <= keys.len(),
    ensures
        key_parts(x, at, row, n, log) == cell_texts(
            f.key_cells@,
            n,
            l,
            s[row].0->Some_0 as int,
            r,
            s[row].1,
            log,
        ),
    decreases n,
{
    if n > 0 {
        lemma_row_texts(x, keys, aggs, f, l, r, s, at, row, (n - 1) as nat, log);
        assert(reads(x, keys[n - 1], f.key_cells@[n - 1], l, r, s));
        assert(x.columns[at[n - 1] as int].cells[row] == fused_datum(
            f.key_cells@[n - 1],
            l,
            s[row].0->Some_0 as int,
            r,
            s[row].1,
        ));
    }
}

proof fn lemma_row_items(
    x: Batch,
    keys: Seq<Seq<char>>,
    aggs: Seq<AggV>,
    f: FusedPlan,
    l: Batch,
    r: Batch,
    s: Seq<Pair>,
    row: int,
    n: nat,
    log: Log,
)
    requires
        readable_as(x, keys, aggs, f, l, r, s),
        0 <= row < s.len(),
        n <= aggs.len(),
    ensures
        items_of(x, aggs, row, n, log) == cell_items(
            f.agg_cells@,
            aggs,
            n,
            l,
            s[row].0->Some_0 as int,
            r,
            s[row].1,
            log,
        ),
    decreases n,
{
    if n > 0 {
        lemma_row_items(x, keys, aggs, f, l, r, s, row, (n - 1) as nat, log);
        assert(reads(x, aggs[n - 1].col, f.agg_cells@[n - 1], l, r, s));
        let j = index_in(x.fields, aggs[n - 1].col)->Some_0;
        assert(x.columns[j].cells[row] == fused_datum(
            f.agg_cells@[n - 1],
            l,
            s[row].0->Some_0 as int,
            r,
            s[row].1,
        ));
    }
}

proof fn lemma_rows_read(
    x: Batch,
    keys: Seq<Seq<char>>,
    aggs: Seq<AggV>,
    f: FusedPlan,
    l: Batch,
    r: Batch,
    s: Seq<Pair>,
    n: nat,
    log: Log,
)
    requires
        readable_as(x, keys, aggs, f, l, r, s),
        n <= s.len(),
    ensures
        unknown(x.fields, keys) is None,
        rows_in(x, known(x.fields, keys), aggs, n, log) == rows_of_pairs(
            f,
            aggs,
            l,
            r,
            s.take(n as int),
            log,
        ),
    decreases n,
{
    let at = Seq::new(keys.len(), |i: int| index_in(x.fields, keys[i])->Some_0 as usize);
    assert forall|i: int| 0 <= i < keys.len() implies index_in(x.fields, #[trigger] keys[i]) == Some(
        at[i] as int,
    ) by {
        assert(reads(x, keys[i], f.key_cells@[i], l, r, s));
        lemma_index_in(x.fields, keys[i]);
    }
    lemma_all_known(x.fields, keys, at);
    if n > 0 {
        lemma_rows_read(x, keys, aggs, f, l, r, s, (n - 1) as nat, log);
        lemma_row_texts(x, keys, aggs, f, l, r, s, at, n - 1, keys.len(), log);
        lemma_row_items(x, keys, aggs, f, l, r, s, n - 1, aggs.len(), log);
        assert(s.take(n as int).drop_last() =~= s.take(n - 1));
        assert(s.take(n as int).last() == s[n - 1]);
    }
}

// --------------------------------------------------------- the projection

proof fn lemma_computed_at(b: Batch, items: Seq<(Expr, String)>, n: nat, log: Log)
    requires
        n <= items.len(),
    ensures
        match computed(b, items, n, log) {
            Ok((fields, columns)) => fields.len() == n && columns.len() == n && forall|i: int|
                0 <= i < n ==> (#[trigger] fields[i]).name == items[i].1@ && (lane_of(
                    items[i].0,
                    b,
                    log,
                ) matches Ok((lane, _)) && columns[i] == lane),
            Err(_) => exists|i: int| 0 <= i < n && lane_of((#[trigger] items[i]).0, b, log) is Err,
        },
    decreases n,
{
    if n > 0 {
        lemma_computed_at(b, items, (n - 1) as nat, log);
    }
}

proof fn lemma_item_index(items: Seq<(Expr, String)>, fields: Seq<FieldV>, name: Seq<char>)
    requires
        fields.len() == items.len(),
        forall|i: int| 0 <= i < items.len() ==> (#[trigger] fields[i]).name == items[i].1@,
    ensures
        index_in(fields, name) == item_named(items, name),
        item_named(items, name) matches Some(i) ==> 0 <= i < items.len(),
{
    lemma_index_in(fields, name);
    lemma_first_item(items, name);
    match item_named(items, name) {
        Some(i) => {
            assert(fields[i].name == name);
            assert forall|k: int| 0 <= k < i implies (#[trigger] fields[k]).name != name by {
                assert(items[k].1@ != name);
            }
        },
        None => {
            assert forall|k: int| 0 <= k < fields.len() implies (#[trigger] fields[k]).name != name by {
                assert(items[k].1@ != name);
            }
        },
    }
}

proof fn lemma_first_item(items: Seq<(Expr, String)>, name: Seq<char>)
    ensures
        match item_named(items, name) {
            Some(i) => 0 <= i < items.len() && items[i].1@ == name && forall|k: int|
                0 <= k < i ==> (#[trigger] items[k]).1@ != name,
            None => forall|k: int| 0 <= k < items.len() ==> (#[trigger] items[k]).1@ != name,
        },
    decreases items.len(),
{
    if items.len() > 0 {
        let up = items.drop_last();
        lemma_first_item(up, name);
        assert forall|k: int| 0 <= k < up.len() implies up[k] == #[trigger] items[k] by {}
    }
}

/// A cell that reads an item, where the item can be read.
spec fn cell_of_item(e: Expr, l: Batch, r: Batch, rk: Seq<usize>) -> FusedCell {
    match e {
        Expr::Field { name, access } => cell_of_place(place_in_join(l, r, rk, name@)),
        Expr::Func { func, args } => match place_in_join(l, r, rk, args@[0]->Field_name@) {
            Place::Left(i) => FusedCell::CoalesceLeft(i as usize, args@[1]->Literal_0->Str_0),
            Place::Right(i) => FusedCell::CoalesceRight(i as usize, args@[1]->Literal_0->Str_0),
            Place::Nowhere => FusedCell::Left(0),
        },
        Expr::Literal(v) => FusedCell::LitStr(v->Str_0),
        _ => FusedCell::Left(0),
    }
}

spec fn cell_of_place(p: Place) -> FusedCell {
    match p {
        Place::Left(i) => FusedCell::Left(i as usize),
        Place::Right(i) => FusedCell::Right(i as usize),
        Place::Nowhere => FusedCell::Left(0),
    }
}

proof fn lemma_readable_asks_nothing(e: Expr, l: Batch, r: Batch, rk: Seq<usize>, s: Seq<Pair>, id: u64, log: Log)
    requires
        l.wf(),
        r.wf(),
        l.fields.len() <= usize::MAX,
        r.fields.len() <= usize::MAX,
        pairs_in(l, r, s),
        readable(e, l, r, rk),
    ensures
        lane_of(e, paired(l, r, rk, s, id), log) is Ok,
{
    let c = cell_of_item(e, l, r, rk);
    match e {
        Expr::Field { name, access } => {
            lemma_index_in(l.fields, name@);
            lemma_right_bound(l, r, rk, name@, r.fields.len());
        },
        Expr::Func { func, args } => {
            lemma_index_in(l.fields, args@[0]->Field_name@);
            lemma_right_bound(l, r, rk, args@[0]->Field_name@, r.fields.len());
        },
        _ => {},
    }
    assert(cell_for(c, e, l, r, rk));
    lemma_item_lane(e, c, l, r, rk, s, id, log);
}

// ------------------------------------------------------------------ the law

/// A plan, the path that spells it out, and the group at its end. The projection
/// has a column: a chunk without columns has no rows.
pub open spec fn same_flow(
    g: PlanGraph,
    p: FusedShapePlan,
    group: NodeId,
    r: Batch,
    rk: Seq<usize>,
    path: Seq<Labelled>,
    keys: Seq<Seq<char>>,
    aggs: Seq<AggV>,
) -> bool {
    &&& plan_in(g, p, group)
    &&& spelled_out(g, p, r, rk, path)
    &&& keys == roots(g.nodes@[group as int].op->GroupBy_keys@)
    &&& aggs == agg_views(g.nodes@[group as int].op->GroupBy_aggs@)
    &&& r.wf()
    &&& r.len <= usize::MAX
    &&& plan_items(g, p) matches Some(items) ==> items.len() > 0
}

/// A left chunk that has a column, and whose join fits the machine.
pub open spec fn countable(g: PlanGraph, p: FusedShapePlan, l: Batch, r: Batch, rk: Seq<usize>, log: Log) -> bool {
    let join = g.nodes@[p.join as int].op;
    &&& l.wf()
    &&& l.fields.len() > 0
    &&& l.len <= usize::MAX
    &&& l.fields.len() + r.fields.len() <= usize::MAX
    &&& pairs_counted(
        l,
        known(l.fields, roots(join->Join_left_keys@)),
        r,
        rk,
        join->Join_kind,
        log,
    )
}

/// A resolved plan and the path that spells it out, over the same chunks and the
/// same group.
pub open spec fn same_work(
    g: PlanGraph,
    p: FusedShapePlan,
    group: NodeId,
    l: Batch,
    r: Batch,
    rk: Seq<usize>,
    f: FusedPlan,
    path: Seq<Labelled>,
    keys: Seq<Seq<char>>,
    aggs: Seq<AggV>,
    log: Log,
) -> bool {
    &&& same_flow(g, p, group, r, rk, path, keys, aggs)
    &&& countable(g, p, l, r, rk, log)
    &&& fuses(g, p, group, l, r, rk)
    &&& resolved(g, p, group, l, r, rk, f)
}

/// Some item of the projection cannot be read by a cell: no key and no aggregate
/// needs it, yet the projection itself computes it.
pub open spec fn idle_item(g: PlanGraph, p: FusedShapePlan, l: Batch, r: Batch, rk: Seq<usize>) -> bool {
    plan_items(g, p) matches Some(items) && exists|i: int|
        0 <= i < items.len() && !readable((#[trigger] items[i]).0, l, r, rk)
}

proof fn lemma_projected_reads(
    g: PlanGraph,
    p: FusedShapePlan,
    group: NodeId,
    l: Batch,
    r: Batch,
    rk: Seq<usize>,
    f: FusedPlan,
    keys: Seq<Seq<char>>,
    aggs: Seq<AggV>,
    s: Seq<Pair>,
    id: u64,
    log: Log,
)
    requires
        resolved(g, p, group, l, r, rk, f),
        keys == roots(g.nodes@[group as int].op->GroupBy_keys@),
        aggs == agg_views(g.nodes@[group as int].op->GroupBy_aggs@),
        l.wf(),
        r.wf(),
        l.fields.len() + r.fields.len() <= usize::MAX,
        pairs_in(l, r, s),
        plan_items(g, p) is Some,
        plan_items(g, p)->Some_0.len() > 0,
        plan_items(g, p)->Some_0.len() <= usize::MAX,
    ensures
        ({
            let b = paired(l, r, rk, s, id);
            let items = plan_items(g, p)->Some_0;
            match computed(b, items, items.len(), log) {
                Ok((fields, columns)) => readable_as(
                    rebuilt(b, fields, columns),
                    keys,
                    aggs,
                    f,
                    l,
                    r,
                    s,
                ),
                Err(_) => idle_item(g, p, l, r, rk),
            }
        }),
{
    let b = paired(l, r, rk, s, id);
    let items = plan_items(g, p)->Some_0;
    lemma_paired_wf(l, r, rk, s, id);
    lemma_computed_at(b, items, items.len(), log);
    match computed(b, items, items.len(), log) {
        Ok((fields, columns)) => {
            let x = rebuilt(b, fields, columns);
            assert(fields[0].name == items[0].1@);
            lemma_lane_of_typed(items[0].0, b, log);
            assert forall|i: int| 0 <= i < keys.len() implies reads(
                x,
                #[trigger] keys[i],
                f.key_cells@[i],
                l,
                r,
                s,
            ) by {
                assert(cell_named(f.key_cells@[i], plan_items(g, p), l, r, rk, keys[i]));
                lemma_item_reads(items, b, fields, columns, keys[i], f.key_cells@[i], l, r, rk, s, id, log);
            }
            assert forall|i: int| 0 <= i < aggs.len() implies reads(
                x,
                (#[trigger] aggs[i]).col,
                f.agg_cells@[i],
                l,
                r,
                s,
            ) by {
                assert(cell_named(f.agg_cells@[i], plan_items(g, p), l, r, rk, aggs[i].col));
                lemma_item_reads(items, b, fields, columns, aggs[i].col, f.agg_cells@[i], l, r, rk, s, id, log);
            }
        },
        Err(_) => {
            let i = choose|i: int|
                0 <= i < items.len() && lane_of((#[trigger] items[i]).0, b, log) is Err;
            if readable(items[i].0, l, r, rk) {
                lemma_readable_asks_nothing(items[i].0, l, r, rk, s, id, log);
            }
        },
    }
}

proof fn lemma_item_reads(
    items: Seq<(Expr, String)>,
    b: Batch,
    fields: Seq<FieldV>,
    columns: Seq<Lane>,
    name: Seq<char>,
    c: FusedCell,
    l: Batch,
    r: Batch,
    rk: Seq<usize>,
    s: Seq<Pair>,
    id: u64,
    log: Log,
)
    requires
        b == paired(l, r, rk, s, id),
        l.wf(),
        r.wf(),
        r.fields.len() <= usize::MAX,
        pairs_in(l, r, s),
        fields.len() == items.len(),
        columns.len() == items.len(),
        forall|i: int|
            0 <= i < items.len() ==> (#[trigger] fields[i]).name == items[i].1@ && (lane_of(
                items[i].0,
                b,
                log,
            ) matches Ok((lane, _)) && columns[i] == lane),
        cell_named(c, Some(items), l, r, rk, name),
    ensures
        reads(rebuilt(b, fields, columns), name, c, l, r, s),
{
    lemma_item_index(items, fields, name);
    let i = item_named(items, name)->Some_0;
    lemma_item_lane(items[i].0, c, l, r, rk, s, id, log);
    assert(fields[i].name == items[i].1@);
}

proof fn lemma_plain_reads(
    g: PlanGraph,
    p: FusedShapePlan,
    group: NodeId,
    l: Batch,
    r: Batch,
    rk: Seq<usize>,
    f: FusedPlan,
    keys: Seq<Seq<char>>,
    aggs: Seq<AggV>,
    s: Seq<Pair>,
    id: u64,
)
    requires
        resolved(g, p, group, l, r, rk, f),
        keys == roots(g.nodes@[group as int].op->GroupBy_keys@),
        aggs == agg_views(g.nodes@[group as int].op->GroupBy_aggs@),
        l.wf(),
        r.wf(),
        l.fields.len() + r.fields.len() <= usize::MAX,
        pairs_in(l, r, s),
        plan_items(g, p) is None,
    ensures
        readable_as(paired(l, r, rk, s, id), keys, aggs, f, l, r, s),
{
    let x = paired(l, r, rk, s, id);
    lemma_kept_right(rk, r.fields.len());
    assert forall|i: int| 0 <= i < keys.len() implies reads(
        x,
        #[trigger] keys[i],
        f.key_cells@[i],
        l,
        r,
        s,
    ) by {
        assert(cell_named(f.key_cells@[i], plan_items(g, p), l, r, rk, keys[i]));
        lemma_place_reads(l, r, rk, s, id, keys[i], f.key_cells@[i]);
    }
    assert forall|i: int| 0 <= i < aggs.len() implies reads(
        x,
        (#[trigger] aggs[i]).col,
        f.agg_cells@[i],
        l,
        r,
        s,
    ) by {
        assert(cell_named(f.agg_cells@[i], plan_items(g, p), l, r, rk, aggs[i].col));
        lemma_place_reads(l, r, rk, s, id, aggs[i].col, f.agg_cells@[i]);
    }
}

proof fn lemma_join_step(
    g: PlanGraph,
    p: FusedShapePlan,
    group: NodeId,
    l: Batch,
    r: Batch,
    rk: Seq<usize>,
    f: FusedPlan,
    path: Seq<Labelled>,
    start: PathV,
    log: Log,
)
    requires
        plan_in(g, p, group),
        fuses(g, p, group, l, r, rk),
        resolved(g, p, group, l, r, rk, f),
        spelled_out(g, p, r, rk, path),
        l.wf(),
        r.wf(),
        l.fields.len() > 0,
        l.len <= usize::MAX,
        r.len <= usize::MAX,
        start.chunk == Some(l),
    ensures
        f.lk@ == known(l.fields, roots(g.nodes@[p.join as int].op->Join_left_keys@)),
        match (row_keys(l, f.lk@, l.len, log), row_keys(r, rk, r.len, log)) {
            (Ok(a), Ok(b)) => pairs_in(l, r, join_pairs(a, b, f.kind)) && (path_out(path, 1, start, log) matches Ok(
                v,
            ) && v.chunk == Some(paired(l, r, rk, join_pairs(a, b, f.kind), start.next))),
            _ => path_out(path, 1, start, log) is Err,
        },
{
    reveal(stepped);
    let keys = g.nodes@[p.join as int].op->Join_left_keys@;
    let names = roots(keys);
    assert forall|i: int| 0 <= i < names.len() implies index_in(l.fields, #[trigger] names[i]) == Some(
        f.lk@[i] as int,
    ) by {
        assert(key_at(l.fields, keys[i], f.lk@[i]));
    }
    lemma_all_known(l.fields, names, f.lk@);
    lemma_joined_is_paired(l, r, f.lk@, rk, f.kind, start.next, log);
    assert(path_out(path, 0, start, log) == Ok::<PathV, Query>(start));
    assert(path_out(path, 1, start, log) == stepped(path[0], start, log));
}

proof fn lemma_rows_in_len(b: Batch, at: Seq<usize>, aggs: Seq<AggV>, n: nat, log: Log)
    ensures
        rows_in(b, at, aggs, n, log) matches Ok(rows) ==> rows.len() == n,
    decreases n,
{
    if n > 0 {
        lemma_rows_in_len(b, at, aggs, (n - 1) as nat, log);
    }
}

/// The fused pass hands the group the very rows that come out of the join, the
/// filters and the projection, taken one by one. It has a question only where they
/// have one; they alone have one only for an item that nothing needs.
pub proof fn lemma_fused_rows_are_generic(
    g: PlanGraph,
    p: FusedShapePlan,
    group: NodeId,
    l: Batch,
    r: Batch,
    rk: Seq<usize>,
    f: FusedPlan,
    path: Seq<Labelled>,
    keys: Seq<Seq<char>>,
    aggs: Seq<AggV>,
    start: PathV,
    log: Log,
)
    requires
        same_work(g, p, group, l, r, rk, f, path, keys, aggs, log),
        start.chunk == Some(l),
    ensures
        match path_out(path, path.len(), start, log) {
            Err(_) => fused_out(g, f, aggs, l, r, rk, log) is Err || idle_item(g, p, l, r, rk),
            Ok(v) => match v.chunk {
                None => fused_out(g, f, aggs, l, r, rk, log) == Ok::<Seq<RowV>, Query>(Seq::empty()),
                Some(x) => unknown(x.fields, keys) is None && fused_out(g, f, aggs, l, r, rk, log)
                    == rows_in(x, known(x.fields, keys), aggs, x.len, log),
            },
        },
{
    let n = p.filters@.len();
    lemma_join_step(g, p, group, l, r, rk, f, path, start, log);
    match (row_keys(l, f.lk@, l.len, log), row_keys(r, rk, r.len, log)) {
        (Ok(a), Ok(b)) => {
            let ps = join_pairs(a, b, f.kind);
            let id = start.next;
            let t = pass_through(g, p.filters@, n, l, log);
            let s = sifted(ps, t);
            lemma_filters_path(g, p, l, r, rk, path, start, ps, id, n, log);
            assert(ps.take(ps.len() as int) =~= ps);
            lemma_fused_rows_sifted(g, f, aggs, l, r, ps, ps.len(), log);
            lemma_sifted(ps, t);
            assert(pairs_in(l, r, s)) by {
                assert forall|i: int| 0 <= i < s.len() implies (#[trigger] s[i]).0 is Some && (side(
                    s[i],
                    false,
                ) matches Some(x) ==> x < l.len) && (side(s[i], true) matches Some(x) ==> x < r.len) by {
                    let k = choose|k: int| 0 <= k < ps.len() && ps[k] == s[i];
                    assert(ps[k].0 is Some);
                    assert(side(ps[k], false) matches Some(x) ==> x < l.len);
                    assert(side(ps[k], true) matches Some(x) ==> x < r.len);
                }
            }
            assert(s.take(s.len() as int) =~= s);
            match path_out(path, 1 + n, start, log) {
                Ok(v) => {
                    match v.chunk {
                        None => {
                            if p.items is Some {
                                reveal(stepped);
                                assert(stepped(path[1 + n as int], v, log) == Ok::<PathV, Query>(v));
                            }
                            assert(s =~= Seq::empty());
                        },
                        Some(b) => {
                            if p.items is Some {
                                lemma_last_step(g, p, group, l, r, rk, f, path, keys, aggs, v, s, id, log);
                            } else {
                                lemma_plain_reads(g, p, group, l, r, rk, f, keys, aggs, s, id);
                                lemma_rows_read(b, keys, aggs, f, l, r, s, s.len(), log);
                            }
                        },
                    }
                },
                Err(_) => {},
            }
        },
        _ => {
            lemma_path_fails(path, 1, path.len(), start, log);
        },
    }
}

proof fn lemma_path_fails(path: Seq<Labelled>, n: nat, m: nat, start: PathV, log: Log)
    requires
        path_out(path, n, start, log) is Err,
        n <= m,
    ensures
        path_out(path, m, start, log) is Err,
    decreases m,
{
    if n < m {
        lemma_path_fails(path, n, (m - 1) as nat, start, log);
    }
}

proof fn lemma_last_step(
    g: PlanGraph,
    p: FusedShapePlan,
    group: NodeId,
    l: Batch,
    r: Batch,
    rk: Seq<usize>,
    f: FusedPlan,
    path: Seq<Labelled>,
    keys: Seq<Seq<char>>,
    aggs: Seq<AggV>,
    v: PathV,
    s: Seq<Pair>,
    id: u64,
    log: Log,
)
    requires
        same_work(g, p, group, l, r, rk, f, path, keys, aggs, log),
        p.items is Some,
        pairs_in(l, r, s),
        v.chunk == Some(paired(l, r, rk, s, id)),
    ensures
        match stepped(path[1 + p.filters@.len() as int], v, log) {
            Err(_) => idle_item(g, p, l, r, rk),
            Ok(w) => w.chunk matches Some(x) && unknown(x.fields, keys) is None && x.len == s.len() && rows_in(
                x,
                known(x.fields, keys),
                aggs,
                x.len,
                log,
            ) == rows_of_pairs(f, aggs, l, r, s, log),
        },
{
    reveal(stepped);
    let b = paired(l, r, rk, s, id);
    let items = g.nodes@[p.items->Some_0 as int].op->ProjectExpr_items;
    assert(plan_items(g, p) == Some(items@));
    assert(items@.len() == items.len());
    lemma_projected_reads(g, p, group, l, r, rk, f, keys, aggs, s, id, log);
    match computed(b, items@, items@.len(), log) {
        Ok((fields, columns)) => {
            let x = rebuilt(b, fields, columns);
            lemma_rows_read(x, keys, aggs, f, l, r, s, s.len(), log);
            assert(s.take(s.len() as int) =~= s);
        },
        Err(_) => {},
    }
}

/// The fused pass leaves a worker with the groups and the count of rows that the
/// join, the filters and the projection, taken one by one, leave it with.
pub proof fn lemma_fused_is_generic(
    g: PlanGraph,
    p: FusedShapePlan,
    group: NodeId,
    x: Batch,
    right: Batch,
    rk: Seq<usize>,
    f: FusedPlan,
    path: Seq<Labelled>,
    label: Seq<char>,
    keys: Seq<Seq<char>>,
    aggs: Seq<AggV>,
    w: WorkerV,
    log: Log,
)
    requires
        same_work(g, p, group, x, right, rk, f, path, keys, aggs, log),
    ensures
        match (
            worked(path, label, keys, aggs, w, x, log),
            fused_out(g, f, aggs, x, right, rk, log),
        ) {
            (Ok(v), Ok(rows)) => v.groups == grouped(w.groups, rows, aggs) && v.rows == tally(
                w.rows,
                rows.len(),
            ),
            (Err(_), Err(_)) => true,
            (Ok(_), Err(_)) => false,
            (Err(_), Ok(_)) => idle_item(g, p, x, right, rk),
        },
{
    let start = PathV { chunk: Some(x), events: Seq::empty(), next: w.next };
    lemma_fused_rows_are_generic(g, p, group, x, right, rk, f, path, keys, aggs, start, log);
    match path_out(path, path.len(), start, log) {
        Ok(v) => match v.chunk {
            Some(b) => {
                lemma_rows_in_len(b, known(b.fields, keys), aggs, b.len, log);
            },
            None => {},
        },
        Err(_) => {},
    }
}

// -------------------------------------------------------------- the workers

proof fn lemma_two_pieces(a: Seq<Labelled>, b: Seq<Labelled>, n: nat, start: PathV, log: Log)
    requires
        n <= b.len(),
    ensures
        path_out(a + b, a.len() + n, start, log) == match path_out(a, a.len(), start, log) {
            Err(q) => Err(q),
            Ok(v) => path_out(b, n, v, log),
        },
    decreases n,
{
    if n == 0 {
        lemma_first_piece(a, b, a.len(), start, log);
    } else {
        lemma_two_pieces(a, b, (n - 1) as nat, start, log);
        assert((a + b)[a.len() + n - 1] == b[n - 1]);
    }
}

proof fn lemma_first_piece(a: Seq<Labelled>, b: Seq<Labelled>, n: nat, start: PathV, log: Log)
    requires
        n <= a.len(),
    ensures
        path_out(a + b, n, start, log) == path_out(a, n, start, log),
    decreases n,
{
    if n > 0 {
        lemma_first_piece(a, b, (n - 1) as nat, start, log);
        assert((a + b)[n - 1] == a[n - 1]);
    }
}

/// A worker whose path comes in two pieces gathers, from one chunk to the next,
/// what a worker gathers that sends its chunks along the whole path, whether the
/// join and the group are taken in one pass or not.
pub proof fn lemma_fused_worker_gathers(
    g: PlanGraph,
    p: FusedShapePlan,
    group: NodeId,
    right: Batch,
    rk: Seq<usize>,
    prefix: Seq<Labelled>,
    rest: Seq<Labelled>,
    label: Seq<char>,
    keys: Seq<Seq<char>>,
    aggs: Seq<AggV>,
    was: WorkerV,
    now: WorkerV,
    bs: Seq<Batch>,
    b: Batch,
    log: Log,
)
    requires
        same_flow(g, p, group, right, rk, rest, keys, aggs),
        path_out(
            prefix,
            prefix.len(),
            PathV { chunk: Some(b), events: Seq::empty(), next: was.next },
            log,
        ) matches Ok(v) && (v.chunk matches Some(x) ==> countable(g, p, x, right, rk, log)),
        reaching(prefix + rest, keys, aggs, b, log) is Ok,
        gathers(prefix + rest, keys, aggs, was, bs, log),
        fused_fed(g, p, group, right, rk, prefix, rest, label, keys, aggs, was, now, b, log),
    ensures
        gathers(prefix + rest, keys, aggs, now, bs.push(b), log),
{
    let path = prefix + rest;
    let start = PathV { chunk: Some(b), events: Seq::empty(), next: was.next };
    let before = all_reaching(path, keys, aggs, bs, log)->Ok_0;
    let rows = reaching(path, keys, aggs, b, log)->Ok_0;
    lemma_reaching_any(path, keys, aggs, b, start, log);
    lemma_two_pieces(prefix, rest, rest.len(), start, log);
    let v = path_out(prefix, prefix.len(), start, log)->Ok_0;
    assert(bs.push(b).drop_last() =~= bs);
    assert(bs.push(b).last() == b);
    lemma_grouped_append(Groups::empty(), before, rows, aggs);
    assert(now.groups == grouped(was.groups, rows, aggs)) by {
        match v.chunk {
            None => {
                lemma_nothing_passes(rest, rest.len(), v, log);
            },
            Some(x) => {
                if fuses(g, p, group, x, right, rk) {
                    let f = choose|f: FusedPlan|
                        #[trigger] resolved(g, p, group, x, right, rk, f) && (fused_out(
                            g,
                            f,
                            aggs,
                            x,
                            right,
                            rk,
                            log,
                        ) matches Ok(s) && fused_step(was, now, v, s, aggs));
                    lemma_fused_rows_are_generic(g, p, group, x, right, rk, f, rest, keys, aggs, v, log);
                } else {
                    let again = PathV { chunk: Some(x), events: Seq::empty(), next: v.next };
                    lemma_reaching_any(rest, keys, aggs, x, v, log);
                    lemma_reaching_any(rest, keys, aggs, x, again, log);
                }
            },
        }
    }
}

proof fn lemma_nothing_passes(path: Seq<Labelled>, n: nat, v: PathV, log: Log)
    requires
        v.chunk is None,
    ensures
        path_out(path, n, v, log) == Ok::<PathV, Query>(v),
    decreases n,
{
    if n > 0 {
        reveal(stepped);
        lemma_nothing_passes(path, (n - 1) as nat, v, log);
    }
}

} // verus!
