//! The number of a chunk has no part in what is computed from it.
use vstd::prelude::*;
use crate::chunk::{gathered, Batch};
use crate::eval::{case_from, comparison, eval, eval_all, holds};
use crate::event::CtxV;
use crate::expr::Expr;
use crate::group::{items_of, rows_in, AggV};
use crate::host::{Log, Query};
use crate::join::{joined_chunk, left_part, right_part, JoinKind, Pair};
use crate::kernel::{lemma_same_kept, passing, selected};
use crate::lanes::{cells_from, formed_lane, formed_row, lane_of, predicate_lane, predicate_row, rows, Form};
use crate::rows::{key_parts, targets};
use crate::select::{filled_rows, no_blank, row_keys};
use crate::shape::{computed, picked, recast};
use crate::sink::{csv_cells, csv_lines, csv_names};
use crate::stage::{stage_out, Stage};

verus! {

/// The same chunk but for its number.
pub open spec fn twins(a: Batch, b: Batch) -> bool {
    a == (Batch { id: a.id, ..b })
}

// --------------------------------------------------------------- expressions

proof fn lemma_eval_all(args: Vec<Expr>, a: Batch, b: Batch, row: int, log: Log)
    requires
        twins(a, b),
    ensures
        eval_all(args, a, row, log) == eval_all(args, b, row, log),
    decreases args, 0nat, 0nat,
{
    assert forall|i: int| 0 <= i < args@.len() implies eval(#[trigger] args@[i], a, row, log)
        == eval(args@[i], b, row, log) by {
        assert(decreases_to!(args => args@));
        assert(decreases_to!(args@ => args@[i]));
        lemma_eval(args@[i], a, b, row, log);
    }
    assert(eval_all(args, a, row, log) =~= eval_all(args, b, row, log));
}

proof fn lemma_case(e: Expr, a: Batch, b: Batch, row: int, log: Log, k: nat)
    requires
        twins(a, b),
    ensures
        case_from(e, a, row, log, k) == case_from(e, b, row, log, k),
    decreases e, 0nat, e->branches@.len() - k,
{
    match e {
        Expr::Case { branches, default } => {
            if k >= branches@.len() {
                if let Some(d) = default {
                    lemma_eval(*d, a, b, row, log);
                }
            } else {
                lemma_holds(branches@[k as int].0, a, b, row, log);
                lemma_eval(branches@[k as int].1, a, b, row, log);
                lemma_case(e, a, b, row, log, k + 1);
            }
        },
        _ => {},
    }
}

proof fn lemma_comparison(e: Expr, a: Batch, b: Batch, row: int, log: Log)
    requires
        twins(a, b),
    ensures
        comparison(e, a, row, log) == comparison(e, b, row, log),
    decreases e, 0nat, 0nat,
{
    match e {
        Expr::Compare { left, op, right } => {
            lemma_eval(*left, a, b, row, log);
            lemma_eval(*right, a, b, row, log);
        },
        _ => {},
    }
}

proof fn lemma_eval(e: Expr, a: Batch, b: Batch, row: int, log: Log)
    requires
        twins(a, b),
    ensures
        eval(e, a, row, log) == eval(e, b, row, log),
    decreases e, 1nat, 0nat,
{
    match e {
        Expr::Compare { .. } => {
            lemma_comparison(e, a, b, row, log);
        },
        Expr::And(l, r) => {
            lemma_holds(*l, a, b, row, log);
            lemma_holds(*r, a, b, row, log);
        },
        Expr::Or(l, r) => {
            lemma_holds(*l, a, b, row, log);
            lemma_holds(*r, a, b, row, log);
        },
        Expr::Arith { left, op, right } => {
            lemma_eval(*left, a, b, row, log);
            lemma_eval(*right, a, b, row, log);
        },
        Expr::Cast { expr, ty } => {
            lemma_eval(*expr, a, b, row, log);
        },
        Expr::Func { func, args } => {
            lemma_eval_all(args, a, b, row, log);
        },
        Expr::Case { .. } => {
            lemma_case(e, a, b, row, log, 0);
        },
        _ => {},
    }
}

proof fn lemma_holds(e: Expr, a: Batch, b: Batch, row: int, log: Log)
    requires
        twins(a, b),
    ensures
        holds(e, a, row, log) == holds(e, b, row, log),
    decreases e, 2nat, 0nat,
{
    match e {
        Expr::Compare { .. } => {
            lemma_comparison(e, a, b, row, log);
        },
        Expr::And(l, r) => {
            lemma_holds(*l, a, b, row, log);
            lemma_holds(*r, a, b, row, log);
        },
        Expr::Or(l, r) => {
            lemma_holds(*l, a, b, row, log);
            lemma_holds(*r, a, b, row, log);
        },
        _ => {
            lemma_eval(e, a, b, row, log);
        },
    }
}

// ---------------------------------------------------------------------- rows

proof fn lemma_passing(preds: Seq<Expr>, a: Batch, b: Batch, row: int, log: Log)
    requires
        twins(a, b),
    ensures
        passing(preds, a, row, log) == passing(preds, b, row, log),
    decreases preds.len(),
{
    if preds.len() > 0 {
        lemma_passing(preds.drop_last(), a, b, row, log);
        lemma_holds(preds.last(), a, b, row, log);
    }
}

proof fn lemma_selected(preds: Seq<Expr>, a: Batch, b: Batch, log: Log)
    requires
        twins(a, b),
    ensures
        selected(preds, a, log) == selected(preds, b, log),
{
    let f = |row: int| passing(preds, a, row, log);
    let g = |row: int| passing(preds, b, row, log);
    assert forall|i: int| #[trigger] f(i) == g(i) by {
        lemma_passing(preds, a, b, i, log);
    }
    lemma_same_kept(f, g, a.len);
}

proof fn lemma_no_blank(a: Batch, b: Batch, at: Seq<usize>, row: int, n: nat, log: Log)
    requires
        twins(a, b),
    ensures
        no_blank(a, at, row, n, log) == no_blank(b, at, row, n, log),
    decreases n,
{
    if n > 0 {
        lemma_no_blank(a, b, at, row, (n - 1) as nat, log);
    }
}

proof fn lemma_filled_rows(a: Batch, b: Batch, names: Seq<Seq<char>>, log: Log)
    requires
        twins(a, b),
    ensures
        filled_rows(a, names, log) == filled_rows(b, names, log),
{
    let at = targets(a, names);
    let f = |row: int| no_blank(a, at, row, at.len(), log);
    let g = |row: int| no_blank(b, at, row, at.len(), log);
    assert forall|i: int| #[trigger] f(i) == g(i) by {
        lemma_no_blank(a, b, at, i, at.len(), log);
    }
    lemma_same_kept(f, g, a.len);
}

proof fn lemma_key_parts(a: Batch, b: Batch, at: Seq<usize>, row: int, n: nat, log: Log)
    requires
        twins(a, b),
    ensures
        key_parts(a, at, row, n, log) == key_parts(b, at, row, n, log),
    decreases n,
{
    if n > 0 {
        lemma_key_parts(a, b, at, row, (n - 1) as nat, log);
    }
}

proof fn lemma_row_keys(a: Batch, b: Batch, at: Seq<usize>, n: nat, log: Log)
    requires
        twins(a, b),
    ensures
        row_keys(a, at, n, log) == row_keys(b, at, n, log),
    decreases n,
{
    if n > 0 {
        lemma_row_keys(a, b, at, (n - 1) as nat, log);
        lemma_key_parts(a, b, at, n - 1, at.len(), log);
    }
}

proof fn lemma_items_of(a: Batch, b: Batch, aggs: Seq<AggV>, row: int, n: nat, log: Log)
    requires
        twins(a, b),
    ensures
        items_of(a, aggs, row, n, log) == items_of(b, aggs, row, n, log),
    decreases n,
{
    if n > 0 {
        lemma_items_of(a, b, aggs, row, (n - 1) as nat, log);
    }
}

/// A group reads the same rows of a chunk under any number.
pub proof fn lemma_rows_in(a: Batch, b: Batch, at: Seq<usize>, aggs: Seq<AggV>, n: nat, log: Log)
    requires
        twins(a, b),
    ensures
        rows_in(a, at, aggs, n, log) == rows_in(b, at, aggs, n, log),
    decreases n,
{
    if n > 0 {
        lemma_rows_in(a, b, at, aggs, (n - 1) as nat, log);
        lemma_key_parts(a, b, at, n - 1, at.len(), log);
        lemma_items_of(a, b, aggs, n - 1, aggs.len(), log);
    }
}

// ------------------------------------------------------------------- columns

proof fn lemma_cells(f: spec_fn(int) -> crate::cast::Outcome, g: spec_fn(int) -> crate::cast::Outcome, n: nat)
    requires
        forall|i: int| #[trigger] f(i) == g(i),
    ensures
        cells_from(f, n) == cells_from(g, n),
    decreases n,
{
    if n > 0 {
        lemma_cells(f, g, (n - 1) as nat);
    }
}

proof fn lemma_rows(e: Expr, a: Batch, b: Batch, log: Log)
    requires
        twins(a, b),
    ensures
        rows(e, a, log) == rows(e, b, log),
{
    let f = |i: int| eval(e, a, i, log);
    let g = |i: int| eval(e, b, i, log);
    assert forall|i: int| #[trigger] f(i) == g(i) by {
        lemma_eval(e, a, b, i, log);
    }
    lemma_cells(f, g, a.len);
}

proof fn lemma_formed(e: Expr, a: Batch, b: Batch, form: Form, log: Log)
    requires
        twins(a, b),
    ensures
        formed_lane(e, a, form, log) == formed_lane(e, b, form, log),
{
    let f = |i: int| formed_row(e, a, i, form, log);
    let g = |i: int| formed_row(e, b, i, form, log);
    assert forall|i: int| #[trigger] f(i) == g(i) by {
        lemma_eval(e, a, b, i, log);
    }
    lemma_cells(f, g, a.len);
}

proof fn lemma_predicate(e: Expr, a: Batch, b: Batch, log: Log)
    requires
        twins(a, b),
    ensures
        predicate_lane(e, a, log) == predicate_lane(e, b, log),
{
    let f = |i: int| predicate_row(e, a, i, log);
    let g = |i: int| predicate_row(e, b, i, log);
    assert forall|i: int| #[trigger] f(i) == g(i) by {
        lemma_holds(e, a, b, i, log);
    }
    lemma_cells(f, g, a.len);
}

proof fn lemma_lane(e: Expr, a: Batch, b: Batch, log: Log)
    requires
        twins(a, b),
    ensures
        lane_of(e, a, log) == lane_of(e, b, log),
    decreases e,
{
    lemma_rows(e, a, b, log);
    lemma_predicate(e, a, b, log);
    match e {
        Expr::Cast { expr, ty } => {
            lemma_lane(*expr, a, b, log);
        },
        Expr::Arith { left, op, right } => {
            lemma_lane(*left, a, b, log);
            lemma_lane(*right, a, b, log);
        },
        Expr::Func { func, args } => {
            lemma_formed(e, a, b, Form::Int, log);
            lemma_formed(e, a, b, Form::Bool, log);
            lemma_formed(e, a, b, Form::Text, log);
            if args@.len() > 0 {
                assert(decreases_to!(e => args));
                assert(decreases_to!(args => args@));
                assert(decreases_to!(args@ => args@[0]));
                lemma_lane(args@[0], a, b, log);
            }
        },
        _ => {},
    }
}

proof fn lemma_computed(a: Batch, b: Batch, items: Seq<(Expr, String)>, n: nat, log: Log)
    requires
        twins(a, b),
    ensures
        computed(a, items, n, log) == computed(b, items, n, log),
    decreases n,
{
    if n > 0 {
        lemma_computed(a, b, items, (n - 1) as nat, log);
        lemma_lane(items[n - 1].0, a, b, log);
    }
}

proof fn lemma_recast(a: Batch, b: Batch, casts: Seq<(Seq<char>, crate::value::DataType)>, n: nat, log: Log)
    requires
        twins(a, b),
    ensures
        recast(a, casts, n, log) == recast(b, casts, n, log),
    decreases n,
{
    if n > 0 {
        lemma_recast(a, b, casts, (n - 1) as nat, log);
    }
}

proof fn lemma_gathered(a: Batch, b: Batch, at: Seq<usize>)
    requires
        twins(a, b),
    ensures
        twins(gathered(a, at), gathered(b, at)),
        twins(picked(a, at), picked(b, at)),
{
    assert(gathered(a, at).columns =~= gathered(b, at).columns);
    assert(picked(a, at).fields =~= picked(b, at).fields);
    assert(picked(a, at).columns =~= picked(b, at).columns);
}

// --------------------------------------------------------------------- joins

proof fn lemma_left_part(
    a: Batch,
    b: Batch,
    r: Batch,
    lk: Seq<usize>,
    rk: Seq<usize>,
    pairs: Seq<Pair>,
    n: nat,
    log: Log,
)
    requires
        twins(a, b),
    ensures
        left_part(a, r, lk, rk, pairs, n, log) == left_part(b, r, lk, rk, pairs, n, log),
    decreases n,
{
    if n > 0 {
        lemma_left_part(a, b, r, lk, rk, pairs, (n - 1) as nat, log);
    }
}

proof fn lemma_right_part(a: Batch, b: Batch, r: Batch, rk: Seq<usize>, pairs: Seq<Pair>, n: nat)
    requires
        twins(a, b),
    ensures
        right_part(a, r, rk, pairs, n) == right_part(b, r, rk, pairs, n),
    decreases n,
{
    if n > 0 {
        lemma_right_part(a, b, r, rk, pairs, (n - 1) as nat);
    }
}

/// Two chunks, or the same question.
spec fn twin_out(x: Result<Batch, Query>, y: Result<Batch, Query>) -> bool {
    match (x, y) {
        (Ok(a), Ok(b)) => twins(a, b),
        (Err(p), Err(q)) => p == q,
        _ => false,
    }
}

proof fn lemma_joined(
    a: Batch,
    b: Batch,
    r: Batch,
    lk: Seq<usize>,
    rk: Seq<usize>,
    kind: JoinKind,
    i: u64,
    j: u64,
    log: Log,
)
    requires
        twins(a, b),
    ensures
        twin_out(joined_chunk(a, r, lk, rk, kind, i, log), joined_chunk(b, r, lk, rk, kind, j, log)),
{
    lemma_row_keys(a, b, lk, a.len, log);
    let lkeys = row_keys(a, lk, a.len, log);
    let rkeys = row_keys(r, rk, r.len, log);
    if lkeys is Ok && rkeys is Ok {
        let pairs = crate::join::join_pairs(lkeys->Ok_0, rkeys->Ok_0, kind);
        lemma_left_part(a, b, r, lk, rk, pairs, a.fields.len(), log);
        lemma_right_part(a, b, r, rk, pairs, r.fields.len());
    }
}

// --------------------------------------------------------------------- lines

proof fn lemma_csv_cells(a: Batch, b: Batch, row: int, n: nat, sep: char, log: Log)
    requires
        twins(a, b),
    ensures
        csv_cells(a, row, n, sep, log) == csv_cells(b, row, n, sep, log),
    decreases n,
{
    if n > 0 {
        lemma_csv_cells(a, b, row, (n - 1) as nat, sep, log);
    }
}

/// A chunk is written as the same lines under any number.
pub proof fn lemma_csv_lines(a: Batch, b: Batch, n: nat, sep: char, log: Log)
    requires
        twins(a, b),
    ensures
        csv_lines(a, n, sep, log) == csv_lines(b, n, sep, log),
    decreases n,
{
    if n > 0 {
        lemma_csv_lines(a, b, (n - 1) as nat, sep, log);
        lemma_csv_cells(a, b, n - 1, a.columns.len(), sep, log);
    }
}

/// A chunk calls for the same header line under any number.
pub proof fn lemma_csv_names(a: Batch, b: Batch, n: nat, sep: char)
    requires
        twins(a, b),
    ensures
        csv_names(a, n, sep) == csv_names(b, n, sep),
    decreases n,
{
    if n > 0 {
        lemma_csv_names(a, b, (n - 1) as nat, sep);
    }
}

// --------------------------------------------------------------------- steps

/// What a step hands on does not hang on the number of the chunk, nor on the
/// context: the same chunk but for its number, or the same question.
pub proof fn lemma_step_renumbered(s: Stage, a: Batch, b: Batch, c: CtxV, d: CtxV, log: Log)
    requires
        twins(a, b),
    ensures
        match (stage_out(s, a, c, log), stage_out(s, b, d, log)) {
            (Ok((x, _)), Ok((y, _))) => x.len() == y.len() && (x.len() > 0 ==> twins(x[0], y[0])),
            (Err(p), Err(q)) => p == q,
            _ => false,
        },
{
    assert forall|at: Seq<usize>|
        #![trigger gathered(a, at)]
        #![trigger picked(a, at)]
        twins(gathered(a, at), gathered(b, at)) && twins(picked(a, at), picked(b, at)) by {
        lemma_gathered(a, b, at);
    }
    match s {
        Stage::Filter(f) => {
            lemma_selected(f.preds@, a, b, log);
        },
        Stage::FilterProject(f) => {
            lemma_selected(f.preds@, a, b, log);
            if let Ok(keep) = selected(f.preds@, a, log) {
                if let Some(names) = f.fields {
                    lemma_gathered(a, b, keep);
                    lemma_gathered(
                        gathered(a, keep),
                        gathered(b, keep),
                        crate::rows::known(a.fields, crate::value::texts(names@)),
                    );
                }
            }
        },
        Stage::DropNa(f) => {
            lemma_filled_rows(a, b, crate::value::texts(f.cols@), log);
        },
        Stage::ProjectExpr(f) => {
            lemma_computed(a, b, f.items@, f.items@.len(), log);
        },
        Stage::Cast(f) => {
            let casts = crate::shape::cast_views(f.casts@);
            lemma_recast(a, b, casts, casts.len(), log);
        },
        Stage::Broadcast(p) => {
            lemma_joined(
                a,
                b,
                p.right@,
                crate::rows::known(a.fields, crate::value::texts(p.left_keys@)),
                p.rk@,
                p.kind,
                c.next_chunk_id,
                d.next_chunk_id,
                log,
            );
        },
        _ => {},
    }
}

} // verus!
