//! Cutting rows into other chunks changes neither what a group nor what a sort
//! puts out.
use vstd::prelude::*;
use crate::chunk::{batches, gathered, index_in, lemma_index_in, Batch, FieldV};
use crate::compare::{lemma_text_order_equal, lemma_text_order_reversed, text_order};
use crate::concat::{alike, lemma_stacked_cells, lemma_stacked_wf, stack, stacked, stacked_cells, stacked_len};
use crate::division::{all_reaching, lemma_grouped_append, reaching};
use crate::event::CtxV;
use crate::float::Rank;
use crate::group::{agg_lanes, group_chunk, group_views, grouped, item_of, items_of, lemma_place_is, row_in, rows_in, AggV, GroupBy, Groups, RowV};
use crate::host::{Log, Query};
use crate::rows::{ascending, key_parts, known, lemma_known_within, unknown};
use crate::sort::{key_views, keys_fit, lemma_sorted_once, orderable, sort_ends, sort_keys, sort_warned, sorted_rows, Sort};
use crate::stage::{path_out, Labelled, PathV};
use crate::tail::{bearing, lemma_bearing};
use crate::value::texts;

verus! {

/// Chunks of one schema.
pub open spec fn uniform(bs: Seq<Batch>) -> bool {
    &&& stack(bs)
    &&& bs.len() > 0
    &&& bs[0].columns.len() > 0
    &&& bs[0].fields.len() <= usize::MAX
    &&& forall|i: int| 0 <= i < bs.len() ==> (#[trigger] bs[i]).fields == bs[0].fields
}

/// The same rows of the same schema, cut into chunks in two ways.
pub open spec fn same_rows(bs: Seq<Batch>, cs: Seq<Batch>) -> bool {
    uniform(bs) && uniform(cs) && stacked(bs) == stacked(cs)
}

// ------------------------------------------------------------------ the rows

/// A row of a chunk stands in the stack behind those of the chunks before it.
proof fn lemma_stacked_at(bs: Seq<Batch>, col: int, n: nat, k: int, i: int)
    requires
        stack(bs),
        0 <= k < n <= bs.len(),
        0 <= col < bs[0].columns.len(),
        0 <= i < bs[k].len,
    ensures
        stacked_len(bs, k as nat) + i < stacked_len(bs, n),
        stacked_cells(bs, col, n)[stacked_len(bs, k as nat) + i] == bs[k].columns[col].cells[i],
    decreases n,
{
    lemma_stacked_cells(bs, col, n);
    lemma_stacked_cells(bs, col, (n - 1) as nat);
    let b = bs[n - 1];
    assert(b.wf());
    assert(alike(bs[0], b));
    assert(b.columns[col].cells.len() == b.len);
    if k < n - 1 {
        lemma_stacked_at(bs, col, (n - 1) as nat, k, i);
    }
}

/// A group reads the same of a row in the stack as of the row in its chunk.
proof fn lemma_row_stacked(bs: Seq<Batch>, at: Seq<usize>, aggs: Seq<AggV>, k: int, i: int, log: Log)
    requires
        uniform(bs),
        0 <= k < bs.len(),
        0 <= i < bs[k].len,
        forall|c: int| 0 <= c < at.len() ==> (#[trigger] at[c]) < bs[0].fields.len(),
    ensures
        row_in(stacked(bs), at, aggs, stacked_len(bs, k as nat) + i, log) == row_in(
            bs[k],
            at,
            aggs,
            i,
            log,
        ),
{
    lemma_parts_stacked(bs, at, k, i, at.len(), log);
    lemma_items_stacked(bs, aggs, k, i, aggs.len(), log);
}

proof fn lemma_parts_stacked(bs: Seq<Batch>, at: Seq<usize>, k: int, i: int, n: nat, log: Log)
    requires
        uniform(bs),
        0 <= k < bs.len(),
        0 <= i < bs[k].len,
        n <= at.len(),
        forall|c: int| 0 <= c < at.len() ==> (#[trigger] at[c]) < bs[0].fields.len(),
    ensures
        key_parts(stacked(bs), at, stacked_len(bs, k as nat) + i, n, log) == key_parts(
            bs[k],
            at,
            i,
            n,
            log,
        ),
    decreases n,
{
    if n > 0 {
        lemma_parts_stacked(bs, at, k, i, (n - 1) as nat, log);
        assert(bs[0].wf());
        assert(at[n - 1] < bs[0].fields.len());
        lemma_stacked_at(bs, at[n - 1] as int, bs.len(), k, i);
    }
}

proof fn lemma_items_stacked(bs: Seq<Batch>, aggs: Seq<AggV>, k: int, i: int, n: nat, log: Log)
    requires
        uniform(bs),
        0 <= k < bs.len(),
        0 <= i < bs[k].len,
        n <= aggs.len(),
    ensures
        items_of(stacked(bs), aggs, stacked_len(bs, k as nat) + i, n, log) == items_of(
            bs[k],
            aggs,
            i,
            n,
            log,
        ),
    decreases n,
{
    if n > 0 {
        lemma_items_stacked(bs, aggs, k, i, (n - 1) as nat, log);
        assert(bs[0].wf() && bs[k].fields == bs[0].fields);
        lemma_index_in(bs[0].fields, aggs[n - 1].col);
        if let Some(c) = index_in(bs[0].fields, aggs[n - 1].col) {
            lemma_stacked_at(bs, c, bs.len(), k, i);
        }
        assert(item_of(stacked(bs), aggs[n - 1], stacked_len(bs, k as nat) + i, log) == item_of(
            bs[k],
            aggs[n - 1],
            i,
            log,
        ));
    }
}

/// The outcome of two runs of rows, one behind the other.
spec fn rows_then(a: Result<Seq<RowV>, Query>, b: Result<Seq<RowV>, Query>) -> Result<Seq<RowV>, Query> {
    match a {
        Err(q) => Err(q),
        Ok(s) => match b {
            Err(q) => Err(q),
            Ok(t) => Ok(s + t),
        },
    }
}

proof fn lemma_rows_stacked(bs: Seq<Batch>, at: Seq<usize>, aggs: Seq<AggV>, k: int, m: nat, log: Log)
    requires
        uniform(bs),
        0 <= k < bs.len(),
        m <= bs[k].len,
        forall|c: int| 0 <= c < at.len() ==> (#[trigger] at[c]) < bs[0].fields.len(),
    ensures
        rows_in(stacked(bs), at, aggs, stacked_len(bs, k as nat) + m, log) == rows_then(
            rows_in(stacked(bs), at, aggs, stacked_len(bs, k as nat), log),
            rows_in(bs[k], at, aggs, m, log),
        ),
    decreases m,
{
    let a = rows_in(stacked(bs), at, aggs, stacked_len(bs, k as nat), log);
    if m == 0 {
        if let Ok(s) = a {
            assert(s + Seq::<RowV>::empty() =~= s);
        }
    } else {
        lemma_rows_stacked(bs, at, aggs, k, (m - 1) as nat, log);
        lemma_row_stacked(bs, at, aggs, k, m - 1, log);
        if let Ok(s) = a {
            if let Ok(t) = rows_in(bs[k], at, aggs, (m - 1) as nat, log) {
                if let Ok(r) = row_in(bs[k], at, aggs, m - 1, log) {
                    assert((s + t).push(r) =~= s + t.push(r));
                }
            }
        }
    }
}

/// No steps: the chunks reach the group as they are.
pub open spec fn no_steps() -> Seq<Labelled> {
    Seq::empty()
}

proof fn lemma_chunks_stacked(bs: Seq<Batch>, keys: Seq<Seq<char>>, aggs: Seq<AggV>, n: nat, log: Log)
    requires
        uniform(bs),
        n <= bs.len(),
    ensures
        all_reaching(no_steps(), keys, aggs, bs.take(n as int), log) == if unknown(
            bs[0].fields,
            keys,
        ) is Some {
            Ok::<Seq<RowV>, Query>(Seq::empty())
        } else {
            rows_in(
                stacked(bs),
                known(bs[0].fields, keys),
                aggs,
                stacked_len(bs, n),
                log,
            )
        },
    decreases n,
{
    let now = bs.take(n as int);
    if n == 0 {
        assert(now =~= Seq::empty());
    } else {
        lemma_chunks_stacked(bs, keys, aggs, (n - 1) as nat, log);
        assert(now.drop_last() =~= bs.take(n - 1));
        assert(now.last() == bs[n - 1]);
        let b = bs[n - 1];
        assert(b.fields == bs[0].fields);
        let start = PathV { chunk: Some(b), events: Seq::empty(), next: 0 };
        assert(path_out(no_steps(), 0, start, log) == Ok::<PathV, Query>(start));
        lemma_known_within(bs[0].fields, keys);
        if unknown(bs[0].fields, keys) is None {
            lemma_rows_stacked(bs, known(bs[0].fields, keys), aggs, n - 1, b.len, log);
        } else {
            assert(Seq::<RowV>::empty() + Seq::<RowV>::empty() =~= Seq::<RowV>::empty());
        }
    }
}

/// The rows that a group reads of chunks do not hang on how the rows are cut into
/// chunks.
pub proof fn lemma_rows_any_cut(bs: Seq<Batch>, cs: Seq<Batch>, keys: Seq<Seq<char>>, aggs: Seq<AggV>, log: Log)
    requires
        same_rows(bs, cs),
    ensures
        all_reaching(no_steps(), keys, aggs, bs, log) == all_reaching(
            no_steps(),
            keys,
            aggs,
            cs,
            log,
        ),
{
    lemma_chunks_stacked(bs, keys, aggs, bs.len(), log);
    lemma_chunks_stacked(cs, keys, aggs, cs.len(), log);
    assert(bs.take(bs.len() as int) =~= bs);
    assert(cs.take(cs.len() as int) =~= cs);
    lemma_stacked_wf(bs);
    lemma_stacked_wf(cs);
    assert(stacked(bs).fields == stacked(cs).fields);
}

// ---------------------------------------------------------------- the groups

/// There is one way only to put texts in ascending order.
pub proof fn lemma_ascending_once(x: Seq<Seq<char>>, y: Seq<Seq<char>>)
    requires
        ascending(x),
        ascending(y),
        forall|k: Seq<char>| x.contains(k) == y.contains(k),
    ensures
        x == y,
    decreases x.len(),
{
    if x.len() == 0 {
        if y.len() > 0 {
            assert(y.contains(y[0]));
        }
        assert(x =~= y);
    } else {
        let a = x[x.len() - 1];
        assert(x.contains(a));
        let j = choose|j: int| 0 <= j < y.len() && y[j] == a;
        let b = y[y.len() - 1];
        assert(y.contains(b));
        let i = choose|i: int| 0 <= i < x.len() && x[i] == b;
        lemma_text_order_equal(a, b);
        lemma_text_order_reversed(a, b);
        if j < y.len() - 1 {
            assert(text_order(y[j], y[y.len() - 1]) == Rank::Less);
        }
        if i < x.len() - 1 {
            assert(text_order(x[i], x[x.len() - 1]) == Rank::Less);
        }
        assert(a == b);
        let (u, v) = (x.drop_last(), y.drop_last());
        assert forall|k: Seq<char>| u.contains(k) == v.contains(k) by {
            if u.contains(k) {
                let p = choose|p: int| 0 <= p < u.len() && u[p] == k;
                assert(x[p] == k);
                assert(x.contains(k));
                let q = choose|q: int| 0 <= q < y.len() && y[q] == k;
                assert(text_order(x[p], x[x.len() - 1]) == Rank::Less);
                lemma_text_order_equal(k, a);
                assert(v[q] == k);
            }
            if v.contains(k) {
                let p = choose|p: int| 0 <= p < v.len() && v[p] == k;
                assert(y[p] == k);
                assert(y.contains(k));
                let q = choose|q: int| 0 <= q < x.len() && x[q] == k;
                assert(text_order(y[p], y[y.len() - 1]) == Rank::Less);
                lemma_text_order_equal(k, b);
                assert(u[q] == k);
            }
        }
        assert forall|p: int, q: int| 0 <= p < q < u.len() implies text_order(
            #[trigger] u[p],
            #[trigger] u[q],
        ) == Rank::Less by {
            assert(text_order(x[p], x[q]) == Rank::Less);
        }
        assert forall|p: int, q: int| 0 <= p < q < v.len() implies text_order(
            #[trigger] v[p],
            #[trigger] v[q],
        ) == Rank::Less by {
            assert(text_order(y[p], y[q]) == Rank::Less);
        }
        lemma_ascending_once(u, v);
        assert(x =~= u.push(a));
        assert(y =~= v.push(b));
    }
}

/// Two groups that hold the same groups hold them in the same order.
pub proof fn lemma_same_order(a: GroupBy, b: GroupBy)
    requires
        a.wf(),
        b.wf(),
        a.groups() == b.groups(),
    ensures
        group_views(a.table.states@) == group_views(b.table.states@),
{
    let (x, y) = (a.table.order(), b.table.order());
    assert forall|k: Seq<char>| x.contains(k) == y.contains(k) by {
        assert(a.table.view().dom().contains(k) == x.contains(k));
        assert(b.table.view().dom().contains(k) == y.contains(k));
    }
    lemma_ascending_once(x, y);
    let (s, t) = (group_views(a.table.states@), group_views(b.table.states@));
    assert(x.len() == a.table.keys@.len() && y.len() == b.table.keys@.len());
    assert forall|i: int| 0 <= i < s.len() implies s[i] == #[trigger] t[i] by {
        lemma_place_is(x, i);
        lemma_place_is(y, i);
        assert(x.contains(x[i]));
        assert(a.groups()[x[i]] == s[i]);
        assert(b.groups()[y[i]] == t[i]);
    }
    assert(s =~= t);
}

/// The group holds the groups of the rows of these chunks.
pub open spec fn holds_groups(a: GroupBy, bs: Seq<Batch>, log: Log) -> bool {
    all_reaching(no_steps(), texts(a.keys@), a.aggs_view(), bs, log) matches Ok(rows) && a.groups()
        == grouped(Groups::empty(), rows, a.aggs_view())
}

/// A group that is handed one chunk more (see [`GroupBy::process`]) holds the groups
/// of one chunk more.
pub proof fn lemma_holds_more(a: GroupBy, b: GroupBy, bs: Seq<Batch>, c: Batch, log: Log)
    requires
        holds_groups(a, bs, log),
        texts(a.keys@) == texts(b.keys@),
        a.aggs_view() == b.aggs_view(),
        match unknown(c.fields, texts(a.keys@)) {
            Some(_) => b.groups() == a.groups(),
            None => rows_in(
                c,
                known(c.fields, texts(a.keys@)),
                a.aggs_view(),
                c.len,
                log,
            ) matches Ok(rows) && b.groups() == grouped(a.groups(), rows, a.aggs_view()),
        },
    ensures
        holds_groups(b, bs.push(c), log),
{
    let (keys, aggs) = (texts(a.keys@), a.aggs_view());
    let before = all_reaching(no_steps(), keys, aggs, bs, log)->Ok_0;
    let start = PathV { chunk: Some(c), events: Seq::empty(), next: 0 };
    assert(path_out(no_steps(), 0, start, log) == Ok::<PathV, Query>(start));
    assert(bs.push(c).drop_last() =~= bs);
    assert(bs.push(c).last() == c);
    let rows = reaching(no_steps(), keys, aggs, c, log)->Ok_0;
    lemma_grouped_append(Groups::empty(), before, rows, aggs);
}

/// Another cut of the same rows into chunks gives the same group chunk: with the
/// groups of either cut, the rows put out are the same, in the same order.
pub proof fn lemma_group_any_cut(a: GroupBy, b: GroupBy, bs: Seq<Batch>, cs: Seq<Batch>, id: u64, log: Log)
    requires
        a.wf(),
        b.wf(),
        texts(a.keys@) == texts(b.keys@),
        a.aggs_view() == b.aggs_view(),
        same_rows(bs, cs),
        holds_groups(a, bs, log),
        holds_groups(b, cs, log),
    ensures
        ({
            let (x, y) = (group_views(a.table.states@), group_views(b.table.states@));
            let (p, q) = (
                agg_lanes(x, a.aggs_view(), a.aggs@.len(), log),
                agg_lanes(y, b.aggs_view(), b.aggs@.len(), log),
            );
            p == q && (p matches Ok(ls) ==> group_chunk(texts(a.keys@), a.aggs_view(), x, ls, id)
                == group_chunk(texts(b.keys@), b.aggs_view(), y, ls, id))
        }),
{
    lemma_rows_any_cut(bs, cs, texts(a.keys@), a.aggs_view(), log);
    lemma_same_order(a, b);
    assert(a.aggs_view().len() == a.aggs@.len());
    assert(b.aggs_view().len() == b.aggs@.len());
}

// ------------------------------------------------------------------ the sort

proof fn lemma_bearing_cells(bs: Seq<Batch>, col: int)
    requires
        stack(bs),
        bs.len() > 0,
        0 <= col < bs[0].columns.len(),
    ensures
        stacked_cells(bearing(bs), col, bearing(bs).len()) == stacked_cells(bs, col, bs.len()),
    decreases bs.len(),
{
    let b = bs[bs.len() - 1];
    assert(b.wf() && alike(bs[0], b));
    assert(b.columns[col].cells.len() == b.len);
    let up = bs.drop_last();
    lemma_cells_prefix(bs, up, col, up.len());
    if up.len() == 0 {
        assert(bearing(up) =~= Seq::empty());
        assert(stacked_cells(bearing(up), col, 0) =~= Seq::empty());
        assert(stacked_cells(up, col, 0) =~= Seq::empty());
    } else {
        assert forall|i: int| 0 <= i < up.len() implies (#[trigger] up[i]).wf() && alike(up[0], up[i]) by {
            assert(up[i] == bs[i]);
            assert(bs[i].wf() && alike(bs[0], bs[i]));
        }
        lemma_bearing_cells(up, col);
    }
    let old = bearing(up);
    if b.len == 0 {
        assert(stacked_cells(up, col, up.len()) + b.columns[col].cells =~= stacked_cells(
            up,
            col,
            up.len(),
        ));
    } else {
        let new = old.push(b);
        lemma_cells_prefix(new, old, col, old.len());
        assert(new[old.len() as int] == b);
    }
}

proof fn lemma_cells_prefix(bs: Seq<Batch>, up: Seq<Batch>, col: int, n: nat)
    requires
        n <= up.len() <= bs.len(),
        forall|i: int| 0 <= i < up.len() ==> (#[trigger] up[i]) == bs[i],
    ensures
        stacked_cells(bs, col, n) == stacked_cells(up, col, n),
    decreases n,
{
    if n > 0 {
        lemma_cells_prefix(bs, up, col, (n - 1) as nat);
        assert(up[n - 1] == bs[n - 1]);
    }
}

proof fn lemma_bearing_member(bs: Seq<Batch>)
    ensures
        forall|i: int| 0 <= i < bearing(bs).len() ==> bs.contains(#[trigger] bearing(bs)[i]),
    decreases bs.len(),
{
    if bs.len() > 0 {
        let up = bs.drop_last();
        lemma_bearing_member(up);
        let (old, new) = (bearing(up), bearing(bs));
        assert forall|i: int| 0 <= i < new.len() implies bs.contains(#[trigger] new[i]) by {
            if i < old.len() {
                assert(new[i] == old[i]);
                let k = choose|k: int| 0 <= k < up.len() && up[k] == old[i];
                assert(bs[k] == new[i]);
            } else {
                assert(bs[bs.len() - 1] == new[i]);
            }
        }
    }
}

/// Letting empty chunks go changes nothing of the rows.
proof fn lemma_bearing_stacked(bs: Seq<Batch>)
    requires
        uniform(bs),
        bearing(bs).len() > 0,
    ensures
        stacked(bearing(bs)) == stacked(bs),
{
    let held = bearing(bs);
    lemma_bearing(bs);
    lemma_bearing_member(bs);
    let k = choose|k: int| 0 <= k < bs.len() && bs[k] == held[0];
    assert(bs.contains(held[0]));
    assert(bs[k].fields == bs[0].fields);
    let (x, y) = (stacked(held), stacked(bs));
    assert forall|i: int| 0 <= i < y.columns.len() implies (#[trigger] x.columns[i]) == y.columns[i] by {
        lemma_bearing_cells(bs, i);
        assert(bs[0].columns[i].dtype == held[0].columns[i].dtype);
    }
    assert(x.columns =~= y.columns);
}

proof fn lemma_bearing_none(bs: Seq<Batch>)
    ensures
        bearing(bs).len() == 0 <==> stacked_len(bs, bs.len()) == 0,
    decreases bs.len(),
{
    if bs.len() > 0 {
        let up = bs.drop_last();
        lemma_bearing_none(up);
        lemma_len_prefix(bs, up, up.len());
    }
}

proof fn lemma_len_prefix(bs: Seq<Batch>, up: Seq<Batch>, n: nat)
    requires
        n <= up.len() <= bs.len(),
        forall|i: int| 0 <= i < up.len() ==> (#[trigger] up[i]) == bs[i],
    ensures
        stacked_len(bs, n) == stacked_len(up, n),
    decreases n,
{
    if n > 0 {
        lemma_len_prefix(bs, up, (n - 1) as nat);
        assert(up[n - 1] == bs[n - 1]);
    }
}

proof fn lemma_sort_keys_fit(fields: Seq<FieldV>, keys: Seq<(Seq<char>, bool)>)
    requires
        fields.len() <= usize::MAX,
    ensures
        forall|i: int|
            0 <= i < sort_keys(fields, keys).len() ==> (#[trigger] sort_keys(fields, keys)[i]).0
                < fields.len(),
    decreases keys.len(),
{
    if keys.len() > 0 {
        lemma_sort_keys_fit(fields, keys.drop_last());
        lemma_index_in(fields, keys.last().0);
        let (up, now) = (sort_keys(fields, keys.drop_last()), sort_keys(fields, keys));
        assert forall|i: int| 0 <= i < now.len() implies (#[trigger] now[i]).0 < fields.len() by {
            if i < up.len() {
                assert(now[i] == up[i]);
            }
        }
    }
}

/// Another cut of the same rows into chunks gives the same sorted rows. A sort
/// holds the chunks that have rows; either cut has some or neither has.
pub proof fn lemma_sort_any_cut(
    bs: Seq<Batch>,
    cs: Seq<Batch>,
    keys: Seq<(Seq<char>, bool)>,
    x: Seq<usize>,
    y: Seq<usize>,
)
    requires
        same_rows(bs, cs),
        stacked(bs).len <= usize::MAX,
        orderable(
            stacked(bs).columns,
            sort_keys(stacked(bs).fields, keys),
            stacked(bs).len as int,
        ),
        bearing(bs).len() > 0 ==> sorted_rows(
            stacked(bearing(bs)),
            sort_keys(stacked(bearing(bs)).fields, keys),
            x,
        ),
        bearing(cs).len() > 0 ==> sorted_rows(
            stacked(bearing(cs)),
            sort_keys(stacked(bearing(cs)).fields, keys),
            y,
        ),
    ensures
        bearing(bs).len() == 0 <==> bearing(cs).len() == 0,
        bearing(bs).len() > 0 ==> gathered(stacked(bearing(bs)), x) == gathered(
            stacked(bearing(cs)),
            y,
        ),
{
    lemma_bearing_none(bs);
    lemma_bearing_none(cs);
    lemma_stacked_wf(bs);
    lemma_stacked_wf(cs);
    assert(stacked(bs).columns.len() == stacked(cs).columns.len());
    if bearing(bs).len() > 0 {
        lemma_bearing_stacked(bs);
        lemma_bearing_stacked(cs);
        let all = stacked(bs);
        let ks = sort_keys(all.fields, keys);
        lemma_sort_keys_fit(all.fields, keys);
        assert(keys_fit(all, ks));
        lemma_sorted_once(all, ks, x, y);
    }
}

/// What a sort promises. Handed chunks in any cut, it puts out one chunk with
/// every row once, in the order of the keys and rows of equal keys as they came;
/// without rows it puts out nothing. Another cut puts out the same, and says the
/// same of missing keys. A second end puts out nothing more.
pub proof fn lemma_sort_promises(
    a: Sort,
    b: Sort,
    bs: Seq<Batch>,
    cs: Seq<Batch>,
    c: CtxV,
    xs: Seq<Batch>,
    za: Sort,
    dx: CtxV,
    ys: Seq<Batch>,
    zb: Sort,
    dy: CtxV,
    more: Seq<Batch>,
    zz: Sort,
    dz: CtxV,
)
    requires
        key_views(a.keys@) == key_views(b.keys@),
        !a.emitted && batches(a.buf@) == bearing(bs),
        !b.emitted && batches(b.buf@) == bearing(cs),
        same_rows(bs, cs),
        stacked(bs).len <= usize::MAX,
        orderable(
            stacked(bs).columns,
            sort_keys(stacked(bs).fields, key_views(a.keys@)),
            stacked(bs).len as int,
        ),
        sort_ends(a, c, xs, za, dx),
        sort_ends(b, c, ys, zb, dy),
        sort_ends(za, dx, more, zz, dz),
    ensures
        xs == ys,
        dx == dy,
        stacked(bs).len == 0 ==> xs.len() == 0 && dx == c,
        stacked(bs).len > 0 ==> xs.len() == 1 && exists|rows: Seq<usize>|
            #![trigger gathered(stacked(bs), rows)]
            sorted_rows(stacked(bs), sort_keys(stacked(bs).fields, key_views(a.keys@)), rows)
                && xs[0] == (Batch {
                id: sort_warned(c, stacked(bs).fields, key_views(a.keys@)).next_chunk_id,
                ..gathered(stacked(bs), rows)
            }),
        more.len() == 0 && zz == za && dz == dx,
{
    let keys = key_views(a.keys@);
    lemma_bearing_none(bs);
    lemma_bearing_none(cs);
    lemma_stacked_wf(bs);
    lemma_stacked_wf(cs);
    assert(batches(a.buf@).len() == a.buf@.len());
    assert(batches(b.buf@).len() == b.buf@.len());
    if bearing(bs).len() > 0 {
        lemma_bearing_stacked(bs);
        lemma_bearing_stacked(cs);
        let all = stacked(bs);
        let ks = sort_keys(all.fields, keys);
        lemma_sort_keys_fit(all.fields, keys);
        let x = choose|rows: Seq<usize>|
            #![trigger sorted_rows(all, ks, rows)]
            sorted_rows(all, ks, rows) && xs[0] == (Batch {
                id: sort_warned(c, all.fields, keys).next_chunk_id,
                ..gathered(all, rows)
            });
        let y = choose|rows: Seq<usize>|
            #![trigger sorted_rows(all, ks, rows)]
            sorted_rows(all, ks, rows) && ys[0] == (Batch {
                id: sort_warned(c, all.fields, keys).next_chunk_id,
                ..gathered(all, rows)
            });
        assert(keys_fit(all, ks));
        lemma_sorted_once(all, ks, x, y);
        assert(xs =~= ys);
    } else {
        assert(xs =~= ys);
    }
}

} // verus!
