//! What a group promises: its counts add up to the rows that it was handed.
use vstd::prelude::*;
use crate::chunk::{Batch, Lane};
use crate::cuts::{holds_groups, lemma_group_any_cut, no_steps, same_rows};
use crate::division::{all_reaching, lemma_head, tallied};
use crate::event::CtxV;
use crate::group::{agg_lanes, group_chunk, group_ends, group_views, grouped, has_key, lemma_place_is, rows_in, AggV, GroupBy, Groups, RowV};
use crate::host::{Log, Query};
use crate::rows::{ascending, known, unknown};
use crate::stage::{path_out, PathV};
use crate::value::{texts, Datum};

verus! {

/// The sum of integers.
pub open spec fn total(ns: Seq<int>) -> int
    decreases ns.len(),
{
    if ns.len() == 0 {
        0
    } else {
        total(ns.drop_last()) + ns.last()
    }
}

/// The sum of a column of integers.
pub open spec fn summed(l: Lane) -> int {
    total(
        Seq::new(
            l.cells.len(),
            |i: int|
                match l.cells[i] {
                    Datum::I64(n) => n as int,
                    _ => 0,
                },
        ),
    )
}

/// How many rows of these chunks have the keys.
pub open spec fn rows_fed(bs: Seq<Batch>, keys: Seq<Seq<char>>) -> nat
    decreases bs.len(),
{
    if bs.len() == 0 {
        0
    } else {
        rows_fed(bs.drop_last(), keys) + if unknown(bs.last().fields, keys) is Some {
            0
        } else {
            bs.last().len
        }
    }
}

proof fn lemma_total_zero(ns: Seq<int>)
    requires
        forall|i: int| 0 <= i < ns.len() ==> (#[trigger] ns[i]) == 0,
    ensures
        total(ns) == 0,
    decreases ns.len(),
{
    if ns.len() > 0 {
        lemma_total_zero(ns.drop_last());
    }
}

proof fn lemma_total_same(a: Seq<int>, b: Seq<int>)
    requires
        a.len() == b.len(),
        forall|i: int| 0 <= i < a.len() ==> #[trigger] a[i] == #[trigger] b[i],
    ensures
        total(a) == total(b),
{
    assert(a =~= b);
}

proof fn lemma_total_one_more(a: Seq<int>, b: Seq<int>, p: int)
    requires
        a.len() == b.len(),
        0 <= p < a.len(),
        b[p] == a[p] + 1,
        forall|i: int| 0 <= i < a.len() && i != p ==> #[trigger] a[i] == #[trigger] b[i],
    ensures
        total(b) == total(a) + 1,
    decreases a.len(),
{
    let (u, v) = (a.drop_last(), b.drop_last());
    if p == a.len() - 1 {
        assert forall|i: int| 0 <= i < u.len() implies #[trigger] u[i] == #[trigger] v[i] by {
            assert(a[i] == b[i]);
        }
        lemma_total_same(u, v);
    } else {
        assert forall|i: int| 0 <= i < u.len() && i != p implies #[trigger] u[i]
            == #[trigger] v[i] by {
            assert(a[i] == b[i]);
        }
        assert(a[a.len() - 1] == b[a.len() - 1]);
        lemma_total_one_more(u, v, p);
    }
}

spec fn tallies(rows: Seq<RowV>, keys: Seq<Seq<char>>) -> Seq<int> {
    Seq::new(keys.len(), |i: int| tallied(rows, keys[i]))
}

proof fn lemma_tallied_within(rows: Seq<RowV>, key: Seq<char>)
    ensures
        0 <= tallied(rows, key) <= rows.len(),
    decreases rows.len(),
{
    if rows.len() > 0 {
        lemma_tallied_within(rows.drop_last(), key);
    }
}

proof fn lemma_tallies(rows: Seq<RowV>, keys: Seq<Seq<char>>)
    requires
        ascending(keys),
        rows.len() <= i64::MAX,
        forall|r: int| 0 <= r < rows.len() ==> keys.contains((#[trigger] rows[r]).key()),
    ensures
        total(tallies(rows, keys)) == rows.len(),
    decreases rows.len(),
{
    let b = tallies(rows, keys);
    if rows.len() == 0 {
        lemma_total_zero(b);
    } else {
        let up = rows.drop_last();
        let a = tallies(up, keys);
        assert forall|r: int| 0 <= r < up.len() implies keys.contains((#[trigger] up[r]).key()) by {
            assert(up[r] == rows[r]);
        }
        lemma_tallies(up, keys);
        let k = rows.last().key();
        assert(rows[rows.len() - 1].key() == k);
        let p = choose|p: int| 0 <= p < keys.len() && keys[p] == k;
        lemma_tallied_within(up, k);
        assert forall|i: int| 0 <= i < a.len() && i != p implies #[trigger] a[i]
            == #[trigger] b[i] by {
            lemma_place_is(keys, i);
            lemma_place_is(keys, p);
            assert(keys[i] != k);
        }
        lemma_total_one_more(a, b, p);
    }
}

/// Whatever the rows: the counts of the groups that they form add up to the
/// number of the rows, as long as that number is a count.
pub proof fn lemma_counts_of_rows(a: GroupBy, rows: Seq<RowV>, ls: Seq<Lane>, id: u64)
    requires
        a.wf(),
        a.groups() == grouped(Groups::empty(), rows, a.aggs_view()),
        rows.len() <= i64::MAX,
    ensures
        summed(
            group_chunk(
                texts(a.keys@),
                a.aggs_view(),
                group_views(a.table.states@),
                ls,
                id,
            ).columns[a.keys@.len() as int],
        ) == rows.len(),
{
    let x = a.table.order();
    let gs = group_views(a.table.states@);
    let lane = group_chunk(texts(a.keys@), a.aggs_view(), gs, ls, id).columns[a.keys@.len() as int];
    assert(texts(a.keys@).len() == a.keys@.len());
    assert(lane.cells.len() == gs.len());
    assert(x.len() == gs.len());
    assert forall|r: int| 0 <= r < rows.len() implies x.contains((#[trigger] rows[r]).key()) by {
        let k = rows[r].key();
        lemma_head(rows, a.aggs_view(), k);
        assert(has_key(rows, k));
        assert(a.groups().dom().contains(k));
    }
    lemma_tallies(rows, x);
    let ns = Seq::new(
        lane.cells.len(),
        |i: int|
            match lane.cells[i] {
                Datum::I64(n) => n as int,
                _ => 0,
            },
    );
    let ts = tallies(rows, x);
    assert forall|i: int| 0 <= i < ns.len() implies #[trigger] ns[i] == #[trigger] ts[i] by {
        lemma_place_is(x, i);
        assert(x.contains(x[i]));
        assert(a.groups()[x[i]] == gs[i]);
        lemma_head(rows, a.aggs_view(), x[i]);
        lemma_tallied_within(rows, x[i]);
    }
    lemma_total_same(ns, ts);
}

proof fn lemma_rows_len(b: Batch, at: Seq<usize>, aggs: Seq<AggV>, n: nat, log: Log)
    ensures
        rows_in(b, at, aggs, n, log) matches Ok(rows) ==> rows.len() == n,
    decreases n,
{
    if n > 0 {
        lemma_rows_len(b, at, aggs, (n - 1) as nat, log);
    }
}

proof fn lemma_rows_fed(keys: Seq<Seq<char>>, aggs: Seq<AggV>, bs: Seq<Batch>, log: Log)
    ensures
        all_reaching(no_steps(), keys, aggs, bs, log) matches Ok(rows) ==> rows.len() == rows_fed(
            bs,
            keys,
        ),
    decreases bs.len(),
{
    if bs.len() > 0 {
        let b = bs.last();
        lemma_rows_fed(keys, aggs, bs.drop_last(), log);
        lemma_rows_len(b, known(b.fields, keys), aggs, b.len, log);
        let start = PathV { chunk: Some(b), events: Seq::empty(), next: 0 };
        assert(path_out(no_steps(), 0, start, log) == Ok::<PathV, Query>(start));
    }
}

/// The counts that a group puts out add up to the rows of the chunks that it was
/// handed: no row is lost and none is counted twice. A chunk without one of the
/// keys adds nothing.
pub proof fn lemma_counts_add_up(a: GroupBy, bs: Seq<Batch>, ls: Seq<Lane>, id: u64, log: Log)
    requires
        a.wf(),
        holds_groups(a, bs, log),
        rows_fed(bs, texts(a.keys@)) <= i64::MAX,
    ensures
        summed(
            group_chunk(
                texts(a.keys@),
                a.aggs_view(),
                group_views(a.table.states@),
                ls,
                id,
            ).columns[a.keys@.len() as int],
        ) == rows_fed(bs, texts(a.keys@)),
{
    let (keys, aggs) = (texts(a.keys@), a.aggs_view());
    lemma_rows_fed(keys, aggs, bs, log);
    lemma_counts_of_rows(a, all_reaching(no_steps(), keys, aggs, bs, log)->Ok_0, ls, id);
}

/// What a group promises. Handed chunks in any cut, it puts out one chunk with a row
/// for each key, in ascending order of the keys and each key once; the counts add up
/// to the rows. Another cut puts out the same. A second end puts out nothing more.
pub proof fn lemma_group_promises(
    a: GroupBy,
    b: GroupBy,
    bs: Seq<Batch>,
    cs: Seq<Batch>,
    c: CtxV,
    log: Log,
    x: Option<Batch>,
    za: GroupBy,
    dx: CtxV,
    y: Option<Batch>,
    zb: GroupBy,
    dy: CtxV,
    more: Option<Batch>,
    zz: GroupBy,
    dz: CtxV,
)
    requires
        a.wf() && !a.emitted,
        b.wf() && !b.emitted,
        texts(a.keys@) == texts(b.keys@),
        a.aggs_view() == b.aggs_view(),
        same_rows(bs, cs),
        holds_groups(a, bs, log),
        holds_groups(b, cs, log),
        rows_fed(bs, texts(a.keys@)) <= i64::MAX,
        group_ends(a, c, log, x, za, dx),
        group_ends(b, c, log, y, zb, dy),
        group_ends(za, dx, log, more, zz, dz),
    ensures
        x == y && dx == dy,
        x matches Some(out) && out.len == a.table.order().len() && summed(
            out.columns[a.keys@.len() as int],
        ) == rows_fed(bs, texts(a.keys@)),
        ascending(a.table.order()),
        forall|k: Seq<char>|
            #![trigger a.table.order().contains(k)]
            a.table.order().contains(k) == has_key(
                all_reaching(no_steps(), texts(a.keys@), a.aggs_view(), bs, log)->Ok_0,
                k,
            ),
        more is None && dz == dx,
{
    lemma_group_any_cut(a, b, bs, cs, c.next_chunk_id, log);
    let ls = agg_lanes(group_views(a.table.states@), a.aggs_view(), a.aggs@.len(), log)->Ok_0;
    lemma_counts_add_up(a, bs, ls, c.next_chunk_id, log);
    let rows = all_reaching(no_steps(), texts(a.keys@), a.aggs_view(), bs, log)->Ok_0;
    assert(a.table.order().len() == a.table.states@.len());
    assert forall|k: Seq<char>|
        #![trigger a.table.order().contains(k)]
        a.table.order().contains(k) == has_key(rows, k) by {
        lemma_head(rows, a.aggs_view(), k);
        assert(a.groups().dom().contains(k) == a.table.order().contains(k));
    }
}

} // verus!
