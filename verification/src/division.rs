//! Dividing the chunks of a flow among workers: put together, the workers hold
//! the groups that one worker would hold.
use vstd::prelude::*;
use crate::agg::{dec_total, exact_join, lemma_extremes_merge, lemma_merge_parts, lemma_pass_parts, one_scale, same_exact, same_extremes, sat_add, sums_fit, Item};
use crate::chunk::Batch;
use crate::event::CtxV;
use crate::dispatch::joined;
use crate::group::{grouped, has_key, items_for, lemma_dom, lemma_group_is_one_pass, lemma_has_append, lemma_items_append, merged, mergeable, rows_in, AggV, GroupV, Groups, RowV};
use crate::host::{Log, Query};
use crate::parts::{all_bodies, all_chunks, assembled, bodies, csv_file, first_header, lemma_segment_grows, lemma_segments_are_serial, segment_of, worked_all, SegmentV, Worker, WorkerV};
use crate::renumber::{lemma_csv_lines, lemma_csv_names, lemma_rows_in, lemma_step_renumbered, twins};
use crate::rows::{known, unknown};
use crate::stage::{path_out, stepped, Labelled, PathV};
use crate::workers::{put_on, segment_worked, SegmentWorker, SegmentWorkerV};

verus! {

// ---------------------------------------------------------------------- rows

/// The rows of a chunk that reach the group at the end of a path.
pub open spec fn reaching(
    path: Seq<Labelled>,
    keys: Seq<Seq<char>>,
    aggs: Seq<AggV>,
    b: Batch,
    log: Log,
) -> Result<Seq<RowV>, Query> {
    match path_out(
        path,
        path.len(),
        PathV { chunk: Some(b), events: Seq::empty(), next: 0 },
        log,
    ) {
        Err(q) => Err(q),
        Ok(p) => match p.chunk {
            None => Ok(Seq::empty()),
            Some(x) => if unknown(x.fields, keys) is Some {
                Ok(Seq::empty())
            } else {
                rows_in(x, known(x.fields, keys), aggs, x.len, log)
            },
        },
    }
}

/// The rows of chunks that reach the group, in order.
pub open spec fn all_reaching(
    path: Seq<Labelled>,
    keys: Seq<Seq<char>>,
    aggs: Seq<AggV>,
    bs: Seq<Batch>,
    log: Log,
) -> Result<Seq<RowV>, Query>
    decreases bs.len(),
{
    if bs.len() == 0 {
        Ok(Seq::empty())
    } else {
        match all_reaching(path, keys, aggs, bs.drop_last(), log) {
            Err(q) => Err(q),
            Ok(s) => match reaching(path, keys, aggs, bs.last(), log) {
                Err(q) => Err(q),
                Ok(t) => Ok(s + t),
            },
        }
    }
}

/// The same chunk but for its number.
pub open spec fn same_chunk(a: Option<Batch>, b: Option<Batch>) -> bool {
    match (a, b) {
        (Some(x), Some(y)) => twins(x, y),
        (None, None) => true,
        _ => false,
    }
}

/// The same chunk came out but for its number, or the same question.
pub open spec fn same_way(a: Result<PathV, Query>, b: Result<PathV, Query>) -> bool {
    match (a, b) {
        (Ok(x), Ok(y)) => same_chunk(x.chunk, y.chunk),
        (Err(x), Err(y)) => x == y,
        _ => false,
    }
}

proof fn lemma_step_free(l: Labelled, p: PathV, q: PathV, log: Log)
    requires
        same_chunk(p.chunk, q.chunk),
    ensures
        same_way(stepped(l, p, log), stepped(l, q, log)),
{
    reveal(stepped);
    if p.chunk is Some {
        lemma_step_renumbered(
            l.stage,
            p.chunk->0,
            q.chunk->0,
            CtxV { label: l.label@, errors: p.events, next_chunk_id: p.next },
            CtxV { label: l.label@, errors: q.events, next_chunk_id: q.next },
            log,
        );
    }
}

/// What comes out of a path does not hang on the numbers of the chunks, nor on
/// what was reported before.
pub proof fn lemma_path_free(path: Seq<Labelled>, n: nat, p: PathV, q: PathV, log: Log)
    requires
        same_chunk(p.chunk, q.chunk),
    ensures
        same_way(path_out(path, n, p, log), path_out(path, n, q, log)),
    decreases n,
{
    if n > 0 {
        lemma_path_free(path, (n - 1) as nat, p, q, log);
        let (a, b) = (path_out(path, (n - 1) as nat, p, log), path_out(path, (n - 1) as nat, q, log));
        if a is Ok {
            lemma_step_free(path[n - 1], a->Ok_0, b->Ok_0, log);
        }
    }
}

/// Grouping rows and then more rows is grouping them all.
pub proof fn lemma_grouped_append(g: Groups, x: Seq<RowV>, y: Seq<RowV>, aggs: Seq<AggV>)
    ensures
        grouped(g, x + y, aggs) == grouped(grouped(g, x, aggs), y, aggs),
    decreases y.len(),
{
    if y.len() == 0 {
        assert(x + y =~= x);
    } else {
        assert((x + y).drop_last() =~= x + y.drop_last());
        lemma_grouped_append(g, x, y.drop_last(), aggs);
    }
}

proof fn lemma_reaching_append(
    path: Seq<Labelled>,
    keys: Seq<Seq<char>>,
    aggs: Seq<AggV>,
    x: Seq<Batch>,
    y: Seq<Batch>,
    log: Log,
)
    requires
        all_reaching(path, keys, aggs, x, log) is Ok,
        all_reaching(path, keys, aggs, y, log) is Ok,
    ensures
        all_reaching(path, keys, aggs, x + y, log) == Ok::<Seq<RowV>, Query>(
            all_reaching(path, keys, aggs, x, log)->Ok_0 + all_reaching(
                path,
                keys,
                aggs,
                y,
                log,
            )->Ok_0,
        ),
    decreases y.len(),
{
    let a = all_reaching(path, keys, aggs, x, log)->Ok_0;
    if y.len() == 0 {
        assert(x + y =~= x);
        assert(a + Seq::<RowV>::empty() =~= a);
    } else {
        assert((x + y).drop_last() =~= x + y.drop_last());
        assert((x + y).last() == y.last());
        lemma_reaching_append(path, keys, aggs, x, y.drop_last(), log);
        let b = all_reaching(path, keys, aggs, y.drop_last(), log)->Ok_0;
        let c = reaching(path, keys, aggs, y.last(), log)->Ok_0;
        assert((a + b) + c =~= a + (b + c));
    }
}

/// The rows that reach the group are the same whatever number the chunk gets, and
/// whatever was reported before.
pub proof fn lemma_reaching_any(
    path: Seq<Labelled>,
    keys: Seq<Seq<char>>,
    aggs: Seq<AggV>,
    b: Batch,
    start: PathV,
    log: Log,
)
    requires
        start.chunk == Some(b),
    ensures
        reaching(path, keys, aggs, b, log) == match path_out(path, path.len(), start, log) {
            Err(q) => Err::<Seq<RowV>, Query>(q),
            Ok(p) => match p.chunk {
                None => Ok(Seq::empty()),
                Some(x) => if unknown(x.fields, keys) is Some {
                    Ok(Seq::empty())
                } else {
                    rows_in(x, known(x.fields, keys), aggs, x.len, log)
                },
            },
        },
{
    let first = PathV { chunk: Some(b), events: Seq::empty(), next: 0 };
    lemma_path_free(path, path.len(), start, first, log);
    let p = path_out(path, path.len(), start, log);
    let q = path_out(path, path.len(), first, log);
    if p is Ok && p->Ok_0.chunk is Some {
        let (y, z) = (p->Ok_0.chunk->0, q->Ok_0.chunk->0);
        lemma_rows_in(y, z, known(y.fields, keys), aggs, y.len, log);
    }
}

/// What a worker gathers are the groups of the rows that reach its group, whatever
/// numbers its chunks get.
pub proof fn lemma_worker_groups(
    path: Seq<Labelled>,
    label: Seq<char>,
    keys: Seq<Seq<char>>,
    aggs: Seq<AggV>,
    w: WorkerV,
    bs: Seq<Batch>,
    log: Log,
)
    ensures
        match (
            worked_all(path, label, keys, aggs, w, bs, log),
            all_reaching(path, keys, aggs, bs, log),
        ) {
            (Ok(z), Ok(rows)) => z.groups == grouped(w.groups, rows, aggs),
            (Err(a), Err(q)) => a == q,
            _ => false,
        },
    decreases bs.len(),
{
    if bs.len() > 0 {
        lemma_worker_groups(path, label, keys, aggs, w, bs.drop_last(), log);
        let before = worked_all(path, label, keys, aggs, w, bs.drop_last(), log);
        if before is Ok {
            let x = before->Ok_0;
            let b = bs.last();
            lemma_reaching_any(
                path,
                keys,
                aggs,
                b,
                PathV { chunk: Some(b), events: Seq::empty(), next: x.next },
                log,
            );
            let s = all_reaching(path, keys, aggs, bs.drop_last(), log)->Ok_0;
            let t = reaching(path, keys, aggs, b, log);
            if t is Ok {
                lemma_grouped_append(w.groups, s, t->Ok_0, aggs);
                assert(grouped(x.groups, Seq::empty(), aggs) == x.groups);
            }
        }
    }
}

// -------------------------------------------------------------------- groups

/// The same group in all that is exact: all but the sums of doubles.
pub open spec fn same_group(a: GroupV, b: GroupV, log: Log) -> bool {
    &&& a.parts == b.parts
    &&& a.count == b.count
    &&& a.accs.len() == b.accs.len()
    &&& forall|j: int|
        0 <= j < a.accs.len() ==> same_exact(#[trigger] a.accs[j], b.accs[j]) && same_extremes(
            a.accs[j],
            b.accs[j],
            log,
        )
}

/// The same groups in all that is exact.
pub open spec fn same_groups(a: Groups, b: Groups, log: Log) -> bool {
    &&& a.dom() == b.dom()
    &&& forall|k: Seq<char>| a.dom().contains(k) ==> same_group(#[trigger] a[k], b[k], log)
}

/// The decimals of two runs share a scale, and no sum leaves 128 bits.
pub open spec fn adds_exactly(x: Seq<Item>, y: Seq<Item>) -> bool {
    exists|s: u8|
        #![trigger one_scale(x, s)]
        one_scale(x, s) && one_scale(y, s) && sums_fit(0, x) && sums_fit(0, y) && sums_fit(
            dec_total(x),
            y,
        )
}

/// So it is for each of the `n` aggregates of each key.
pub open spec fn rows_add_exactly(x: Seq<RowV>, y: Seq<RowV>, n: nat) -> bool {
    forall|key: Seq<char>, j: int|
        0 <= j < n ==> adds_exactly(#[trigger] items_for(x, key, j), items_for(y, key, j))
}

/// Merging the groups asks nothing.
pub open spec fn quiet(a: Groups, b: Groups, log: Log) -> bool {
    forall|k: Seq<char>|
        a.dom().contains(k) && b.dom().contains(k) ==> mergeable(#[trigger] a[k], b[k], log)
}

/// How many rows have the key, up to the largest count.
pub open spec fn tallied(rows: Seq<RowV>, key: Seq<char>) -> int
    decreases rows.len(),
{
    if rows.len() == 0 {
        0
    } else if rows.last().key() == key {
        sat_add(tallied(rows.drop_last(), key), 1)
    } else {
        tallied(rows.drop_last(), key)
    }
}

/// The parts of the key in the first row that has it.
pub open spec fn first_parts(rows: Seq<RowV>, key: Seq<char>) -> Seq<Seq<char>>
    decreases rows.len(),
{
    if rows.len() == 0 {
        Seq::empty()
    } else if has_key(rows.drop_last(), key) {
        first_parts(rows.drop_last(), key)
    } else {
        rows.last().parts
    }
}

/// What a group holds besides its aggregates: it is there where a row has its key.
pub proof fn lemma_head(rows: Seq<RowV>, aggs: Seq<AggV>, key: Seq<char>)
    ensures
        ({
            let g = grouped(Groups::empty(), rows, aggs);
            &&& g.dom().contains(key) == has_key(rows, key)
            &&& has_key(rows, key) ==> g[key].count == tallied(rows, key) && g[key].parts
                == first_parts(rows, key) && g[key].accs.len() == aggs.len()
            &&& !has_key(rows, key) ==> tallied(rows, key) == 0
        }),
    decreases rows.len(),
{
    lemma_dom(Groups::empty(), rows, aggs, key);
    if rows.len() > 0 {
        let front = rows.drop_last();
        lemma_head(front, aggs, key);
        assert(rows =~= front + seq![rows.last()]);
        lemma_has_append(front, seq![rows.last()], key);
        if rows.last().key() == key {
            assert(seq![rows.last()][0].key() == key);
        }
        assert(has_key(rows, key) == (has_key(front, key) || rows.last().key() == key));
    }
}

proof fn lemma_tallied_append(x: Seq<RowV>, y: Seq<RowV>, key: Seq<char>)
    ensures
        0 <= tallied(x, key) <= i64::MAX,
        0 <= tallied(y, key) <= i64::MAX,
        tallied(x + y, key) == sat_add(tallied(x, key), tallied(y, key)),
    decreases x.len() + y.len(),
{
    if y.len() > 0 {
        assert((x + y).drop_last() =~= x + y.drop_last());
        assert((x + y).last() == y.last());
        lemma_tallied_append(x, y.drop_last(), key);
    } else {
        assert(x + y =~= x);
        if x.len() > 0 {
            lemma_tallied_append(x.drop_last(), y, key);
        }
    }
}

proof fn lemma_first_append(x: Seq<RowV>, y: Seq<RowV>, key: Seq<char>)
    requires
        has_key(x + y, key),
    ensures
        first_parts(x + y, key) == if has_key(x, key) {
            first_parts(x, key)
        } else {
            first_parts(y, key)
        },
    decreases y.len(),
{
    lemma_has_append(x, y, key);
    if y.len() == 0 {
        assert(x + y =~= x);
    } else {
        let up = y.drop_last();
        assert((x + y).drop_last() =~= x + up);
        assert((x + y).last() == y.last());
        lemma_has_append(x, up, key);
        if has_key(x + up, key) {
            lemma_first_append(x, up, key);
        }
    }
}

proof fn lemma_acc_same(m: crate::agg::Acc, a: crate::agg::Acc, b: crate::agg::Acc, log: Log)
    requires
        same_exact(m, a),
        m.join(b, log) is Ok,
    ensures
        same_exact(m.join(b, log)->Ok_0, exact_join(a, b)),
{
}

proof fn lemma_key_same(m: Groups, x: Seq<RowV>, y: Seq<RowV>, aggs: Seq<AggV>, key: Seq<char>, log: Log)
    requires
        same_groups(m, grouped(Groups::empty(), x, aggs), log),
        rows_add_exactly(x, y, aggs.len()),
        quiet(m, grouped(Groups::empty(), y, aggs), log),
    ensures
        ({
            let z = merged(m, grouped(Groups::empty(), y, aggs), log);
            let all = grouped(Groups::empty(), x + y, aggs);
            &&& z.dom().contains(key) == all.dom().contains(key)
            &&& all.dom().contains(key) ==> same_group(z[key], all[key], log)
        }),
{
    let gx = grouped(Groups::empty(), x, aggs);
    let gy = grouped(Groups::empty(), y, aggs);
    let all = grouped(Groups::empty(), x + y, aggs);
    let z = merged(m, gy, log);
    lemma_head(x, aggs, key);
    lemma_head(y, aggs, key);
    lemma_head(x + y, aggs, key);
    lemma_has_append(x, y, key);
    if all.dom().contains(key) {
        lemma_tallied_append(x, y, key);
        lemma_first_append(x, y, key);
        if m.dom().contains(key) {
            assert(same_group(m[key], gx[key], log));
        }
        assert(z[key].accs.len() == aggs.len());
        assert forall|j: int| 0 <= j < aggs.len() implies same_exact(
            #[trigger] z[key].accs[j],
            all[key].accs[j],
        ) && same_extremes(z[key].accs[j], all[key].accs[j], log) by {
            let ix = items_for(x, key, j);
            let iy = items_for(y, key, j);
            lemma_group_is_one_pass(x, aggs, key, j);
            lemma_group_is_one_pass(y, aggs, key, j);
            lemma_group_is_one_pass(x + y, aggs, key, j);
            lemma_items_append(x, y, key, j);
            if m.dom().contains(key) && gy.dom().contains(key) {
                assert(adds_exactly(ix, iy));
                let s = choose|s: u8|
                    #![trigger one_scale(ix, s)]
                    one_scale(ix, s) && one_scale(iy, s) && sums_fit(0, ix) && sums_fit(0, iy)
                        && sums_fit(dec_total(ix), iy);
                lemma_merge_parts(aggs[j].func, ix, iy, s);
                assert(mergeable(m[key], gy[key], log));
                assert(m[key].accs[j].join(gy[key].accs[j], log) is Ok);
                lemma_acc_same(m[key].accs[j], gx[key].accs[j], gy[key].accs[j], log);
                lemma_pass_parts(aggs[j].func, ix, iy);
                lemma_extremes_merge(m[key].accs[j], aggs[j].func, ix, iy, log);
            } else if m.dom().contains(key) {
                assert(ix + iy =~= ix);
            } else {
                assert(ix + iy =~= iy);
            }
        }
    }
}

/// Groups that are those of some rows, merged with the groups of later rows, are
/// the groups of all these rows, in all that is exact.
pub proof fn lemma_merge_same(m: Groups, x: Seq<RowV>, y: Seq<RowV>, aggs: Seq<AggV>, log: Log)
    requires
        same_groups(m, grouped(Groups::empty(), x, aggs), log),
        rows_add_exactly(x, y, aggs.len()),
        quiet(m, grouped(Groups::empty(), y, aggs), log),
    ensures
        same_groups(
            merged(m, grouped(Groups::empty(), y, aggs), log),
            grouped(Groups::empty(), x + y, aggs),
            log,
        ),
{
    let z = merged(m, grouped(Groups::empty(), y, aggs), log);
    let all = grouped(Groups::empty(), x + y, aggs);
    assert forall|k: Seq<char>| z.dom().contains(k) == all.dom().contains(k) by {
        lemma_key_same(m, x, y, aggs, k, log);
    }
    assert(z.dom() =~= all.dom());
    assert forall|k: Seq<char>| z.dom().contains(k) implies same_group(#[trigger] z[k], all[k], log) by {
        lemma_key_same(m, x, y, aggs, k, log);
    }
}

// ------------------------------------------------------------------- workers

/// The worker holds the groups of the rows of these chunks that reach the end of
/// the path.
pub open spec fn gathers(
    path: Seq<Labelled>,
    keys: Seq<Seq<char>>,
    aggs: Seq<AggV>,
    w: WorkerV,
    bs: Seq<Batch>,
    log: Log,
) -> bool {
    all_reaching(path, keys, aggs, bs, log) matches Ok(rows) && w.groups == grouped(
        Groups::empty(),
        rows,
        aggs,
    )
}

/// A worker that started empty and was fed chunks holds their groups.
pub proof fn lemma_worker_gathers(
    path: Seq<Labelled>,
    label: Seq<char>,
    keys: Seq<Seq<char>>,
    aggs: Seq<AggV>,
    start: WorkerV,
    bs: Seq<Batch>,
    log: Log,
)
    requires
        start.groups == Groups::empty(),
    ensures
        worked_all(path, label, keys, aggs, start, bs, log) matches Ok(w) ==> gathers(
            path,
            keys,
            aggs,
            w,
            bs,
            log,
        ),
{
    lemma_worker_groups(path, label, keys, aggs, start, bs, log);
}

/// Workers that each hold the groups of a part of the chunks: what they hold can
/// be put together exactly, and putting it together asks nothing.
pub open spec fn fed_apart(
    path: Seq<Labelled>,
    keys: Seq<Seq<char>>,
    aggs: Seq<AggV>,
    parts: Seq<Seq<Batch>>,
    workers: Seq<Worker>,
    log: Log,
) -> bool {
    &&& workers.len() == parts.len()
    &&& forall|i: int|
        0 <= i < parts.len() ==> gathers(path, keys, aggs, (#[trigger] workers[i])@, parts[i], log)
    &&& forall|i: int|
        1 <= i < parts.len() ==> rows_add_exactly(
            all_reaching(path, keys, aggs, all_chunks(parts.take(i)), log)->Ok_0,
            all_reaching(path, keys, aggs, #[trigger] parts[i], log)->Ok_0,
            aggs.len(),
        )
    &&& forall|i: int|
        1 <= i < parts.len() ==> quiet(
            joined(workers[0]@, workers, 1, i, log).groups,
            (#[trigger] workers[i])@.groups,
            log,
        )
}

/// Dividing chunks among workers and putting the workers together in order gives
/// the groups of one worker that is fed all chunks, in all that is exact: the keys
/// and how many rows each has, counts, decimal sums and extremes, the least and the
/// greatest double, instants, first and last texts, distinct texts and percentile
/// values.
pub proof fn lemma_workers_are_one(
    path: Seq<Labelled>,
    label: Seq<char>,
    keys: Seq<Seq<char>>,
    aggs: Seq<AggV>,
    start: WorkerV,
    parts: Seq<Seq<Batch>>,
    workers: Seq<Worker>,
    log: Log,
)
    requires
        parts.len() > 0,
        start.groups == Groups::empty(),
        fed_apart(path, keys, aggs, parts, workers, log),
    ensures
        worked_all(path, label, keys, aggs, start, all_chunks(parts), log) matches Ok(one)
            && same_groups(
            joined(workers[0]@, workers, 1, workers.len() as int, log).groups,
            one.groups,
            log,
        ),
{
    lemma_workers_so_far(path, keys, aggs, parts, workers, parts.len(), log);
    assert(parts.take(parts.len() as int) =~= parts);
    lemma_worker_groups(path, label, keys, aggs, start, all_chunks(parts), log);
}

proof fn lemma_workers_so_far(
    path: Seq<Labelled>,
    keys: Seq<Seq<char>>,
    aggs: Seq<AggV>,
    parts: Seq<Seq<Batch>>,
    workers: Seq<Worker>,
    n: nat,
    log: Log,
)
    requires
        1 <= n <= parts.len(),
        fed_apart(path, keys, aggs, parts, workers, log),
    ensures
        all_reaching(path, keys, aggs, all_chunks(parts.take(n as int)), log) matches Ok(rows)
            && same_groups(
            joined(workers[0]@, workers, 1, n as int, log).groups,
            grouped(Groups::empty(), rows, aggs),
            log,
        ),
    decreases n,
{
    let i = n - 1;
    assert(gathers(path, keys, aggs, workers[i]@, parts[i], log));
    let y = all_reaching(path, keys, aggs, parts[i], log)->Ok_0;
    let so_far = parts.take(n as int);
    assert(so_far.drop_last() =~= parts.take(i));
    assert(so_far.last() == parts[i]);
    if n == 1 {
        assert(parts.take(0) =~= Seq::empty());
        assert(all_chunks(so_far) =~= parts[0]);
    } else {
        lemma_workers_so_far(path, keys, aggs, parts, workers, i as nat, log);
        let x = all_reaching(path, keys, aggs, all_chunks(parts.take(i)), log)->Ok_0;
        lemma_reaching_append(path, keys, aggs, all_chunks(parts.take(i)), parts[i], log);
        assert(all_chunks(so_far) == all_chunks(parts.take(i)) + parts[i]);
        let m = joined(workers[0]@, workers, 1, i, log).groups;
        lemma_merge_same(m, x, y, aggs, log);
    }
}

// ------------------------------------------------------------------ segments

/// The chunks that come out of a path, in order, numbered as if each were the
/// first.
pub open spec fn coming_out(path: Seq<Labelled>, bs: Seq<Batch>, log: Log) -> Result<Seq<Batch>, Query>
    decreases bs.len(),
{
    if bs.len() == 0 {
        Ok(Seq::empty())
    } else {
        match coming_out(path, bs.drop_last(), log) {
            Err(q) => Err(q),
            Ok(s) => match path_out(
                path,
                path.len(),
                PathV { chunk: Some(bs.last()), events: Seq::empty(), next: 0 },
                log,
            ) {
                Err(q) => Err(q),
                Ok(p) => match p.chunk {
                    None => Ok(s),
                    Some(x) => Ok(s.push(x)),
                },
            },
        }
    }
}

/// A worker that makes a segment, after all chunks of its part.
pub open spec fn segment_fed(
    path: Seq<Labelled>,
    w: SegmentWorkerV,
    bs: Seq<Batch>,
    sep: char,
    log: Log,
) -> Result<SegmentWorkerV, Query>
    decreases bs.len(),
{
    if bs.len() == 0 {
        Ok(w)
    } else {
        match segment_fed(path, w, bs.drop_last(), sep, log) {
            Err(q) => Err(q),
            Ok(x) => segment_worked(path, x, bs.last(), sep, log),
        }
    }
}

/// Nothing is on the segment yet.
pub open spec fn blank(s: SegmentV) -> bool {
    s == (SegmentV { header: None, body: Seq::empty(), rows: 0 })
}

proof fn lemma_put_on(s: SegmentV, a: Batch, b: Batch, sep: char, log: Log)
    requires
        twins(a, b),
    ensures
        put_on(s, a, sep, log) == put_on(s, b, sep, log),
{
    lemma_csv_lines(a, b, a.len, sep, log);
    lemma_csv_names(a, b, a.fields.len(), sep);
}

proof fn lemma_segment_worker(
    path: Seq<Labelled>,
    w: SegmentWorkerV,
    bs: Seq<Batch>,
    sep: char,
    log: Log,
)
    requires
        blank(w.segment),
    ensures
        match (segment_fed(path, w, bs, sep, log), coming_out(path, bs, log)) {
            (Ok(z), Ok(out)) => segment_of(out, sep, log) == Ok::<SegmentV, Query>(z.segment),
            (Err(_), Ok(out)) => segment_of(out, sep, log) is Err,
            (Err(_), Err(_)) => true,
            (Ok(_), Err(_)) => false,
        },
    decreases bs.len(),
{
    if bs.len() > 0 {
        lemma_segment_worker(path, w, bs.drop_last(), sep, log);
        let before = segment_fed(path, w, bs.drop_last(), sep, log);
        let out = coming_out(path, bs.drop_last(), log);
        if out is Ok {
            let next: u64 = if before is Ok {
                before->Ok_0.next
            } else {
                0
            };
            let a = PathV { chunk: Some(bs.last()), events: Seq::empty(), next };
            let b = PathV { chunk: Some(bs.last()), events: Seq::empty(), next: 0 };
            lemma_path_free(path, path.len(), a, b, log);
            let p = path_out(path, path.len(), a, log);
            let q = path_out(path, path.len(), b, log);
            if p is Ok && p->Ok_0.chunk is Some {
                let (x, y) = (p->Ok_0.chunk->0, q->Ok_0.chunk->0);
                lemma_segment_grows(out->Ok_0, y, sep, log);
                if before is Ok {
                    lemma_put_on(before->Ok_0.segment, x, y, sep, log);
                }
            }
        }
    } else {
        assert(bodies(Seq::empty(), sep, log) == Ok::<Seq<char>, Query>(Seq::empty()));
    }
}

proof fn lemma_out_append(path: Seq<Labelled>, x: Seq<Batch>, y: Seq<Batch>, log: Log)
    requires
        coming_out(path, x, log) is Ok,
        coming_out(path, y, log) is Ok,
    ensures
        coming_out(path, x + y, log) == Ok::<Seq<Batch>, Query>(
            coming_out(path, x, log)->Ok_0 + coming_out(path, y, log)->Ok_0,
        ),
    decreases y.len(),
{
    let a = coming_out(path, x, log)->Ok_0;
    if y.len() == 0 {
        assert(x + y =~= x);
        assert(a + Seq::<Batch>::empty() =~= a);
    } else {
        assert((x + y).drop_last() =~= x + y.drop_last());
        assert((x + y).last() == y.last());
        lemma_out_append(path, x, y.drop_last(), log);
        let b = coming_out(path, y.drop_last(), log)->Ok_0;
        assert forall|c: Batch| (a + b).push(c) == #[trigger] (a + b.push(c)) by {
            assert((a + b).push(c) =~= a + b.push(c));
        }
    }
}

/// What comes out of each part.
pub open spec fn outs(path: Seq<Labelled>, parts: Seq<Seq<Batch>>, log: Log) -> Seq<Seq<Batch>> {
    Seq::new(parts.len(), |i: int| coming_out(path, parts[i], log)->Ok_0)
}

/// What comes out of all chunks is what comes out of each part, in order.
pub proof fn lemma_all_out(path: Seq<Labelled>, parts: Seq<Seq<Batch>>, log: Log)
    requires
        forall|i: int| 0 <= i < parts.len() ==> coming_out(path, #[trigger] parts[i], log) is Ok,
    ensures
        coming_out(path, all_chunks(parts), log) == Ok::<Seq<Batch>, Query>(
            all_chunks(outs(path, parts, log)),
        ),
    decreases parts.len(),
{
    let o = outs(path, parts, log);
    if parts.len() > 0 {
        let front = parts.drop_last();
        assert forall|i: int| 0 <= i < front.len() implies coming_out(
            path,
            #[trigger] front[i],
            log,
        ) is Ok by {
            assert(front[i] == parts[i]);
        }
        lemma_all_out(path, front, log);
        assert(o.drop_last() =~= outs(path, front, log));
        assert(parts.last() == parts[parts.len() - 1]);
        lemma_out_append(path, all_chunks(front), parts.last(), log);
    }
}

/// The segments that workers hold.
pub open spec fn held(workers: Seq<SegmentWorker>) -> Seq<SegmentV> {
    Seq::new(workers.len(), |i: int| workers[i]@.segment)
}

/// Dividing chunks among workers and putting their segments behind one another
/// gives, character for character, the file of one worker that is fed all chunks:
/// the CSV file of all that comes out of the path.
pub proof fn lemma_segment_workers_are_one(
    path: Seq<Labelled>,
    start: SegmentWorkerV,
    parts: Seq<Seq<Batch>>,
    workers: Seq<SegmentWorker>,
    sep: char,
    log: Log,
)
    requires
        blank(start.segment),
        workers.len() == parts.len(),
        forall|i: int|
            0 <= i < parts.len() ==> segment_fed(path, start, parts[i], sep, log) == Ok::<
                SegmentWorkerV,
                Query,
            >((#[trigger] workers[i])@),
    ensures
        segment_fed(path, start, all_chunks(parts), sep, log) matches Ok(one) && assembled(
            held(workers),
        ) == assembled(seq![one.segment]),
        coming_out(path, all_chunks(parts), log) matches Ok(out) && csv_file(out, sep, log) == Ok::<
            Seq<char>,
            Query,
        >(assembled(held(workers))),
{
    let o = outs(path, parts, log);
    assert forall|i: int| 0 <= i < parts.len() implies coming_out(path, #[trigger] parts[i], log) is Ok
        && segment_of(o[i], sep, log) == Ok::<SegmentV, Query>(workers[i]@.segment) by {
        assert(workers[i]@ == workers[i]@);
        lemma_segment_worker(path, start, parts[i], sep, log);
    }
    assert forall|i: int| 0 <= i < o.len() implies segment_of(#[trigger] o[i], sep, log) is Ok by {
        assert(coming_out(path, parts[i], log) is Ok);
    }
    lemma_segments_are_serial(o, sep, log);
    assert(Seq::new(o.len(), |i: int| segment_of(o[i], sep, log)->Ok_0) =~= held(workers)) by {
        assert forall|i: int| 0 <= i < o.len() implies segment_of(#[trigger] o[i], sep, log)->Ok_0
            == held(workers)[i] by {
            assert(coming_out(path, parts[i], log) is Ok);
        }
    }
    lemma_all_out(path, parts, log);
    lemma_segment_worker(path, start, all_chunks(parts), sep, log);
    let one = segment_fed(path, start, all_chunks(parts), sep, log)->Ok_0.segment;
    lemma_assembled_one(one);
}

/// The file of one segment is its header and its body.
proof fn lemma_assembled_one(s: SegmentV)
    ensures
        assembled(seq![s]) == match s.header {
            Some(h) => h + s.body,
            None => s.body,
        },
{
    reveal_with_fuel(first_header, 3);
    reveal_with_fuel(all_bodies, 3);
    assert(seq![s].drop_last() =~= Seq::empty());
    assert(Seq::<char>::empty() + s.body =~= s.body);
}

} // verus!
