//! Runs over files as a whole: what a run in parts puts out, writes and reports.
use vstd::prelude::*;
use crate::agg::{lemma_exact_reports, lemma_same_number, same_exact, same_extremes, AggFunc};
use crate::chunk::{Batch, FieldV};
use crate::concat::stacked;
use crate::cuts::lemma_ascending_once;
use crate::division::{all_reaching, blank, coming_out, fed_apart, held, lemma_segment_workers_are_one, lemma_worker_groups, lemma_workers_are_one, same_group, same_groups, segment_fed};
use crate::dispatch::joined;
use crate::engine::{outputs_view, RunResult};
use crate::event::{events, CtxV, EventV};
use crate::filerun::{copy_ran, group_ran, left_out, opened, skipped};
use crate::flows::ReadGroupShape;
use crate::group::{agg_lane, agg_lanes, all_decimals, all_instants, group_chunk, group_views, grouped, lemma_place_is, number_cells, AggV, GroupBy, GroupV, Groups, RowV};
use crate::host::{Log, Query};
use crate::operator::directed;
use crate::parts::{all_chunks, assembled, csv_file, worked_all, Worker, WorkerV};
use crate::plan::{node_label, NodeId, Op, PlanGraph};
use crate::sort::sort_warned;
use crate::stage::Labelled;
use crate::tail::{bearing, tail_run, tail_sink, tail_step, LevelV};
use crate::value::texts;
use crate::workers::{SegmentWorker, SegmentWorkerV};

verus! {

// -------------------------------------------------------------------- groups

/// Whether the result of an aggregate is the same in whatever order doubles are
/// added: it adds none, or every group has its exact decimal.
pub open spec fn settles(gs: Seq<GroupV>, f: AggFunc, j: int) -> bool {
    match f {
        AggFunc::Std => false,
        AggFunc::Sum | AggFunc::Avg => all_decimals(gs, j),
        _ => true,
    }
}

proof fn lemma_funcs(rows: Seq<RowV>, aggs: Seq<AggV>, key: Seq<char>)
    ensures
        grouped(Groups::empty(), rows, aggs).dom().contains(key) ==> ({
            let accs = grouped(Groups::empty(), rows, aggs)[key].accs;
            accs.len() == aggs.len() && forall|j: int|
                0 <= j < aggs.len() ==> (#[trigger] accs[j]).func == aggs[j].func
        }),
    decreases rows.len(),
{
    if rows.len() > 0 {
        lemma_funcs(rows.drop_last(), aggs, key);
    }
}

proof fn lemma_numbers_same(x: Seq<GroupV>, y: Seq<GroupV>, j: int, n: nat, log: Log)
    requires
        n <= x.len() == y.len(),
        forall|i: int|
            0 <= i < x.len() ==> (#[trigger] x[i]).accs[j].number(log) == y[i].accs[j].number(log),
    ensures
        number_cells(x, j, n, log) == number_cells(y, j, n, log),
    decreases n,
{
    if n > 0 {
        lemma_numbers_same(x, y, j, (n - 1) as nat, log);
        assert(x[n - 1].accs[j].number(log) == y[n - 1].accs[j].number(log));
    }
}

proof fn lemma_lane_same(x: Seq<GroupV>, y: Seq<GroupV>, f: AggFunc, j: int, log: Log)
    requires
        x.len() == y.len(),
        settles(y, f, j),
        forall|i: int|
            0 <= i < x.len() ==> same_exact((#[trigger] x[i]).accs[j], y[i].accs[j])
                && same_extremes(x[i].accs[j], y[i].accs[j], log) && y[i].accs[j].func == f,
    ensures
        agg_lane(x, f, j, log) == agg_lane(y, f, j, log),
{
    assert forall|i: int| 0 <= i < x.len() implies (#[trigger] x[i]).accs[j].decimal()
        == y[i].accs[j].decimal() && x[i].accs[j].instant() == y[i].accs[j].instant()
        && x[i].accs[j].distinct == y[i].accs[j].distinct && x[i].accs[j].first
        == y[i].accs[j].first && x[i].accs[j].last == y[i].accs[j].last by {
        lemma_exact_reports(x[i].accs[j], y[i].accs[j], log);
    }
    match f {
        AggFunc::CountDistinct | AggFunc::First | AggFunc::Last => {
            let (p, q) = (agg_lane(x, f, j, log)->Ok_0, agg_lane(y, f, j, log)->Ok_0);
            assert(p.cells =~= q.cells);
        },
        AggFunc::Min | AggFunc::Max | AggFunc::Pct(_) => {
            assert forall|i: int| 0 <= i < x.len() implies (#[trigger] x[i]).accs[j].number(log)
                == y[i].accs[j].number(log) by {
                lemma_same_number(x[i].accs[j], y[i].accs[j], log);
            }
            lemma_numbers_same(x, y, j, x.len(), log);
            lemma_exact_lane(x, y, f, j, log);
        },
        _ => {
            lemma_exact_lane(x, y, f, j, log);
        },
    }
}

proof fn lemma_exact_lane(x: Seq<GroupV>, y: Seq<GroupV>, f: AggFunc, j: int, log: Log)
    requires
        x.len() == y.len(),
        f is Sum || f is Avg || f is Min || f is Max || f is Pct,
        f is Sum || f is Avg ==> all_decimals(y, j),
        !(f is Sum || f is Avg) ==> number_cells(x, j, x.len(), log) == number_cells(
            y,
            j,
            y.len(),
            log,
        ),
        forall|i: int|
            0 <= i < x.len() ==> (#[trigger] x[i]).accs[j].decimal() == y[i].accs[j].decimal()
                && x[i].accs[j].instant() == y[i].accs[j].instant(),
    ensures
        agg_lane(x, f, j, log) == agg_lane(y, f, j, log),
{
    assert(all_instants(x, j) == all_instants(y, j)) by {
        if all_instants(x, j) {
            assert forall|i: int| 0 <= i < y.len() implies (#[trigger] y[i]).accs[j].instant() is Some by {
                assert(x[i].accs[j].instant() is Some);
            }
        }
        if all_instants(y, j) {
            assert forall|i: int| 0 <= i < x.len() implies (#[trigger] x[i]).accs[j].instant() is Some by {
                assert(y[i].accs[j].instant() is Some);
            }
        }
    }
    assert(all_decimals(x, j) == all_decimals(y, j)) by {
        if all_decimals(x, j) {
            assert forall|i: int| 0 <= i < y.len() implies (#[trigger] y[i]).accs[j].decimal() is Some by {
                assert(x[i].accs[j].decimal() is Some);
            }
        }
        if all_decimals(y, j) {
            assert forall|i: int| 0 <= i < x.len() implies (#[trigger] x[i]).accs[j].decimal() is Some by {
                assert(y[i].accs[j].decimal() is Some);
            }
        }
    }
    if x.len() > 0 {
        assert(x[0].accs[j].decimal() == y[0].accs[j].decimal());
    }
    if (f is Min || f is Max) && all_instants(y, j) {
        let (p, q) = (agg_lane(x, f, j, log)->Ok_0, agg_lane(y, f, j, log)->Ok_0);
        assert(p.cells =~= q.cells);
    } else if f !is Pct && all_decimals(y, j) {
        let (p, q) = (agg_lane(x, f, j, log)->Ok_0, agg_lane(y, f, j, log)->Ok_0);
        assert(p.cells =~= q.cells);
    }
}

proof fn lemma_lanes_same(x: Seq<GroupV>, y: Seq<GroupV>, aggs: Seq<AggV>, n: nat, log: Log)
    requires
        x.len() == y.len(),
        n <= aggs.len(),
        forall|j: int| 0 <= j < aggs.len() ==> settles(y, (#[trigger] aggs[j]).func, j),
        forall|i: int, j: int|
            0 <= i < x.len() && 0 <= j < aggs.len() ==> same_exact(
                #[trigger] x[i].accs[j],
                y[i].accs[j],
            ) && same_extremes(x[i].accs[j], y[i].accs[j], log) && y[i].accs[j].func
                == aggs[j].func,
    ensures
        agg_lanes(x, aggs, n, log) == agg_lanes(y, aggs, n, log),
    decreases n,
{
    if n > 0 {
        let j = n - 1;
        lemma_lanes_same(x, y, aggs, j as nat, log);
        assert(settles(y, aggs[j].func, j));
        assert forall|i: int| 0 <= i < x.len() implies same_exact(
            (#[trigger] x[i]).accs[j],
            y[i].accs[j],
        ) && same_extremes(x[i].accs[j], y[i].accs[j], log) && y[i].accs[j].func
            == aggs[j].func by {
            assert(same_exact(x[i].accs[j], y[i].accs[j]));
        }
        lemma_lane_same(x, y, aggs[j].func, j, log);
    }
}

/// Groups that are the same in all that is exact put out the same chunk, where no
/// result hangs on the order in which doubles were added.
pub proof fn lemma_same_groups_out(
    a: GroupBy,
    b: GroupBy,
    rows: Seq<RowV>,
    id: u64,
    log: Log,
)
    requires
        a.wf(),
        b.wf(),
        texts(a.keys@) == texts(b.keys@),
        a.aggs_view() == b.aggs_view(),
        b.groups() == grouped(Groups::empty(), rows, b.aggs_view()),
        same_groups(a.groups(), b.groups(), log),
        forall|j: int|
            0 <= j < b.aggs_view().len() ==> settles(
                group_views(b.table.states@),
                (#[trigger] b.aggs_view()[j]).func,
                j,
            ),
    ensures
        ({
            let (x, y) = (group_views(a.table.states@), group_views(b.table.states@));
            let (p, q) = (
                agg_lanes(x, a.aggs_view(), a.aggs@.len(), log),
                agg_lanes(y, b.aggs_view(), b.aggs@.len(), log),
            );
            p == q && (p matches Ok(ls) ==> group_chunk(texts(a.keys@), a.aggs_view(), x, ls, id)
                == group_chunk(texts(b.keys@), b.aggs_view(), y, ls, id))
        }),
{
    let (s, t) = (a.table.order(), b.table.order());
    let (x, y) = (group_views(a.table.states@), group_views(b.table.states@));
    let aggs = b.aggs_view();
    assert forall|k: Seq<char>| s.contains(k) == t.contains(k) by {
        assert(a.groups().dom().contains(k) == s.contains(k));
        assert(b.groups().dom().contains(k) == t.contains(k));
    }
    lemma_ascending_once(s, t);
    assert(s.len() == x.len() && t.len() == y.len());
    assert(a.aggs_view().len() == a.aggs@.len());
    assert(b.aggs_view().len() == b.aggs@.len());
    assert forall|i: int| 0 <= i < x.len() implies same_group(
        #[trigger] x[i],
        y[i],
        log,
    ) && y[i].accs.len() == aggs.len() && (forall|j: int|
        0 <= j < aggs.len() ==> (#[trigger] y[i].accs[j]).func == aggs[j].func) by {
        lemma_place_is(s, i);
        lemma_place_is(t, i);
        assert(s.contains(s[i]));
        assert(a.groups()[s[i]] == x[i]);
        assert(b.groups()[t[i]] == y[i]);
        lemma_funcs(rows, aggs, t[i]);
        assert(b.groups().dom().contains(t[i]));
    }
    assert forall|i: int, j: int| 0 <= i < x.len() && 0 <= j < aggs.len() implies same_exact(
        #[trigger] x[i].accs[j],
        y[i].accs[j],
    ) && same_extremes(x[i].accs[j], y[i].accs[j], log) && y[i].accs[j].func == aggs[j].func by {
        assert(same_group(x[i], y[i], log));
        assert(y[i].accs[j].func == aggs[j].func);
    }
    lemma_lanes_same(x, y, aggs, aggs.len(), log);
    if let Ok(ls) = agg_lanes(y, aggs, aggs.len(), log) {
        let keys = texts(a.keys@);
        let (c, d) = (group_chunk(keys, aggs, x, ls, id), group_chunk(keys, aggs, y, ls, id));
        assert forall|i: int| 0 <= i < x.len() implies (#[trigger] x[i]).parts == y[i].parts
            && x[i].count == y[i].count by {
            assert(same_group(x[i], y[i], log));
        }
        assert forall|k: int| 0 <= k < c.columns.len() implies (#[trigger] c.columns[k])
            == d.columns[k] by {
            assert(c.columns[k].cells =~= d.columns[k].cells);
        }
        assert(c.columns =~= d.columns);
    }
}

/// A run in parts puts out the chunk of one worker that is fed everything, where no
/// result hangs on the order in which doubles were added.
pub proof fn lemma_parts_put_out(
    path: Seq<Labelled>,
    label: Seq<char>,
    start: WorkerV,
    parts: Seq<Seq<Batch>>,
    workers: Seq<Worker>,
    a: GroupBy,
    b: GroupBy,
    id: u64,
    log: Log,
)
    requires
        parts.len() > 0,
        start.groups == Groups::empty(),
        a.wf(),
        b.wf(),
        texts(a.keys@) == texts(b.keys@),
        a.aggs_view() == b.aggs_view(),
        fed_apart(path, texts(b.keys@), b.aggs_view(), parts, workers, log),
        a.groups() == joined(workers[0]@, workers, 1, workers.len() as int, log).groups,
        worked_all(path, label, texts(b.keys@), b.aggs_view(), start, all_chunks(parts), log)
            matches Ok(one) && b.groups() == one.groups,
        forall|j: int|
            0 <= j < b.aggs_view().len() ==> settles(
                group_views(b.table.states@),
                (#[trigger] b.aggs_view()[j]).func,
                j,
            ),
    ensures
        ({
            let (x, y) = (group_views(a.table.states@), group_views(b.table.states@));
            let (p, q) = (
                agg_lanes(x, a.aggs_view(), a.aggs@.len(), log),
                agg_lanes(y, b.aggs_view(), b.aggs@.len(), log),
            );
            p == q && (p matches Ok(ls) ==> group_chunk(texts(a.keys@), a.aggs_view(), x, ls, id)
                == group_chunk(texts(b.keys@), b.aggs_view(), y, ls, id))
        }),
{
    let (keys, aggs) = (texts(b.keys@), b.aggs_view());
    lemma_workers_are_one(path, label, keys, aggs, start, parts, workers, log);
    lemma_worker_groups(path, label, keys, aggs, start, all_chunks(parts), log);
    let rows = all_reaching(path, keys, aggs, all_chunks(parts), log)->Ok_0;
    lemma_same_groups_out(a, b, rows, id, log);
}

// --------------------------------------------------------------------- files

proof fn lemma_warnings_follow(c: CtxV, fields: Seq<FieldV>, keys: Seq<(Seq<char>, bool)>)
    ensures
        c.errors.is_prefix_of(sort_warned(c, fields, keys).errors),
    decreases keys.len(),
{
    if keys.len() > 0 {
        lemma_warnings_follow(c, fields, keys.drop_last());
    }
}

proof fn lemma_events_follow(g: PlanGraph, tail: Seq<NodeId>, states: Seq<LevelV>, n: nat)
    requires
        tail_run(g, tail, states),
        n <= tail.len(),
    ensures
        states[0].errors.is_prefix_of(states[n as int].errors),
    decreases n,
{
    if n > 0 {
        let k = n - 1;
        lemma_events_follow(g, tail, states, k as nat);
        let node = g.nodes@[tail[k] as int];
        let (a, b) = (states[k], states[k + 1]);
        assert(tail_step(node, a, b));
        if let Op::Sort { keys } = node.op {
            let c = CtxV {
                label: node_label(node),
                errors: a.errors,
                next_chunk_id: a.next,
            };
            let held = bearing(a.level);
            lemma_warnings_follow(
                c,
                stacked(held).fields,
                directed(keys@),
            );
        }
    }
}

proof fn lemma_left_and_opened(uris: Seq<String>, causes: Seq<Option<String>>, label: Seq<char>, n: nat)
    requires
        n <= causes.len(),
    ensures
        opened(causes, n).len() + left_out(uris, causes, label, n).len() == n,
        forall|i: int|
            0 <= i < n ==> ((#[trigger] causes[i]) matches Some(c) ==> left_out(
                uris,
                causes,
                label,
                n,
            ).contains(skipped(uris[i]@, c@, label))),
    decreases n,
{
    if n > 0 {
        let m = (n - 1) as nat;
        lemma_left_and_opened(uris, causes, label, m);
        let (up, now) = (left_out(uris, causes, label, m), left_out(uris, causes, label, n));
        assert forall|i: int| 0 <= i < n implies ((#[trigger] causes[i]) matches Some(c)
            ==> now.contains(skipped(uris[i]@, c@, label))) by {
            if let Some(c) = causes[i] {
                let e = skipped(uris[i]@, c@, label);
                if i < n - 1 {
                    assert(up.contains(e));
                    let k = choose|k: int| 0 <= k < up.len() && up[k] == e;
                    assert(now[k] == e);
                } else {
                    assert(now[now.len() - 1] == e);
                }
            }
        }
    }
}

/// What a group over files promises. Each file has a worker or is left out with one
/// recoverable event that names it; the run reports what came before, then the
/// files left out, then what the workers reported, and nothing of that is lost on
/// the way down the tail. The result holds the chunks that came down unless a sink
/// took them.
pub proof fn lemma_file_run(
    g: PlanGraph,
    shape: ReadGroupShape,
    uris: Seq<String>,
    causes: Seq<Option<String>>,
    label: Seq<char>,
    pre: Seq<EventV>,
    work: Seq<EventV>,
    states: Seq<LevelV>,
    written: Seq<EventV>,
    total: u64,
    rows_out: u64,
    rows: Seq<u64>,
    r: RunResult,
)
    requires
        uris.len() == causes.len(),
        tail_run(g, shape.tail@, states),
        states[0].errors == pre + left_out(uris, causes, label, causes.len()) + work,
        group_ran(
            g,
            shape,
            total,
            rows_out,
            states.last().errors + written,
            if tail_sink(g, shape.tail@, shape.tail@.len()) is Some {
                None
            } else {
                Some(states.last().level)
            },
            rows,
            r,
        ),
    ensures
        opened(causes, causes.len()).len() + left_out(uris, causes, label, causes.len()).len()
            == uris.len(),
        forall|i: int|
            0 <= i < causes.len() ==> ((#[trigger] causes[i]) matches Some(c) ==> events(
                r.errors@,
            ).contains(skipped(uris[i]@, c@, label))),
        (pre + left_out(uris, causes, label, causes.len()) + work).is_prefix_of(events(r.errors@)),
        r.outputs@.len() == 0 <==> tail_sink(g, shape.tail@, shape.tail@.len()) is Some,
        tail_sink(g, shape.tail@, shape.tail@.len()) is None ==> outputs_view(r.outputs@)[0].chunks
            == states.last().level,
{
    let n = causes.len();
    let left = left_out(uris, causes, label, n);
    lemma_left_and_opened(uris, causes, label, n);
    lemma_events_follow(g, shape.tail@, states, shape.tail@.len());
    let first = pre + left + work;
    let all = events(r.errors@);
    assert(states.last() == states[shape.tail@.len() as int]);
    assert(first =~= all.subrange(0, first.len() as int));
    assert forall|i: int| 0 <= i < n implies ((#[trigger] causes[i]) matches Some(c)
        ==> all.contains(skipped(uris[i]@, c@, label))) by {
        if let Some(c) = causes[i] {
            let e = skipped(uris[i]@, c@, label);
            assert(left.contains(e));
            let k = choose|k: int| 0 <= k < left.len() && left[k] == e;
            assert(first[pre.len() + k] == e);
            assert(all[pre.len() + k] == e);
        }
    }
    assert(outputs_view(r.outputs@).len() == r.outputs@.len());
}

/// What a copy of files promises. Each file has a worker or is left out with one
/// recoverable event that names it; the run reports what came before, then the
/// files left out, then what the workers reported. What is written is, character
/// for character, the CSV file of all that comes out of the path when every file
/// that could be opened is read in turn.
pub proof fn lemma_copy_run(
    g: PlanGraph,
    read: NodeId,
    sink: NodeId,
    uris: Seq<String>,
    causes: Seq<Option<String>>,
    label: Seq<char>,
    pre: Seq<EventV>,
    work: Seq<EventV>,
    written: Seq<EventV>,
    total: u64,
    r: RunResult,
    path: Seq<Labelled>,
    start: SegmentWorkerV,
    parts: Seq<Seq<Batch>>,
    workers: Seq<SegmentWorker>,
    sep: char,
    log: Log,
)
    requires
        uris.len() == causes.len(),
        copy_ran(
            g,
            read,
            sink,
            total,
            pre + left_out(uris, causes, label, causes.len()) + work + written,
            r,
        ),
        blank(start.segment),
        parts.len() == opened(causes, causes.len()).len(),
        workers.len() == parts.len(),
        forall|i: int|
            0 <= i < parts.len() ==> segment_fed(path, start, parts[i], sep, log) == Ok::<
                SegmentWorkerV,
                Query,
            >((#[trigger] workers[i])@),
    ensures
        workers.len() + left_out(uris, causes, label, causes.len()).len() == uris.len(),
        forall|i: int|
            0 <= i < causes.len() ==> ((#[trigger] causes[i]) matches Some(c) ==> events(
                r.errors@,
            ).contains(skipped(uris[i]@, c@, label))),
        (pre + left_out(uris, causes, label, causes.len()) + work).is_prefix_of(events(r.errors@)),
        r.outputs@.len() == 0,
        coming_out(path, all_chunks(parts), log) matches Ok(out) && csv_file(out, sep, log) == Ok::<
            Seq<char>,
            Query,
        >(assembled(held(workers))),
{
    let n = causes.len();
    let left = left_out(uris, causes, label, n);
    lemma_left_and_opened(uris, causes, label, n);
    lemma_segment_workers_are_one(path, start, parts, workers, sep, log);
    let first = pre + left + work;
    let all = events(r.errors@);
    assert(first =~= all.subrange(0, first.len() as int));
    assert forall|i: int| 0 <= i < n implies ((#[trigger] causes[i]) matches Some(c)
        ==> all.contains(skipped(uris[i]@, c@, label))) by {
        if let Some(c) = causes[i] {
            let e = skipped(uris[i]@, c@, label);
            assert(left.contains(e));
            let k = choose|k: int| 0 <= k < left.len() && left[k] == e;
            assert(all[pre.len() + k] == e);
        }
    }
}

} // verus!
