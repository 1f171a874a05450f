//! What stands around a run: when a flow is refused, which ways of running it are
//! tried and in which order, and how the parts of a run become one result.
use vstd::prelude::*;
use crate::chunk::{batches, Chunk, Mode};
use crate::engine::{add_rows, chunk_rows, outputs_view, Output, OutputV, RunResult, WorkerTelemetry};
use crate::event::{any_fatal, events, has_fatal, message3, ErrorEvent, ErrorScope, EventV, Severity};
use crate::flow::{tally, Counts};
use crate::group::{merge_asks, merged};
use crate::host::{Answers, Ask, Log};
use crate::parts::{Worker, WorkerV};
use crate::plan::{before, lemma_all_placed, topological, NodeId, Op, PlanGraph};
use crate::text::{nat_text, owned, u64_text};

verus! {

// ----------------------------------------------------------------- refusals

/// A source that never ends.
pub open spec fn never_ends(op: Op) -> bool {
    op matches Op::Source { unbounded, .. } && unbounded
}

/// Whether a node never ends: it is such a source, or is fed by a node that never
/// ends. In a graph without a cycle this holds of one marking only.
pub open spec fn marks(g: PlanGraph, tag: Seq<bool>) -> bool {
    &&& tag.len() == g.nodes@.len()
    &&& forall|n: int|
        0 <= n < tag.len() ==> (#[trigger] tag[n] <==> never_ends(g.nodes@[n].op) || fed_by(
            g,
            tag,
            n,
            g.edges@.len(),
        ))
}

/// Whether one of the first `k` edges leads to a node from one that never ends.
pub open spec fn fed_by(g: PlanGraph, tag: Seq<bool>, n: int, k: nat) -> bool {
    exists|e: int|
        0 <= e < k && (#[trigger] g.edges@[e]).1 == n && tag[g.edges@[e].0 as int]
}

/// Which nodes never end (see [`marks`]), for an order in which every edge goes
/// forward.
pub fn unbounded_nodes(g: &PlanGraph, order: &Vec<NodeId>) -> (r: Vec<bool>)
    requires
        g.wf(),
        topological(*g, order@),
    ensures
        marks(*g, r@),
{
    let size: usize = g.nodes.len();
    let mut tag: Vec<bool> = Vec::new();
    for i in 0..size
        invariant
            tag@.len() == i,
    {
        tag.push(false);
    }
    for i in 0..order.len()
        invariant
            g.wf(),
            topological(*g, order@),
            size == g.nodes@.len(),
            tag@.len() == size,
            forall|j: int|
                0 <= j < i ==> (tag@[(#[trigger] order@[j]) as int] <==> never_ends(
                    g.nodes@[order@[j] as int].op,
                ) || fed_by(*g, tag@, order@[j] as int, g.edges@.len())),
    {
        let n: NodeId = order[i];
        let ghost was = tag@;
        let mut mark: bool = match &g.nodes[n].op {
            Op::Source { unbounded, .. } => *unbounded,
            _ => false,
        };
        let ghost own = mark;
        for e in 0..g.edges.len()
            invariant
                g.wf(),
                size == g.nodes@.len(),
                tag@ == was,
                tag@.len() == size,
                mark <==> own || fed_by(*g, tag@, n as int, e as nat),
        {
            let (a, b) = g.edges[e];
            assert(g.edges@[e as int].0 < g.nodes@.len());
            proof {
                if fed_by(*g, tag@, n as int, (e + 1) as nat) {
                    let x = choose|x: int|
                        0 <= x < e + 1 && (#[trigger] g.edges@[x]).1 == n
                            && tag@[g.edges@[x].0 as int];
                    if x < e {
                        assert(fed_by(*g, tag@, n as int, e as nat));
                    }
                }
                if fed_by(*g, tag@, n as int, e as nat) {
                    let x = choose|x: int|
                        0 <= x < e && (#[trigger] g.edges@[x]).1 == n
                            && tag@[g.edges@[x].0 as int];
                    assert(g.edges@[x].1 == n);
                }
            }
            if b == n && tag[a] {
                mark = true;
                assert(g.edges@[e as int].1 == n);
            }
        }
        tag.set(n, mark);
        proof {
            assert forall|j: int| 0 <= j < i + 1 implies (tag@[(#[trigger] order@[j]) as int]
                <==> never_ends(g.nodes@[order@[j] as int].op) || fed_by(
                *g,
                tag@,
                order@[j] as int,
                g.edges@.len(),
            )) by {
                lemma_fed_by_stays(*g, order@, was, tag@, i as int, j);
                if j < i {
                    assert(order@[j] != order@[i as int]);
                }
            }
        }
    }
    proof {
        assert forall|n: int| 0 <= n < tag@.len() implies (#[trigger] tag@[n] <==> never_ends(
            g.nodes@[n].op,
        ) || fed_by(*g, tag@, n, g.edges@.len())) by {
            lemma_all_placed(*g, order@, n);
            let j = choose|j: int| 0 <= j < order@.len() && order@[j] == n;
            assert(order@[j] == n);
        }
    }
    tag
}

proof fn lemma_fed_by_stays(
    g: PlanGraph,
    order: Seq<NodeId>,
    was: Seq<bool>,
    tag: Seq<bool>,
    i: int,
    j: int,
)
    requires
        g.wf(),
        topological(g, order),
        0 <= j <= i < order.len(),
        was.len() == g.nodes@.len(),
        tag.len() == was.len(),
        forall|n: int| 0 <= n < tag.len() && n != order[i] ==> tag[n] == was[n],
    ensures
        fed_by(g, tag, order[j] as int, g.edges@.len()) == fed_by(
            g,
            was,
            order[j] as int,
            g.edges@.len(),
        ),
{
    let n = order[j];
    assert forall|e: int|
        0 <= e < g.edges@.len() && (#[trigger] g.edges@[e]).1 == n implies g.edges@[e].0
        != order[i] by {
        assert(before(order, g.edges@[e].0, g.edges@[e].1));
        let (x, y) = choose|x: int, y: int|
            0 <= x < y < order.len() && #[trigger] order[x] == g.edges@[e].0 && #[trigger] order[y]
                == g.edges@[e].1;
        assert(y == j);
    }
    if fed_by(g, tag, n as int, g.edges@.len()) {
        let e = choose|e: int|
            0 <= e < g.edges@.len() && (#[trigger] g.edges@[e]).1 == n
                && tag[g.edges@[e].0 as int];
        assert(was[g.edges@[e].0 as int]);
    }
    if fed_by(g, was, n as int, g.edges@.len()) {
        let e = choose|e: int|
            0 <= e < g.edges@.len() && (#[trigger] g.edges@[e]).1 == n
                && was[g.edges@[e].0 as int];
        assert(tag[g.edges@[e].0 as int]);
    }
}

/// The first of the first `n` nodes that needs the whole stream and never gets
/// it.
pub open spec fn stuck(tag: Seq<bool>, blocking: Seq<bool>, n: nat) -> Option<int>
    decreases n,
{
    if n == 0 {
        None
    } else {
        match stuck(tag, blocking, (n - 1) as nat) {
            Some(i) => Some(i),
            None => if tag[n - 1] && blocking[n - 1] {
                Some(n - 1)
            } else {
                None
            },
        }
    }
}

/// Why a flow is refused in which a node that needs the whole stream is fed by a
/// source that never ends; `None` where there is no such node. `blocking` says
/// which operators need the whole stream.
pub fn refuse_endless(g: &PlanGraph, tag: &Vec<bool>, blocking: &Vec<bool>) -> (r: Option<String>)
    requires
        tag@.len() == g.nodes@.len(),
        blocking@.len() == g.nodes@.len(),
    ensures
        match (r, stuck(tag@, blocking@, g.nodes@.len())) {
            (Some(m), Some(i)) => m@ == "`"@ + g.nodes@[i].kind@
                + "` needs the whole stream, but it is downstream of an unbounded source (`watch` / `subscribe`) that never ends \u{2014} aggregating an unbounded source needs a window (a later slice); remove the unbounded source, or wait for the windowing slice"@,
            (None, None) => true,
            _ => false,
        },
{
    for i in 0..g.nodes.len()
        invariant
            tag@.len() == g.nodes@.len(),
            blocking@.len() == g.nodes@.len(),
            stuck(tag@, blocking@, i as nat) is None,
    {
        if tag[i] && blocking[i] {
            proof {
                lemma_stuck_stays(tag@, blocking@, (i + 1) as nat, g.nodes@.len());
            }
            return Some(
                message3(
                    "`",
                    g.nodes[i].kind.as_str(),
                    "` needs the whole stream, but it is downstream of an unbounded source (`watch` / `subscribe`) that never ends \u{2014} aggregating an unbounded source needs a window (a later slice); remove the unbounded source, or wait for the windowing slice",
                ),
            );
        }
    }
    None
}

proof fn lemma_stuck_stays(tag: Seq<bool>, blocking: Seq<bool>, n: nat, m: nat)
    requires
        n <= m,
        stuck(tag, blocking, n) is Some,
    ensures
        stuck(tag, blocking, m) == stuck(tag, blocking, n),
    decreases m - n,
{
    if n < m {
        lemma_stuck_stays(tag, blocking, n, (m - 1) as nat);
    }
}

/// The event of a value hole that nothing was bound to.
pub fn unbound_hole(name: &str) -> (r: ErrorEvent)
    ensures
        r@ == (EventV {
            severity: Severity::Recoverable,
            scope: ErrorScope::Graph,
            message: "value hole $"@ + name@
                + " is unbound (no binding supplied) \u{2014} it evaluates to null; bind it at the call site (e.g. `| flow "@
                + name@ + "=\u{2026}`)"@,
            node: None,
            chunk: None,
        }),
{
    let mut text: String = message3(
        "value hole $",
        name,
        " is unbound (no binding supplied) \u{2014} it evaluates to null; bind it at the call site (e.g. `| flow ",
    );
    text.push_str(name);
    text.push_str("=\u{2026}`)");
    ErrorEvent::new(Severity::Recoverable, ErrorScope::Graph, text)
}

/// The event of rows whose place could not be computed, and the partition that
/// they went to.
pub fn route_eval_event(n: u64, partition: &str, label: String) -> (r: ErrorEvent)
    ensures
        r@ == (EventV {
            severity: Severity::Recoverable,
            scope: ErrorScope::Item,
            message: "save route: "@ + nat_text(n as nat)
                + " value(s) could not be evaluated in a computed placeholder; routed to the "@
                + partition@ + " partition"@,
            node: Some(label@),
            chunk: None,
        }),
{
    let mut text: String = message3(
        "save route: ",
        u64_text(n).as_str(),
        " value(s) could not be evaluated in a computed placeholder; routed to the ",
    );
    text.push_str(partition);
    text.push_str(" partition");
    ErrorEvent::new(Severity::Recoverable, ErrorScope::Item, text).at_node(label)
}

/// The event of a file that could not be written.
pub fn cannot_write(path: &str, cause: &str, label: String) -> (r: ErrorEvent)
    ensures
        r@ == (EventV {
            severity: Severity::Critical,
            scope: ErrorScope::Graph,
            message: "cannot write '"@ + path@ + "': "@ + cause@,
            node: Some(label@),
            chunk: None,
        }),
{
    let mut text: String = message3("cannot write '", path, "': ");
    text.push_str(cause);
    ErrorEvent::new(Severity::Critical, ErrorScope::Graph, text).at_node(label)
}

// ----------------------------------------------------------------- attempts

/// A way of running a flow. All but the last may turn out not to fit.
#[derive(Clone, Copy, Debug, PartialEq, Eq, Structural)]
pub enum Attempt {
    /// Files to a group, a worker for each.
    ReadGroup,
    /// Files to a sink, a worker for each.
    ReadSink,
    /// A source in ranges to a group.
    Group,
    /// A source read whole, and then in parts to a group.
    WholeGroup,
    /// A source in ranges.
    Ranges,
    /// One pass.
    Serial,
}

/// What the choice rests on.
#[derive(Clone, Copy, Debug, PartialEq, Eq, Structural)]
pub struct Facts {
    pub read_group: bool,
    pub read_sink: bool,
    /// Whether the size of the input and the memory allow parts.
    pub parallel: bool,
    pub group: bool,
    pub whole_group: bool,
    pub preview: bool,
    /// Whether the flow has one file as its source.
    pub file_source: bool,
}

/// The list with one more where that holds.
pub open spec fn also(s: Seq<Attempt>, holds: bool, a: Attempt) -> Seq<Attempt> {
    if holds {
        s.push(a)
    } else {
        s
    }
}

/// The ways that are tried, in order: the first that fits is taken, and one pass
/// always fits.
pub open spec fn ways(f: Facts) -> Seq<Attempt> {
    let a = also(Seq::empty(), f.read_group, Attempt::ReadGroup);
    let b = also(a, f.read_sink, Attempt::ReadSink);
    let c = also(b, f.parallel && f.group, Attempt::Group);
    let d = also(c, f.parallel && f.whole_group, Attempt::WholeGroup);
    also(d, f.parallel, Attempt::Ranges).push(Attempt::Serial)
}

/// The ways that are tried, in order (see [`ways`]).
pub fn attempts(f: &Facts) -> (r: Vec<Attempt>)
    ensures
        r@ == ways(*f),
{
    let mut out: Vec<Attempt> = Vec::new();
    assert(out@ =~= Seq::empty());
    if f.read_group {
        out.push(Attempt::ReadGroup);
    }
    if f.read_sink {
        out.push(Attempt::ReadSink);
    }
    if f.parallel && f.group {
        out.push(Attempt::Group);
    }
    if f.parallel && f.whole_group {
        out.push(Attempt::WholeGroup);
    }
    if f.parallel {
        out.push(Attempt::Ranges);
    }
    out.push(Attempt::Serial);
    out
}

/// What the run says of the way that was taken. A way over many files says so; of
/// the others something is said where the flow has one file as its source.
pub open spec fn strategy_of(a: Attempt, f: Facts, note: Seq<char>) -> Option<Seq<char>> {
    if a is ReadGroup {
        Some("parallel read group-by (per-file workers)"@)
    } else if a is ReadSink {
        Some("parallel read sink (per-file segments)"@)
    } else if !f.file_source {
        None
    } else {
        Some(
            match a {
                Attempt::Group => note + "; parallel group-by"@,
                Attempt::WholeGroup => note + "; unbounded group-by (materialized)"@,
                Attempt::Serial => if !f.parallel {
                    note
                } else if f.preview {
                    note + "; preview \u{2192} serial"@
                } else {
                    note + "; not partitionable \u{2192} serial"@
                },
                _ => note,
            },
        )
    }
}

/// What the run says of the way that was taken (see [`strategy_of`]).
pub fn strategy(a: Attempt, f: &Facts, note: &str) -> (r: Option<String>)
    ensures
        match (r, strategy_of(a, *f, note@)) {
            (Some(t), Some(s)) => t@ == s,
            (None, None) => true,
            _ => false,
        },
{
    if matches!(a, Attempt::ReadGroup) {
        return Some(owned("parallel read group-by (per-file workers)"));
    }
    if matches!(a, Attempt::ReadSink) {
        return Some(owned("parallel read sink (per-file segments)"));
    }
    if !f.file_source {
        return None;
    }
    let mut t: String = owned(note);
    match a {
        Attempt::ReadGroup | Attempt::ReadSink => {},
        Attempt::Group => {
            t.push_str("; parallel group-by");
        },
        Attempt::WholeGroup => {
            t.push_str("; unbounded group-by (materialized)");
        },
        Attempt::Ranges => {},
        Attempt::Serial => {
            if f.parallel {
                if f.preview {
                    t.push_str("; preview \u{2192} serial");
                } else {
                    t.push_str("; not partitionable \u{2192} serial");
                }
            }
        },
    }
    Some(t)
}

// ------------------------------------------------------------------ results

/// Two workers put together, the second later.
pub open spec fn joined_two(a: WorkerV, b: WorkerV, log: Log) -> WorkerV {
    WorkerV {
        groups: merged(a.groups, b.groups, log),
        events: a.events + b.events,
        next: a.next,
        rows: tally(a.rows, b.rows as nat),
    }
}

/// A worker with the workers from `from` up to `to` behind it, in order.
pub open spec fn joined(a: WorkerV, parts: Seq<Worker>, from: int, to: int, log: Log) -> WorkerV
    decreases to - from,
{
    if from >= to {
        a
    } else {
        joined_two(joined(a, parts, from, to - 1, log), parts[to - 1]@, log)
    }
}

/// Workers that are put together one after the other.
pub struct Joining {
    pub worker: Worker,
    /// How many of the later ones are in.
    pub done: usize,
}

impl Joining {
    /// Puts in the later workers that are not in yet. A question leaves out the
    /// worker that it came from and those behind it; the next call goes on there.
    pub fn join_all(&mut self, parts: &Vec<Worker>, host: &Answers) -> (r: Result<(), Ask>)
        requires
            old(self).worker.wf(),
            old(self).done <= parts@.len(),
            forall|i: int|
                0 <= i < parts@.len() ==> (#[trigger] parts@[i]).wf() && old(
                    self,
                ).worker.group.like(&parts@[i].group),
        ensures
            final(self).worker.wf(),
            final(self).worker.group.keys == old(self).worker.group.keys,
            final(self).worker.group.aggs == old(self).worker.group.aggs,
            final(self).worker.group.emitted == old(self).worker.group.emitted,
            final(self).worker.path == old(self).worker.path,
            final(self).worker.label == old(self).worker.label,
            final(self).worker@ == joined(
                old(self).worker@,
                parts@,
                old(self).done as int,
                final(self).done as int,
                host@,
            ),
            old(self).done <= final(self).done <= parts@.len(),
            match r {
                Ok(_) => final(self).done == parts@.len(),
                Err(a) => final(self).done < parts@.len() && exists|k: Seq<char>|
                    #[trigger] final(self).worker@.groups.dom().contains(k)
                        && parts@[final(self).done as int]@.groups.dom().contains(k) && merge_asks(
                        final(self).worker@.groups[k],
                        parts@[final(self).done as int]@.groups[k],
                        a@,
                        host@,
                    ),
            },
    {
        let ghost first = self.worker@;
        let ghost start = self.done as int;
        while self.done < parts.len()
            invariant
                first == old(self).worker@,
                start == old(self).done,
                start <= self.done <= parts@.len(),
                self.worker.wf(),
                self.worker.group.keys == old(self).worker.group.keys,
                self.worker.group.aggs == old(self).worker.group.aggs,
                self.worker.group.emitted == old(self).worker.group.emitted,
                self.worker.path == old(self).worker.path,
                self.worker.label == old(self).worker.label,
                forall|i: int|
                    0 <= i < parts@.len() ==> (#[trigger] parts@[i]).wf() && old(
                        self,
                    ).worker.group.like(&parts@[i].group),
                self.worker@ == joined(first, parts@, start, self.done as int, host@),
            decreases parts@.len() - self.done,
        {
            assert(parts@[self.done as int].wf());
            match self.worker.join(&parts[self.done], host) {
                Err(a) => {
                    return Err(a);
                },
                Ok(_) => {
                    self.done = self.done + 1;
                },
            }
        }
        Ok(())
    }
}

/// What passed the nodes of a group run in parts: the source and the group saw
/// the rows of all workers, and the group and the sink those that came out.
pub open spec fn group_counts(
    n: nat,
    src: int,
    group: int,
    sink: Option<NodeId>,
    total: u64,
    rows_out: u64,
) -> Seq<Counts> {
    let none = Seq::new(n, |i: int| Counts { finished: true, ..Counts::none() });
    let a = none.update(src, Counts { rows_out: total, ..none[src] });
    let b = a.update(group, Counts { rows_in: total, rows_out, ..a[group] });
    match sink {
        Some(s) => b.update(s as int, Counts { rows_in: rows_out, ..b[s as int] }),
        None => b,
    }
}

/// The result of a group run in parts: `rows` are the rows of each worker, `out`
/// the chunks of the group, which are captured where no sink takes them. A fatal
/// event halts the run.
pub fn group_result(
    g: &PlanGraph,
    src: NodeId,
    group: NodeId,
    sink: Option<NodeId>,
    total: u64,
    errors: Vec<ErrorEvent>,
    out: Vec<Chunk>,
    rows: &Vec<u64>,
) -> (r: RunResult)
    requires
        src < g.nodes@.len(),
        group < g.nodes@.len(),
        sink matches Some(s) ==> s < g.nodes@.len(),
    ensures
        r.counts@ == group_counts(
            g.nodes@.len(),
            src as int,
            group as int,
            sink,
            total,
            chunk_rows(0, batches(out@)),
        ),
        r.errors == errors,
        r.final_mode == (if any_fatal(events(errors@)) {
            Mode::Halted
        } else {
            Mode::Normal
        }),
        match sink {
            Some(_) => r.outputs@.len() == 0,
            None => outputs_view(r.outputs@) == seq![
                OutputV {
                    node_id: group,
                    label: crate::chunk::opt_text(g.nodes@[group as int].label),
                    chunks: batches(out@),
                },
            ],
        },
        r.workers@.len() == rows@.len(),
        forall|i: int|
            0 <= i < rows@.len() ==> (#[trigger] r.workers@[i]).worker == i && r.workers@[i].rows_out
                == rows@[i],
        r.first_row is None,
        r.strategy is None,
{
    let rows_out: u64 = add_rows(0, &out);
    let mut counts: Vec<Counts> = Vec::new();
    for i in 0..g.nodes.len()
        invariant
            counts@.len() == i,
            forall|k: int|
                0 <= k < i ==> (#[trigger] counts@[k]) == (Counts {
                    finished: true,
                    ..Counts::none()
                }),
    {
        let mut c: Counts = Counts::zero();
        c.finished = true;
        counts.push(c);
    }
    let mut c: Counts = counts[src];
    c.rows_out = total;
    counts.set(src, c);
    let mut c: Counts = counts[group];
    c.rows_in = total;
    c.rows_out = rows_out;
    counts.set(group, c);
    if let Some(s) = sink {
        let mut c: Counts = counts[s];
        c.rows_in = rows_out;
        counts.set(s, c);
    }
    proof {
        assert(counts@ =~= group_counts(
            g.nodes@.len(),
            src as int,
            group as int,
            sink,
            total,
            rows_out,
        ));
    }
    let mut workers: Vec<WorkerTelemetry> = Vec::new();
    for i in 0..rows.len()
        invariant
            workers@.len() == i,
            forall|k: int|
                0 <= k < i ==> (#[trigger] workers@[k]).worker == k && workers@[k].rows_out
                    == rows@[k],
    {
        workers.push(WorkerTelemetry { worker: i, rows_out: rows[i] });
    }
    assert(events(errors@).skip(0) =~= events(errors@));
    let final_mode: Mode = if has_fatal(&errors, 0) {
        Mode::Halted
    } else {
        Mode::Normal
    };
    let mut outputs: Vec<Output> = Vec::new();
    if sink.is_none() {
        let o = Output {
            node_id: group,
            label: crate::chunk::dup_opt_text(&g.nodes[group].label),
            chunks: out,
        };
        outputs.push(o);
        assert(outputs_view(outputs@) =~= seq![o@]);
    }
    RunResult { counts, errors, final_mode, outputs, workers, first_row: None, strategy: None }
}

/// What a count comes to over the workers, where `col` has one count for each
/// node of each worker.
pub open spec fn over_workers(col: Seq<u64>, workers: nat, nodes: nat, id: int) -> u64
    decreases workers,
{
    if workers == 0 {
        0
    } else {
        tally(
            over_workers(col, (workers - 1) as nat, nodes, id),
            col[(workers - 1) * nodes + id] as nat,
        )
    }
}

/// What a count comes to over the workers (see [`over_workers`]).
pub fn sum_workers(col: &Vec<u64>, workers: usize, nodes: usize, id: NodeId) -> (r: u64)
    requires
        id < nodes,
        col@.len() == workers * nodes,
    ensures
        r == over_workers(col@, workers as nat, nodes as nat, id as int),
{
    let mut sum: u64 = 0;
    let mut at: usize = id;
    assert(0 * nodes == 0) by (nonlinear_arith);
    for w in 0..workers
        invariant
            id < nodes,
            col@.len() == workers * nodes,
            w < workers ==> at == w * nodes + id,
            sum == over_workers(col@, w as nat, nodes as nat, id as int),
    {
        let size: usize = col.len();
        proof {
            assert(w * nodes + id < workers * nodes) by (nonlinear_arith)
                requires
                    w < workers,
                    id < nodes,
            ;
            assert((w + 1) * nodes == w * nodes + nodes) by (nonlinear_arith);
            if w + 1 < workers {
                assert((w + 1) * nodes + id < workers * nodes) by (nonlinear_arith)
                    requires
                        w + 1 < workers,
                        id < nodes,
                ;
            }
        }
        sum = sum.saturating_add(col[at]);
        if w + 1 < workers {
            at = at + nodes;
        }
    }
    sum
}

// ------------------------------------------------------------- output parts

/// The end of the first line of a part, behind its newline.
pub open spec fn line_end(p: Seq<u8>, i: int) -> int
    decreases p.len() - i,
{
    if i < 0 || i >= p.len() {
        p.len() as int
    } else if p[i] == 10 {
        i + 1
    } else {
        line_end(p, i + 1)
    }
}

/// The first `n` parts of an output behind one another. Where each starts with a
/// header line, that of the first part that is not empty stays and the others go.
pub open spec fn parts_joined(parts: Seq<Seq<u8>>, headers: bool, n: nat) -> Seq<u8>
    decreases n,
{
    if n == 0 {
        Seq::empty()
    } else {
        let done = parts_joined(parts, headers, (n - 1) as nat);
        let p = parts[n - 1];
        if headers && headed(parts, (n - 1) as nat) {
            done + p.skip(line_end(p, 0))
        } else {
            done + p
        }
    }
}

/// Whether one of the first `n` parts is not empty.
pub open spec fn headed(parts: Seq<Seq<u8>>, n: nat) -> bool {
    exists|i: int| 0 <= i < n && (#[trigger] parts[i]).len() > 0
}

/// What parts are.
pub open spec fn part_views(parts: Seq<Vec<u8>>) -> Seq<Seq<u8>> {
    Seq::new(parts.len(), |i: int| parts[i]@)
}

fn first_line(p: &Vec<u8>) -> (r: usize)
    ensures
        r == line_end(p@, 0),
        r <= p@.len(),
{
    let size: usize = p.len();
    for i in 0..size
        invariant
            size == p@.len(),
            line_end(p@, 0) == line_end(p@, i as int),
    {
        if p[i] == 10 {
            return i + 1;
        }
    }
    size
}

/// The parts of an output behind one another (see [`parts_joined`]).
pub fn concat_parts(parts: &Vec<Vec<u8>>, headers: bool) -> (r: Vec<u8>)
    ensures
        r@ == parts_joined(part_views(parts@), headers, parts@.len()),
{
    let ghost pv = part_views(parts@);
    let mut out: Vec<u8> = Vec::new();
    let mut header_done: bool = false;
    assert(out@ =~= Seq::empty());
    for i in 0..parts.len()
        invariant
            pv == part_views(parts@),
            out@ == parts_joined(pv, headers, i as nat),
            header_done == headed(pv, i as nat),
    {
        let p: &Vec<u8> = &parts[i];
        let ghost was = out@;
        assert(pv[i as int] == p@);
        let from: usize = if headers && header_done {
            first_line(p)
        } else {
            0
        };
        let size: usize = p.len();
        assert(out@ =~= was + p@.subrange(from as int, from as int));
        for k in from..size
            invariant
                size == p@.len(),
                from <= size,
                out@ == was + p@.subrange(from as int, k as int),
        {
            out.push(p[k]);
            assert(out@ =~= was + p@.subrange(from as int, k + 1));
        }
        assert(p@.subrange(from as int, size as int) =~= p@.skip(from as int));
        assert(p@.skip(0) =~= p@);
        proof {
            if headed(pv, (i + 1) as nat) {
                let x = choose|x: int| 0 <= x < i + 1 && (#[trigger] pv[x]).len() > 0;
                if x < i {
                    assert(pv[x].len() > 0);
                }
            }
            if headed(pv, i as nat) {
                let x = choose|x: int| 0 <= x < i && (#[trigger] pv[x]).len() > 0;
                assert(pv[x].len() > 0);
            }
        }
        if size > 0 {
            header_done = true;
            assert(pv[i as int].len() > 0);
        }
    }
    out
}

/// Bodies behind one another.
pub open spec fn behind(bodies: Seq<Seq<u8>>) -> Seq<u8>
    decreases bodies.len(),
{
    if bodies.len() == 0 {
        Seq::empty()
    } else {
        behind(bodies.drop_last()) + bodies.last()
    }
}

/// The first line of a text that starts with a line is that line.
pub proof fn lemma_line_end(h: Seq<u8>, b: Seq<u8>, i: int)
    requires
        0 <= i < h.len(),
        h.last() == 10,
        forall|k: int| 0 <= k < h.len() - 1 ==> (#[trigger] h[k]) != 10,
    ensures
        line_end(h + b, i) == h.len(),
    decreases h.len() - i,
{
    assert((h + b)[i] == h[i]);
    if i < h.len() - 1 {
        lemma_line_end(h, b, i + 1);
    }
}

/// An output that workers wrote in parts is the one that one writer writes: where
/// each part starts with the same header line, the header stands once, in front of
/// all bodies in order.
pub proof fn lemma_parts_are_one(header: Seq<u8>, bodies: Seq<Seq<u8>>)
    requires
        header.len() > 0,
        header.last() == 10,
        forall|k: int| 0 <= k < header.len() - 1 ==> (#[trigger] header[k]) != 10,
    ensures
        ({
            let parts = Seq::new(bodies.len(), |i: int| header + bodies[i]);
            parts_joined(parts, true, parts.len()) == if bodies.len() == 0 {
                Seq::empty()
            } else {
                header + behind(bodies)
            }
        }),
    decreases bodies.len(),
{
    let parts = Seq::new(bodies.len(), |i: int| header + bodies[i]);
    if bodies.len() > 0 {
        let less = bodies.drop_last();
        let before = Seq::new(less.len(), |i: int| header + less[i]);
        lemma_parts_are_one(header, less);
        lemma_joined_prefix(parts, before, true, less.len());
        let p = parts[bodies.len() - 1];
        lemma_line_end(header, bodies.last(), 0);
        assert(p.skip(header.len() as int) =~= bodies.last());
        if less.len() > 0 {
            assert(parts[0].len() > 0);
            assert(headed(parts, less.len()));
            assert(header + behind(less) + bodies.last() =~= header + behind(bodies));
        } else {
            assert(!headed(parts, 0));
            assert(behind(less) =~= Seq::empty());
            assert(Seq::<u8>::empty() + (header + bodies.last()) =~= header + behind(bodies));
        }
    }
}

proof fn lemma_joined_prefix(a: Seq<Seq<u8>>, b: Seq<Seq<u8>>, headers: bool, n: nat)
    requires
        n <= a.len(),
        n <= b.len(),
        forall|i: int| 0 <= i < n ==> (#[trigger] a[i]) == b[i],
    ensures
        parts_joined(a, headers, n) == parts_joined(b, headers, n),
        headed(a, n) == headed(b, n),
    decreases n,
{
    if n > 0 {
        lemma_joined_prefix(a, b, headers, (n - 1) as nat);
        assert(a[n - 1] == b[n - 1]);
    }
    if headed(a, n) {
        let i = choose|i: int| 0 <= i < n && (#[trigger] a[i]).len() > 0;
        assert(b[i].len() > 0);
    }
    if headed(b, n) {
        let i = choose|i: int| 0 <= i < n && (#[trigger] b[i]).len() > 0;
        assert(a[i].len() > 0);
    }
}

} // verus!
