//! What a plan refuses, what a flow does with events, chunks and ended nodes, and
//! what the parts of a run come to.
use vstd::prelude::*;
use crate::chunk::{index_in, lemma_index_in, Batch, Field, Mode};
use crate::engine::{at_node, counts_joined, gravity, outputs_view, resource_column, run_start, uris, with_commas, with_part, OutputV, RunResult, TotalV};
use crate::event::{any_fatal, events, CtxV, EventV, Severity};
use crate::flow::{all_hooked, hooked, kept_at, noted, retired, rows_of, taken, tally, triggered, work, Counts, FlowV};
use crate::plan::{ins, node_label, outs, Hook, Node, NodeId, PlanGraph};
use crate::source::{bad_reported, sliced};
use crate::text::nat_text;
use crate::validate::{first_missing, missing, missing_at, missing_in, refusal, routed, routes, RefusalV};
use crate::value::Datum;

verus! {

// ---------------------------------------------------------------------- orders

/// The modes of a flow, from the least to the gravest.
pub proof fn lemma_modes_graver()
    ensures
        gravity(Mode::Normal) < gravity(Mode::Degraded) < gravity(Mode::Recovery) < gravity(
            Mode::Isolation,
        ) < gravity(Mode::Emergency) < gravity(Mode::Halted),
{
}

/// The severities of events, from the least to the gravest.
pub proof fn lemma_severities_graver()
    ensures
        Severity::Info.level() < Severity::Warn.level() < Severity::Recoverable.level()
            < Severity::Critical.level() < Severity::Fatal.level(),
{
}

// ----------------------------------------------------------------------- plans

/// The consumers of a node are the targets of the edges from it, and its inputs the
/// origins of the edges to it: all of them, and no others.
pub proof fn lemma_edges_lead(edges: Seq<(NodeId, NodeId)>, n: NodeId, m: NodeId)
    ensures
        outs(edges, n as int).contains(m) <==> edges.contains((n, m)),
        ins(edges, m as int).contains(n) <==> edges.contains((n, m)),
        outs(edges, n as int).len() <= edges.len(),
        ins(edges, m as int).len() <= edges.len(),
    decreases edges.len(),
{
    if edges.len() > 0 {
        let up = edges.drop_last();
        lemma_edges_lead(up, n, m);
        let last = edges.last();
        assert(edges.contains((n, m)) <==> up.contains((n, m)) || last == (n, m)) by {
            if edges.contains((n, m)) {
                let i = choose|i: int| 0 <= i < edges.len() && edges[i] == (n, m);
                if i < up.len() {
                    assert(up[i] == (n, m));
                }
            }
            if up.contains((n, m)) {
                let i = choose|i: int| 0 <= i < up.len() && up[i] == (n, m);
                assert(edges[i] == (n, m));
            }
            if last == (n, m) {
                assert(edges[edges.len() - 1] == (n, m));
            }
        }
        let (o, p) = (outs(edges, n as int), outs(up, n as int));
        if last.0 == n {
            assert(o.contains(m) <==> p.contains(m) || last.1 == m) by {
                if o.contains(m) {
                    let i = choose|i: int| 0 <= i < o.len() && o[i] == m;
                    if i < p.len() {
                        assert(p[i] == m);
                    }
                }
                if p.contains(m) {
                    let i = choose|i: int| 0 <= i < p.len() && p[i] == m;
                    assert(o[i] == m);
                }
                if last.1 == m {
                    assert(o[p.len() as int] == m);
                }
            }
        }
        let (x, y) = (ins(edges, m as int), ins(up, m as int));
        if last.1 == m {
            assert(x.contains(n) <==> y.contains(n) || last.0 == n) by {
                if x.contains(n) {
                    let i = choose|i: int| 0 <= i < x.len() && x[i] == n;
                    if i < y.len() {
                        assert(y[i] == n);
                    }
                }
                if y.contains(n) {
                    let i = choose|i: int| 0 <= i < y.len() && y[i] == n;
                    assert(x[i] == n);
                }
                if last.0 == n {
                    assert(x[y.len() as int] == n);
                }
            }
        }
    }
}

/// A node is called by its label, or by its kind, a hash and its number.
pub proof fn lemma_node_called(n: Node)
    ensures
        n.label matches Some(l) ==> node_label(n) == l@,
        n.label is None ==> node_label(n) == n.kind@ + seq!['#'] + nat_text(n.id as nat),
{
}

proof fn lemma_routes_first(hooks: Seq<Hook>)
    ensures
        match routes(hooks) {
            Some(i) => 0 <= i < hooks.len() && hooks[i].action is Route && forall|k: int|
                0 <= k < i ==> !((#[trigger] hooks[k]).action is Route),
            None => forall|k: int| 0 <= k < hooks.len() ==> !((#[trigger] hooks[k]).action is Route),
        },
    decreases hooks.len(),
{
    if hooks.len() > 0 {
        let up = hooks.drop_last();
        lemma_routes_first(up);
        assert forall|k: int| 0 <= k < up.len() implies up[k] == #[trigger] hooks[k] by {}
    }
}

proof fn lemma_routed_none(nodes: Seq<Node>, n: nat)
    requires
        n <= nodes.len(),
    ensures
        routed(nodes, n) is None <==> forall|k: int, i: int|
            0 <= k < n && 0 <= i < nodes[k].hooks@.len() ==> !((
            #[trigger] nodes[k].hooks@[i]).action is Route),
    decreases n,
{
    if n > 0 {
        lemma_routed_none(nodes, (n - 1) as nat);
        lemma_routes_first(nodes[n - 1].hooks@);
        if routed(nodes, (n - 1) as nat) is Some {
            let (k, i) = choose|k: int, i: int|
                0 <= k < n - 1 && 0 <= i < nodes[k].hooks@.len() && (
                #[trigger] nodes[k].hooks@[i]).action is Route;
            assert(nodes[k].hooks@[i].action is Route);
        } else if routes(nodes[n - 1].hooks@) is Some {
            let i = routes(nodes[n - 1].hooks@)->0;
            assert(nodes[n - 1].hooks@[i].action is Route);
        }
    }
}

proof fn lemma_missing_first(
    g: PlanGraph,
    schemas: Seq<Option<Vec<Field>>>,
    node: int,
    slot: int,
    names: Seq<Seq<char>>,
)
    ensures
        match first_missing(g, schemas, node, slot, names) {
            Some(i) => 0 <= i < names.len() && missing(g, schemas, node, slot, names[i]) && forall|k: int|
                0 <= k < i ==> !missing(g, schemas, node, slot, #[trigger] names[k]),
            None => forall|k: int|
                0 <= k < names.len() ==> !missing(g, schemas, node, slot, #[trigger] names[k]),
        },
    decreases names.len(),
{
    if names.len() > 0 {
        let up = names.drop_last();
        lemma_missing_first(g, schemas, node, slot, up);
        assert forall|k: int| 0 <= k < up.len() implies up[k] == #[trigger] names[k] by {}
    }
}

/// No node reads a column that a declared schema of its input lacks.
pub open spec fn all_found(g: PlanGraph, schemas: Seq<Option<Vec<Field>>>, n: nat) -> bool {
    forall|k: int|
        0 <= k < n ==> {
            let needs = crate::validate::reads((#[trigger] g.nodes@[k]).op);
            &&& forall|i: int|
                0 <= i < needs.0.len() ==> !missing(g, schemas, k, 0, #[trigger] needs.0[i])
            &&& forall|i: int|
                0 <= i < needs.1.len() ==> !missing(g, schemas, k, 1, #[trigger] needs.1[i])
        }
}

proof fn lemma_missing_none(g: PlanGraph, schemas: Seq<Option<Vec<Field>>>, n: nat)
    requires
        n <= g.nodes@.len(),
    ensures
        missing_in(g, schemas, n) is None <==> all_found(g, schemas, n),
    decreases n,
{
    if n > 0 {
        lemma_missing_none(g, schemas, (n - 1) as nat);
        let needs = crate::validate::reads(g.nodes@[n - 1].op);
        lemma_missing_first(g, schemas, n - 1, 0, needs.0);
        lemma_missing_first(g, schemas, n - 1, 1, needs.1);
        if missing_in(g, schemas, n) is None {
            assert forall|k: int| 0 <= k < n implies {
                let needs = crate::validate::reads((#[trigger] g.nodes@[k]).op);
                &&& forall|i: int|
                    0 <= i < needs.0.len() ==> !missing(g, schemas, k, 0, #[trigger] needs.0[i])
                &&& forall|i: int|
                    0 <= i < needs.1.len() ==> !missing(g, schemas, k, 1, #[trigger] needs.1[i])
            } by {
                if k < n - 1 {
                    assert(all_found(g, schemas, (n - 1) as nat));
                }
            }
        }
        if all_found(g, schemas, n) {
            let op = g.nodes@[n - 1].op;
            assert(all_found(g, schemas, (n - 1) as nat));
            assert(missing_at(g, schemas, n - 1) is None);
        }
    }
}

/// A plan is run just where it has a node, no hook of it routes, and no node reads a
/// column that a declared schema lacks.
pub proof fn lemma_plan_refused(g: PlanGraph, schemas: Seq<Option<Vec<Field>>>)
    ensures
        refusal(g, schemas) is None <==> {
            &&& g.nodes@.len() > 0
            &&& forall|k: int, i: int|
                0 <= k < g.nodes@.len() && 0 <= i < g.nodes@[k].hooks@.len() ==> !((
                #[trigger] g.nodes@[k].hooks@[i]).action is Route)
            &&& all_found(g, schemas, g.nodes@.len())
        },
        g.nodes@.len() == 0 <==> refusal(g, schemas) == Some(RefusalV::Empty),
{
    lemma_routed_none(g.nodes@, g.nodes@.len());
    lemma_missing_none(g, schemas, g.nodes@.len());
}

/// A column is missing where the schema of the input is declared and has no field of
/// that name.
pub proof fn lemma_missing_means(
    g: PlanGraph,
    schemas: Seq<Option<Vec<Field>>>,
    node: int,
    slot: int,
    col: Seq<char>,
    fields: Vec<Field>,
)
    requires
        0 <= slot < g.inputs(node).len(),
        schemas[g.inputs(node)[slot] as int] == Some(fields),
    ensures
        missing(g, schemas, node, slot, col) <==> forall|i: int|
            0 <= i < fields@.len() ==> (#[trigger] fields@[i])@.name != col,
{
    let v = crate::chunk::fields_view(fields@);
    lemma_index_in(v, col);
    assert forall|i: int| 0 <= i < v.len() implies v[i] == (#[trigger] fields@[i])@ by {}
    if let Some(i) = index_in(v, col) {
        assert(fields@[i]@.name == col);
    }
    if index_in(v, col) is None {
        assert forall|i: int| 0 <= i < fields@.len() implies (#[trigger] fields@[i])@.name != col by {
            assert(v[i] == fields@[i]@);
        }
    }
}

// ----------------------------------------------------------------------- flows

/// A visit takes the chunk that came first to the node, and counts it and its rows;
/// what waits elsewhere stays.
pub proof fn lemma_first_chunk_taken(f: FlowV, n: NodeId, k: int)
    requires
        n < f.queues.len(),
        f.queues.len() == f.counts.len(),
        f.queues[n as int].len() > 0,
        0 <= k < f.queues.len(),
    ensures
        ({
            let t = taken(f, n);
            let q = f.queues[n as int];
            &&& t.queues[n as int].len() == q.len() - 1
            &&& forall|i: int| 0 <= i < q.len() - 1 ==> #[trigger] t.queues[n as int][i] == q[i + 1]
            &&& k != n ==> t.queues[k] == f.queues[k] && t.counts[k] == f.counts[k]
            &&& f.counts[n as int].chunks_in < u64::MAX ==> t.counts[n as int].chunks_in
                == f.counts[n as int].chunks_in + 1
            &&& f.counts[n as int].rows_in + q[0].chunk.len <= u64::MAX ==> t.counts[n as int].rows_in
                == f.counts[n as int].rows_in + q[0].chunk.len
        }),
{
}

/// No node has a hook.
pub open spec fn unhooked(nodes: Seq<Node>) -> bool {
    forall|i: int| 0 <= i < nodes.len() ==> (#[trigger] nodes[i]).hooks@.len() == 0
}

proof fn lemma_unhooked(nodes: Seq<Node>, k: nat, ev: Seq<EventV>, mode: Mode)
    requires
        unhooked(nodes),
        k <= nodes.len(),
    ensures
        all_hooked(nodes, k, ev, mode) == (mode, Seq::<EventV>::empty()),
    decreases k,
{
    if k > 0 {
        lemma_unhooked(nodes, (k - 1) as nat, ev, mode);
        assert(nodes[k - 1].hooks@.len() == 0);
    }
}

/// The events of a visit stand behind those before, in order; a fatal one halts the
/// flow, and no other does; without hooks the mode changes for nothing else.
pub proof fn lemma_events_noted(f: FlowV, g: PlanGraph, n: NodeId, ev: Seq<EventV>)
    requires
        n < f.counts.len(),
    ensures
        ({
            let t = noted(f, g, n, ev);
            &&& t.errors.len() >= f.errors.len() + ev.len()
            &&& t.errors.take((f.errors.len() + ev.len()) as int) == f.errors + ev
            &&& t.fatal == (f.fatal || exists|i: int|
                0 <= i < ev.len() && (#[trigger] ev[i]).severity is Fatal)
            &&& unhooked(g.nodes@) ==> t.errors == f.errors + ev
            &&& unhooked(g.nodes@) && any_fatal(ev) ==> t.mode == Mode::Halted
            &&& unhooked(g.nodes@) && !any_fatal(ev) ==> t.mode == f.mode
            &&& f.counts[n as int].errors + ev.len() <= u64::MAX ==> t.counts[n as int].errors
                == f.counts[n as int].errors + ev.len()
            &&& t.queues == f.queues && t.captured == f.captured && t.done == f.done
        }),
{
    let t = noted(f, g, n, ev);
    let m = if any_fatal(ev) {
        Mode::Halted
    } else {
        f.mode
    };
    if unhooked(g.nodes@) {
        lemma_unhooked(g.nodes@, g.nodes@.len(), ev, m);
    }
    let extra = all_hooked(g.nodes@, g.nodes@.len(), ev, m).1;
    if ev.len() > 0 {
        assert((f.errors + ev + extra).take((f.errors.len() + ev.len()) as int) =~= f.errors + ev);
        if unhooked(g.nodes@) {
            assert(f.errors + ev + extra =~= f.errors + ev);
        }
    } else {
        assert(f.errors + ev =~= f.errors);
        assert(f.errors.take(f.errors.len() as int) =~= f.errors);
    }
}

/// A hook on errors responds where an event is as grave as it asks for: a transition
/// changes the mode, a log adds one note, and neither does the other's. Where no
/// event is, nothing happens.
pub proof fn lemma_hook_responds(n: Node, h: Hook, ev: Seq<EventV>, mode: Mode, before: Seq<EventV>)
    ensures
        ({
            let grave = h.event is Error && exists|i: int|
                0 <= i < ev.len() && (h.min_severity matches Some(m) ==> (
                #[trigger] ev[i]).severity.level() >= m.level());
            let (after, notes) = hooked(n, h, ev, (mode, before));
            &&& !grave ==> after == mode && notes == before
            &&& grave && h.action is Transition ==> after == h.action->Transition_0 && notes == before
            &&& grave && h.action is Log ==> after == mode && notes.len() == before.len() + 1
                && notes.drop_last() == before && notes.last().severity == Severity::Info
                && notes.last().message == "log: "@ + h.action->Log_0@ && notes.last().node == Some(
                node_label(n),
            )
        }),
{
    let (after, notes) = hooked(n, h, ev, (mode, before));
    if h.action is Log {
        assert(notes == before || notes.drop_last() =~= before);
    }
    if triggered(h, ev) {
        let i = choose|i: int|
            0 <= i < ev.len() && crate::flow::at_least(#[trigger] ev[i], h.min_severity);
        assert(h.min_severity matches Some(m) ==> ev[i].severity.level() >= m.level());
    }
    if h.event is Error && exists|i: int|
        0 <= i < ev.len() && (h.min_severity matches Some(m) ==> (#[trigger] ev[i]).severity.level()
            >= m.level()) {
        let i = choose|i: int|
            0 <= i < ev.len() && (h.min_severity matches Some(m) ==> (
            #[trigger] ev[i]).severity.level() >= m.level());
        assert(crate::flow::at_least(ev[i], h.min_severity));
    }
}

/// What a node that feeds nothing produces is captured behind what it captured
/// before: all of a chunk without a cap; under a cap its first rows, as far as there
/// is room, and then the flow says that rows were left out.
pub proof fn lemma_capture_keeps(f: FlowV, n: NodeId, b: Batch)
    requires
        n < f.captured.len(),
        b.wf(),
        b.len <= usize::MAX,
        f.cap matches Some(c) ==> rows_of(f.captured[n as int]) <= c,
    ensures
        ({
            let t = kept_at(f, n, b);
            let (old, new) = (f.captured[n as int], t.captured[n as int]);
            let have = rows_of(old);
            &&& f.cap is None ==> new == old.push(b) && t.truncated == f.truncated
            &&& f.cap matches Some(c) ==> {
                &&& have + b.len <= c && have < c ==> new == old.push(b) && t.truncated
                    == f.truncated
                &&& have < c < have + b.len ==> {
                    &&& new.len() == old.len() + 1
                    &&& new.drop_last() == old
                    &&& new.last().len == c - have
                    &&& forall|col: int, i: int|
                        0 <= col < b.columns.len() && 0 <= i < c - have
                            ==> #[trigger] new.last().columns[col].cells[i] == b.columns[col].cells[i]
                    &&& t.truncated
                }
                &&& have >= c ==> new == old && t.truncated
            }
            &&& forall|k: int|
                0 <= k < f.captured.len() && k != n ==> #[trigger] t.captured[k] == f.captured[k]
        }),
{
    let t = kept_at(f, n, b);
    let (old, new) = (f.captured[n as int], t.captured[n as int]);
    if let Some(c) = f.cap {
        let have = rows_of(old);
        if have < c < have + b.len {
            assert(new.drop_last() =~= old);
        }
    }
}

/// A node that has ended is done, and only it; every edge from it lets its consumer
/// wait for one input less.
pub proof fn lemma_end_releases(f: FlowV, g: PlanGraph, n: NodeId, k: int)
    requires
        n < f.done.len(),
        n < f.counts.len(),
        0 <= k < f.done.len(),
    ensures
        ({
            let t = retired(f, g, n);
            &&& t.done[n as int]
            &&& k != n ==> t.done[k] == f.done[k]
            &&& t.counts[n as int].finished
            &&& t.queues == f.queues && t.captured == f.captured && t.errors == f.errors
        }),
{
}

/// What a node does next: nothing once it is done; a source is read, or closed where
/// a preview has shown enough; any other node takes a chunk where one waits, ends
/// where no input is left, and waits else.
pub proof fn lemma_work_next(f: FlowV, g: PlanGraph, sat: Seq<bool>, n: NodeId)
    requires
        n < g.nodes@.len(),
    ensures
        ({
            let op = g.nodes@[n as int].op;
            let w = work(f, g, sat, n);
            let i = n as int;
            &&& f.done[i] ==> w is Rest
            &&& !f.done[i] && op is Source && !op->Source_unbounded && !f.satisfied() ==> w is Pull
            &&& !f.done[i] && op is Source && f.satisfied() ==> w is Close
            &&& !f.done[i] && !(op is Source) && !(op is StreamRef) && f.queues[i].len() > 0
                ==> w is Process
            &&& !f.done[i] && !(op is Source) && !(op is StreamRef) && f.queues[i].len() == 0
                && f.waiting[i] == 0 ==> w is Finish
            &&& !f.done[i] && !(op is Source) && !(op is StreamRef) && f.queues[i].len() == 0
                && f.waiting[i] > 0 ==> w is Wait
        }),
{
}

// ---------------------------------------------------------------------- results

/// The counts of two parts add up, and what either has finished is finished; the mode
/// is that of the later part, unless that is normal.
pub proof fn lemma_counts_add(a: Counts, b: Counts)
    requires
        a.chunks_in + b.chunks_in <= u64::MAX,
        a.chunks_out + b.chunks_out <= u64::MAX,
        a.rows_in + b.rows_in <= u64::MAX,
        a.rows_out + b.rows_out <= u64::MAX,
        a.errors + b.errors <= u64::MAX,
    ensures
        ({
            let c = counts_joined(a, b);
            &&& c.chunks_in == a.chunks_in + b.chunks_in
            &&& c.chunks_out == a.chunks_out + b.chunks_out
            &&& c.rows_in == a.rows_in + b.rows_in
            &&& c.rows_out == a.rows_out + b.rows_out
            &&& c.errors == a.errors + b.errors
            &&& c.finished == (a.finished || b.finished)
            &&& b.mode == Mode::Normal ==> c.mode == a.mode
            &&& b.mode != Mode::Normal ==> c.mode == b.mode
        }),
{
}

/// A count never falls, and stops at its largest value.
pub proof fn lemma_tally_counts(a: u64, more: nat)
    ensures
        a + more <= u64::MAX ==> tally(a, more) == a + more,
        a + more > u64::MAX ==> tally(a, more) == u64::MAX,
{
}

/// One more part of a run: its events stand behind those before, what a node captured
/// behind what it captured before, the graver mode is the mode, and the earlier first
/// row the first.
pub proof fn lemma_part_added(t: TotalV, g: PlanGraph, r: RunResult, i: int)
    requires
        0 <= i < t.chunks.len(),
    ensures
        ({
            let u = with_part(t, g, r);
            &&& u.errors == t.errors + events(r.errors@)
            &&& u.chunks[i] == t.chunks[i] + at_node(outputs_view(r.outputs@), i)
            &&& gravity(u.mode) >= gravity(t.mode) && gravity(u.mode) >= gravity(r.final_mode)
            &&& u.mode == t.mode || u.mode == r.final_mode
            &&& t.first_row is None ==> u.first_row == r.first_row
            &&& r.first_row is None ==> u.first_row == t.first_row
            &&& t.first_row matches Some(x) ==> (r.first_row matches Some(y) ==> (u.first_row matches Some(z)
                && z <= x && z <= y && (z == x || z == y)))
            &&& u.workers.len() == t.workers.len() + 1
        }),
{
}

/// The chunks of a node among outputs are those of each output of the node, in order.
pub proof fn lemma_chunks_of_node(s: Seq<OutputV>, o: OutputV, n: int)
    ensures
        at_node(Seq::empty(), n).len() == 0,
        o.node_id == n ==> at_node(s.push(o), n) == at_node(s, n) + o.chunks,
        o.node_id != n ==> at_node(s.push(o), n) == at_node(s, n),
{
    assert(s.push(o).drop_last() =~= s);
}

/// A numeral with commas: three digits or fewer stand as they are, and further ones
/// stand before a comma and the last three.
pub proof fn lemma_commas_by_three(a: Seq<char>, b: Seq<char>)
    ensures
        b.len() <= 3 ==> with_commas(b) == b,
        a.len() > 0 && b.len() == 3 ==> with_commas(a + b) == with_commas(a) + seq![','] + b,
{
    if a.len() > 0 && b.len() == 3 {
        let s = a + b;
        assert(s.take(s.len() - 3) =~= a);
        assert(s.skip(s.len() - 3) =~= b);
    }
}

/// The runs of a division differ in length by one at most, the longer ones first;
/// the first starts at the start and the last ends at the end.
pub proof fn lemma_runs_even(total: nat, n: nat, i: nat)
    requires
        n > 0,
        i < n,
    ensures
        run_start(total, n, 0) == 0,
        run_start(total, n, n) == total,
        run_start(total, n, i + 1) - run_start(total, n, i) == total / n + if i < total % n {
            1int
        } else {
            0
        },
{
    let q = total / n;
    assert(total == q * n + total % n && 0 <= total % n < n) by (nonlinear_arith)
        requires
            n > 0,
            q == total / n,
    ;
    assert(n * q == q * n) by (nonlinear_arith);
    assert((i + 1) * q == i * q + q) by (nonlinear_arith);
    assert(0 * q == 0);
}

/// The resources of a column are those of its cells that are there, in order.
pub proof fn lemma_resources_listed(cells: Seq<Datum>, n: nat)
    requires
        0 < n <= cells.len(),
    ensures
        uris(cells, 0).len() == 0,
        cells[n - 1] matches Datum::Resource(u) ==> uris(cells, n) == uris(cells, (n - 1) as nat).push(
            u,
        ),
        !(cells[n - 1] is Resource) ==> uris(cells, n) == uris(cells, (n - 1) as nat),
{
}

/// The column of resources is the one named `path` where that holds them, else the
/// first that does; there is none where no column does.
pub proof fn lemma_resource_column_found(b: Batch)
    ensures
        match resource_column(b) {
            Some(i) => 0 <= i < b.fields.len() && b.fields[i].dtype is Resource,
            None => forall|k: int| 0 <= k < b.fields.len() ==> !((#[trigger] b.fields[k]).dtype is Resource),
        },
        forall|i: int|
            0 <= i < b.fields.len() && (#[trigger] b.fields[i]).name == "path"@ && b.fields[i].dtype is Resource
                && (forall|k: int| 0 <= k < i ==> (#[trigger] b.fields[k]).name != "path"@)
                ==> resource_column(b) == Some(i),
{
    lemma_index_in(b.fields, "path"@);
    lemma_first_resource(b, b.fields.len());
}

proof fn lemma_first_resource(b: Batch, n: nat)
    requires
        n <= b.fields.len(),
    ensures
        match crate::engine::first_resource(b, n) {
            Some(i) => 0 <= i < n && b.fields[i].dtype is Resource && forall|k: int|
                0 <= k < i ==> !((#[trigger] b.fields[k]).dtype is Resource),
            None => forall|k: int| 0 <= k < n ==> !((#[trigger] b.fields[k]).dtype is Resource),
        },
    decreases n,
{
    if n > 0 {
        lemma_first_resource(b, (n - 1) as nat);
    }
}

// ---------------------------------------------------------------------- sources

/// A slice of a chunk has the rows from one up to another, every cell with its row.
pub proof fn lemma_slice_cells(b: Batch, from: int, to: int, id: u64)
    requires
        b.wf(),
        0 <= from <= to <= b.len,
        b.len <= usize::MAX,
    ensures
        ({
            let s = sliced(b, from, to, id);
            &&& s.len == to - from
            &&& s.id == id
            &&& s.fields == b.fields
            &&& forall|c: int, i: int|
                0 <= c < b.columns.len() && 0 <= i < to - from ==> #[trigger] s.columns[c].cells[i]
                    == b.columns[c].cells[from + i]
        }),
{
}

/// Malformed lines are reported once, with their number, as a recoverable event; and
/// none is reported where there are none.
pub proof fn lemma_bad_lines_reported(c: CtxV, bad: nat)
    ensures
        bad == 0 ==> bad_reported(c, bad) == c,
        bad > 0 ==> ({
            let d = bad_reported(c, bad);
            &&& d.errors.len() == c.errors.len() + 1
            &&& d.errors.drop_last() == c.errors
            &&& d.errors.last().severity == Severity::Recoverable
            &&& d.errors.last().message == nat_text(bad) + " malformed JSONL line(s) skipped"@
        }),
{
    if bad > 0 {
        assert(bad_reported(c, bad).errors.drop_last() =~= c.errors);
    }
}

} // verus!
