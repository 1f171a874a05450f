//! The scheduler: what is where in a running flow, what each node is to do next,
//! and how a visit changes the state. The work itself is done outside.
use vstd::prelude::*;
use std::collections::VecDeque;
use crate::chunk::{batches, gathered, Batch, Chunk, Mode};
use crate::event::{any_fatal, events, has_fatal, ErrorEvent, ErrorScope, EventV, Severity};
use crate::plan::{label_of, node_label, outs, topological, before, Hook, HookAction, HookEvent, Node, NodeId, Op, PlanGraph};
use crate::rows::{all_wf, every};
use crate::text::owned;

verus! {

/// What has passed a node so far.
#[derive(Clone, Copy, Debug, PartialEq, Eq, Structural)]
pub struct Counts {
    pub chunks_in: u64,
    pub chunks_out: u64,
    pub rows_in: u64,
    pub rows_out: u64,
    pub errors: u64,
    pub mode: Mode,
    pub finished: bool,
}

impl Counts {
    /// Nothing yet.
    pub open spec fn none() -> Counts {
        Counts {
            chunks_in: 0,
            chunks_out: 0,
            rows_in: 0,
            rows_out: 0,
            errors: 0,
            mode: Mode::Normal,
            finished: false,
        }
    }

    /// Nothing yet.
    pub fn zero() -> (r: Counts)
        ensures
            r == Counts::none(),
    {
        Counts {
            chunks_in: 0,
            chunks_out: 0,
            rows_in: 0,
            rows_out: 0,
            errors: 0,
            mode: Mode::Normal,
            finished: false,
        }
    }
}

/// A count with more added, which stops at its largest value.
pub open spec fn tally(a: u64, more: nat) -> u64 {
    if a + more > u64::MAX {
        u64::MAX
    } else {
        (a + more) as u64
    }
}

/// A count with more added, which stops at its largest value.
pub fn add_to(a: u64, more: usize) -> (r: u64)
    ensures
        r == tally(a, more as nat),
{
    a.saturating_add(more as u64)
}

/// A chunk on its way, with the node that it comes from.
#[derive(Debug)]
pub struct Queued {
    pub from: NodeId,
    pub chunk: Chunk,
}

/// What a [`Queued`] is.
pub struct QueuedV {
    pub from: NodeId,
    pub chunk: Batch,
}

impl Queued {
    /// The chunk and where it comes from.
    pub open spec fn view(&self) -> QueuedV {
        QueuedV { from: self.from, chunk: self.chunk@ }
    }
}

/// The views of what waits at a node.
pub open spec fn queue_view(s: Seq<Queued>) -> Seq<QueuedV> {
    Seq::new(s.len(), |i: int| s[i]@)
}

/// A running flow.
#[derive(Debug)]
pub struct Flow {
    /// What waits at each node.
    pub queues: Vec<VecDeque<Queued>>,
    pub done: Vec<bool>,
    /// For each node, how many of its inputs have not ended.
    pub waiting: Vec<usize>,
    /// What was captured at each node that feeds nothing.
    pub captured: Vec<Vec<Chunk>>,
    pub counts: Vec<Counts>,
    pub errors: Vec<ErrorEvent>,
    pub mode: Mode,
    pub fatal: bool,
    pub rows_seen: u64,
    pub total_captured: u64,
    pub truncated: bool,
    /// The number of rows that are captured at each leaf at most.
    pub cap: Option<usize>,
    /// Must the flow read all of its input?
    pub drains: bool,
}

/// What a [`Flow`] is.
#[verifier::ext_equal]
pub struct FlowV {
    pub queues: Seq<Seq<QueuedV>>,
    pub done: Seq<bool>,
    pub waiting: Seq<usize>,
    pub captured: Seq<Seq<Batch>>,
    pub counts: Seq<Counts>,
    pub errors: Seq<EventV>,
    pub mode: Mode,
    pub fatal: bool,
    pub rows_seen: u64,
    pub total_captured: u64,
    pub truncated: bool,
    pub cap: Option<usize>,
    pub drains: bool,
}

/// How many rows the chunks have.
pub open spec fn rows_of(s: Seq<Batch>) -> nat
    decreases s.len(),
{
    if s.len() == 0 {
        0
    } else {
        rows_of(s.drop_last()) + s.last().len
    }
}

/// How many edges lead to a node from nodes that are not done.
pub open spec fn open_inputs(edges: Seq<(NodeId, NodeId)>, done: Seq<bool>, n: int) -> nat
    decreases edges.len(),
{
    if edges.len() == 0 {
        0
    } else {
        open_inputs(edges.drop_last(), done, n) + if edges.last().1 == n
            && !done[edges.last().0 as int] {
            1nat
        } else {
            0
        }
    }
}

impl FlowV {
    /// The invariant: a slot for every node; chunks are well formed; a node
    /// waits for just those of its inputs that are not done; and no leaf has
    /// captured more rows than the cap.
    pub open spec fn wf(self, g: PlanGraph) -> bool {
        let n = g.nodes@.len();
        &&& g.wf()
        &&& self.queues.len() == n
        &&& self.done.len() == n
        &&& self.waiting.len() == n
        &&& self.captured.len() == n
        &&& self.counts.len() == n
        &&& forall|k: int, i: int|
            0 <= k < n && 0 <= i < self.queues[k].len() ==> (
            #[trigger] self.queues[k][i]).chunk.wf()
        &&& forall|k: int|
            0 <= k < n ==> (#[trigger] self.waiting[k]) == open_inputs(g.edges@, self.done, k)
        &&& forall|k: int| 0 <= k < n ==> all_wf(#[trigger] self.captured[k])
        &&& self.cap matches Some(c) ==> forall|k: int|
            0 <= k < n ==> rows_of(#[trigger] self.captured[k]) <= c
    }

    /// Has a preview shown enough, so that sources need not be read on?
    pub open spec fn satisfied(self) -> bool {
        self.cap is Some && !self.drains && self.total_captured >= self.cap->Some_0
    }
}

impl Flow {
    /// The flow.
    pub open spec fn view(&self) -> FlowV {
        FlowV {
            queues: Seq::new(self.queues@.len(), |k: int| queue_view(self.queues@[k]@)),
            done: self.done@,
            waiting: self.waiting@,
            captured: Seq::new(self.captured@.len(), |k: int| batches(self.captured@[k]@)),
            counts: self.counts@,
            errors: events(self.errors@),
            mode: self.mode,
            fatal: self.fatal,
            rows_seen: self.rows_seen,
            total_captured: self.total_captured,
            truncated: self.truncated,
            cap: self.cap,
            drains: self.drains,
        }
    }
}

proof fn lemma_all_open(edges: Seq<(NodeId, NodeId)>, done: Seq<bool>, n: int)
    requires
        forall|i: int| 0 <= i < done.len() ==> !(#[trigger] done[i]),
        forall|i: int| 0 <= i < edges.len() ==> (#[trigger] edges[i]).0 < done.len(),
    ensures
        open_inputs(edges, done, n) == crate::plan::ins(edges, n).len(),
    decreases edges.len(),
{
    if edges.len() > 0 {
        assert(edges[edges.len() - 1].0 < done.len());
        assert forall|i: int| 0 <= i < edges.drop_last().len() implies (
        #[trigger] edges.drop_last()[i]).0 < done.len() by {
            assert(edges[i].0 < done.len());
        }
        lemma_all_open(edges.drop_last(), done, n);
    }
}

/// The flow before its first visit.
pub open spec fn started(g: PlanGraph, cap: Option<usize>) -> FlowV {
    let n = g.nodes@.len();
    FlowV {
        queues: Seq::new(n, |k: int| Seq::empty()),
        done: Seq::new(n, |k: int| false),
        waiting: Seq::new(n, |k: int| g.inputs(k).len() as usize),
        captured: Seq::new(n, |k: int| Seq::empty()),
        counts: Seq::new(n, |k: int| Counts::none()),
        errors: Seq::empty(),
        mode: Mode::Normal,
        fatal: false,
        rows_seen: 0,
        total_captured: 0,
        truncated: false,
        cap,
        drains: g.drains(),
    }
}

impl Flow {
    /// A flow before its first visit.
    pub fn start(g: &PlanGraph, cap: Option<usize>) -> (r: Flow)
        requires
            g.wf(),
        ensures
            r@ == started(*g, cap),
            r@.wf(*g),
    {
        let mut queues: Vec<VecDeque<Queued>> = Vec::new();
        let mut done: Vec<bool> = Vec::new();
        let mut waiting: Vec<usize> = Vec::new();
        let mut captured: Vec<Vec<Chunk>> = Vec::new();
        let mut counts: Vec<Counts> = Vec::new();
        for k in 0..g.nodes.len()
            invariant
                queues@.len() == k,
                done@.len() == k,
                waiting@.len() == k,
                captured@.len() == k,
                counts@.len() == k,
                forall|i: int| 0 <= i < k ==> (#[trigger] queues@[i])@.len() == 0,
                forall|i: int| 0 <= i < k ==> !(#[trigger] done@[i]),
                forall|i: int| 0 <= i < k ==> (#[trigger] waiting@[i]) == g.inputs(i).len(),
                forall|i: int| 0 <= i < k ==> (#[trigger] captured@[i])@.len() == 0,
                forall|i: int| 0 <= i < k ==> (#[trigger] counts@[i]) == Counts::none(),
        {
            queues.push(VecDeque::new());
            done.push(false);
            waiting.push(g.inputs_of(k).len());
            captured.push(Vec::new());
            counts.push(Counts::zero());
        }
        let r = Flow {
            queues,
            done,
            waiting,
            captured,
            counts,
            errors: Vec::new(),
            mode: Mode::Normal,
            fatal: false,
            rows_seen: 0,
            total_captured: 0,
            truncated: false,
            cap,
            drains: crate::plan::must_drain(g),
        };
        proof {
            let s = started(*g, cap);
            assert(r@.queues =~= s.queues) by {
                assert forall|k: int| 0 <= k < s.queues.len() implies r@.queues[k]
                    =~= s.queues[k] by {
                    assert(queues@[k]@.len() == 0);
                }
            }
            assert(r@.captured =~= s.captured) by {
                assert forall|k: int| 0 <= k < s.captured.len() implies r@.captured[k]
                    =~= s.captured[k] by {
                    assert(captured@[k]@.len() == 0);
                }
            }
            assert(r@.done =~= s.done);
            assert(r@.waiting =~= s.waiting);
            assert(r@.counts =~= s.counts);
            assert(r@.errors =~= s.errors);
            assert forall|k: int| 0 <= k < g.nodes@.len() implies (#[trigger] r@.waiting[k])
                == open_inputs(g.edges@, r@.done, k) by {
                lemma_all_open(g.edges@, r@.done, k);
            }
        }
        r
    }
}

// ------------------------------------------------------------- decisions

/// What a node is to do on a visit.
#[derive(Clone, Copy, Debug, PartialEq, Eq, Structural)]
pub enum Work {
    /// The node is done.
    Rest,
    /// Its inputs have not ended, and nothing waits.
    Wait,
    /// A source that need not be read on: it ends without being read.
    Close,
    /// A source is read.
    Pull,
    /// The first chunk in the queue is processed.
    Process,
    /// Every input has ended and the queue is empty: the node is finished.
    Finish,
}

/// Is the operator one that chunks are pulled from?
pub open spec fn pulls(op: Op) -> bool {
    op is Source || op is StreamRef
}

/// Is there a path from a node to one that feeds nothing, on which no operator
/// is saturated? `reach` bounds its length.
pub open spec fn effect(g: PlanGraph, sat: Seq<bool>, n: NodeId, reach: nat) -> bool
    decreases reach,
{
    let outs = g.outputs(n as int);
    reach > 0 && !sat[n as int] && (outs.len() == 0 || exists|i: int|
        0 <= i < outs.len() && effect(g, sat, #[trigger] outs[i], (reach - 1) as nat))
}

/// Could a chunk pulled from the source still be seen?
pub open spec fn effect_remains(g: PlanGraph, sat: Seq<bool>, src: NodeId) -> bool {
    let outs = g.outputs(src as int);
    exists|i: int| 0 <= i < outs.len() && effect(g, sat, #[trigger] outs[i], g.nodes@.len())
}

fn has_effect(g: &PlanGraph, sat: &Vec<bool>, n: NodeId, reach: usize) -> (r: bool)
    requires
        g.wf(),
        sat@.len() == g.nodes@.len(),
        n < g.nodes@.len(),
    ensures
        r == effect(*g, sat@, n, reach as nat),
    decreases reach,
{
    if reach == 0 || sat[n] {
        return false;
    }
    let outs: Vec<NodeId> = g.outputs_of(n);
    if outs.len() == 0 {
        return true;
    }
    for i in 0..outs.len()
        invariant
            g.wf(),
            sat@.len() == g.nodes@.len(),
            n < g.nodes@.len(),
            !sat@[n as int],
            reach > 0,
            outs@ == g.outputs(n as int),
            forall|k: int| 0 <= k < outs@.len() ==> (#[trigger] outs@[k]) < g.nodes@.len(),
            forall|k: int|
                0 <= k < i ==> !effect(*g, sat@, #[trigger] outs@[k], (reach - 1) as nat),
    {
        assert(outs@[i as int] < g.nodes@.len());
        if has_effect(g, sat, outs[i], reach - 1) {
            assert(effect(*g, sat@, g.outputs(n as int)[i as int], (reach - 1) as nat));
            return true;
        }
    }
    false
}

/// Could a chunk pulled from the source still be seen: is there a path from it
/// to a node that feeds nothing, on which no operator is saturated?
pub fn unbounded_effect_remains(g: &PlanGraph, src: NodeId, sat: &Vec<bool>) -> (r: bool)
    requires
        g.wf(),
        sat@.len() == g.nodes@.len(),
    ensures
        r == effect_remains(*g, sat@, src),
{
    let outs: Vec<NodeId> = g.outputs_of(src);
    let n: usize = g.nodes.len();
    for i in 0..outs.len()
        invariant
            g.wf(),
            n == g.nodes@.len(),
            sat@.len() == g.nodes@.len(),
            outs@ == g.outputs(src as int),
            forall|k: int| 0 <= k < outs@.len() ==> (#[trigger] outs@[k]) < g.nodes@.len(),
            forall|k: int| 0 <= k < i ==> !effect(*g, sat@, #[trigger] outs@[k], n as nat),
    {
        assert(outs@[i as int] < g.nodes@.len());
        if has_effect(g, sat, outs[i], n) {
            assert(effect(*g, sat@, g.outputs(src as int)[i as int], n as nat));
            return true;
        }
    }
    false
}

/// What a node is to do.
pub open spec fn work(f: FlowV, g: PlanGraph, sat: Seq<bool>, n: NodeId) -> Work {
    let op = g.nodes@[n as int].op;
    if f.done[n as int] {
        Work::Rest
    } else if pulls(op) {
        if f.satisfied() {
            Work::Close
        } else if op is Source && op->Source_unbounded && !effect_remains(g, sat, n) {
            Work::Close
        } else {
            Work::Pull
        }
    } else if f.queues[n as int].len() > 0 {
        Work::Process
    } else if f.waiting[n as int] == 0 {
        Work::Finish
    } else {
        Work::Wait
    }
}

impl Flow {
    /// What a node is to do (see [`work`]). `sat` says which operators will let
    /// nothing more through.
    pub fn next_work(&self, g: &PlanGraph, sat: &Vec<bool>, n: NodeId) -> (r: Work)
        requires
            self@.wf(*g),
            sat@.len() == g.nodes@.len(),
            n < g.nodes@.len(),
        ensures
            r == work(self@, *g, sat@, n),
    {
        assert(self@.queues[n as int].len() == self.queues@[n as int]@.len());
        if self.done[n] {
            return Work::Rest;
        }
        let source: bool = matches!(&g.nodes[n].op, Op::Source { .. } | Op::StreamRef { .. });
        if source {
            let satisfied: bool = match self.cap {
                Some(c) => !self.drains && self.total_captured >= c as u64,
                None => false,
            };
            if satisfied {
                return Work::Close;
            }
            let endless: bool = match &g.nodes[n].op {
                Op::Source { unbounded, .. } => *unbounded,
                _ => false,
            };
            if endless && !unbounded_effect_remains(g, n, sat) {
                return Work::Close;
            }
            return Work::Pull;
        }
        if self.queues[n].len() > 0 {
            Work::Process
        } else if self.waiting[n] == 0 {
            Work::Finish
        } else {
            Work::Wait
        }
    }
}

/// A node that has work, given an order of the nodes and a place in it before
/// which all nodes are done.
proof fn lemma_no_deadlock(
    f: FlowV,
    g: PlanGraph,
    sat: Seq<bool>,
    order: Seq<NodeId>,
    i: int,
) -> (n: NodeId)
    requires
        f.wf(g),
        topological(g, order),
        0 <= i < order.len(),
        !f.done[order[i] as int],
    ensures
        n < g.nodes@.len(),
        !(work(f, g, sat, n) is Rest),
        !(work(f, g, sat, n) is Wait),
    decreases i,
{
    let n = order[i];
    if work(f, g, sat, n) is Wait {
        assert(f.waiting[n as int] == open_inputs(g.edges@, f.done, n as int));
        let e = lemma_open_edge(g.edges@, f.done, n as int);
        let a = g.edges@[e].0;
        assert(before(order, a, n));
        let (p, q) = choose|p: int, q: int|
            0 <= p < q < order.len() && #[trigger] order[p] == a && #[trigger] order[q] == n;
        assert(q == i);
        lemma_no_deadlock(f, g, sat, order, p)
    } else {
        n
    }
}

proof fn lemma_open_edge(edges: Seq<(NodeId, NodeId)>, done: Seq<bool>, n: int) -> (e: int)
    requires
        open_inputs(edges, done, n) > 0,
    ensures
        0 <= e < edges.len(),
        edges[e].1 == n,
        !done[edges[e].0 as int],
    decreases edges.len(),
{
    if edges.last().1 == n && !done[edges.last().0 as int] {
        edges.len() - 1
    } else {
        lemma_open_edge(edges.drop_last(), done, n)
    }
}

/// A flow over a graph without cycles never gets stuck: as long as some node is
/// not done, some node has work.
pub proof fn lemma_progress(f: FlowV, g: PlanGraph, sat: Seq<bool>, order: Seq<NodeId>)
    requires
        f.wf(g),
        topological(g, order),
        exists|i: int| 0 <= i < order.len() && !f.done[(#[trigger] order[i]) as int],
    ensures
        exists|n: NodeId|
            n < g.nodes@.len() && !((#[trigger] work(f, g, sat, n)) is Rest) && !(work(
                f,
                g,
                sat,
                n,
            ) is Wait),
{
    let i = choose|i: int| 0 <= i < order.len() && !f.done[(#[trigger] order[i]) as int];
    let n = lemma_no_deadlock(f, g, sat, order, i);
    assert(!(work(f, g, sat, n) is Rest));
}

// ----------------------------------------------------------- the queue

/// The flow with the first chunk at a node taken and counted.
pub open spec fn taken(f: FlowV, n: NodeId) -> FlowV {
    let c = f.counts[n as int];
    FlowV {
        queues: f.queues.update(n as int, f.queues[n as int].skip(1)),
        counts: f.counts.update(
            n as int,
            Counts {
                chunks_in: tally(c.chunks_in, 1),
                rows_in: tally(c.rows_in, f.queues[n as int][0].chunk.len),
                ..c
            },
        ),
        ..f
    }
}

impl Flow {
    /// Takes the first chunk that waits at a node.
    pub fn take_input(&mut self, g: &PlanGraph, n: NodeId) -> (r: Queued)
        requires
            old(self)@.wf(*g),
            n < g.nodes@.len(),
            old(self)@.queues[n as int].len() > 0,
        ensures
            r@ == old(self)@.queues[n as int][0],
            r.chunk@.wf(),
            final(self)@ == taken(old(self)@, n),
            final(self)@.wf(*g),
    {
        let ghost was = self@;
        let ghost q0 = self.queues@[n as int]@;
        assert(was.queues[n as int] == queue_view(q0));
        let q: Queued = match self.queues[n].pop_front() {
            Some(q) => q,
            None => {
                proof {
                    assert(q0.len() > 0);
                }
                Queued {
                    from: 0,
                    chunk: Chunk {
                        fields: Vec::new(),
                        columns: Vec::new(),
                        len: 0,
                        id: 0,
                        mode: Mode::Normal,
                        source: None,
                    },
                }
            },
        };
        assert(q@ == was.queues[n as int][0]);
        let mut c: Counts = self.counts[n];
        c.chunks_in = add_to(c.chunks_in, 1);
        c.rows_in = add_to(c.rows_in, q.chunk.len);
        self.counts.set(n, c);
        proof {
            let to = taken(was, n);
            assert(self@.queues =~= to.queues) by {
                assert forall|k: int| 0 <= k < to.queues.len() implies self@.queues[k]
                    =~= to.queues[k] by {
                    if k == n {
                        assert(queue_view(q0.subrange(1, q0.len() as int)) =~= queue_view(q0).skip(
                            1,
                        ));
                    }
                }
            }
            assert(self@.counts =~= to.counts);
            assert(self@.captured =~= to.captured);
            assert forall|k: int, i: int|
                0 <= k < g.nodes@.len() && 0 <= i < to.queues[k].len() implies (
            #[trigger] to.queues[k][i]).chunk.wf() by {
                if k == n {
                    assert(to.queues[k][i] == was.queues[k][i + 1]);
                } else {
                    assert(to.queues[k][i] == was.queues[k][i]);
                }
            }
            assert(was.queues[n as int][0].chunk.wf());
        }
        q
    }

    /// Counts a chunk that a source gave.
    pub fn note_pulled(&mut self, rows: usize)
        ensures
            final(self)@ == (FlowV {
                rows_seen: tally(old(self)@.rows_seen, rows as nat),
                ..old(self)@
            }),
    {
        let ghost was = self@;
        self.rows_seen = add_to(self.rows_seen, rows);
        assert(self@.queues =~= was.queues);
        assert(self@.captured =~= was.captured);
    }
}

// ---------------------------------------------------------------- hooks

/// Is the event at least that grave?
pub open spec fn at_least(e: EventV, min: Option<Severity>) -> bool {
    match min {
        None => true,
        Some(m) => e.severity.level() >= m.level(),
    }
}

/// Do the events set the hook off?
pub open spec fn triggered(h: Hook, ev: Seq<EventV>) -> bool {
    h.event is Error && exists|i: int|
        0 <= i < ev.len() && at_least(#[trigger] ev[i], h.min_severity)
}

/// What a hook adds: a change of mode, or an event.
pub open spec fn hooked(n: Node, h: Hook, ev: Seq<EventV>, s: (Mode, Seq<EventV>)) -> (
    Mode,
    Seq<EventV>,
) {
    if !triggered(h, ev) {
        s
    } else {
        match h.action {
            HookAction::Transition(m) => (m, s.1),
            HookAction::Log(msg) => (
                s.0,
                s.1.push(
                    EventV {
                        severity: Severity::Info,
                        scope: ErrorScope::Chunk,
                        message: "log: "@ + msg@,
                        node: Some(node_label(n)),
                        chunk: None,
                    },
                ),
            ),
            HookAction::Route(_) => s,
        }
    }
}

/// The first `k` hooks of a node.
pub open spec fn node_hooked(n: Node, k: nat, ev: Seq<EventV>, s: (Mode, Seq<EventV>)) -> (
    Mode,
    Seq<EventV>,
)
    decreases k,
{
    if k == 0 {
        s
    } else {
        hooked(n, n.hooks@[k - 1], ev, node_hooked(n, (k - 1) as nat, ev, s))
    }
}

/// The hooks of the first `k` nodes.
pub open spec fn all_hooked(nodes: Seq<Node>, k: nat, ev: Seq<EventV>, mode: Mode) -> (
    Mode,
    Seq<EventV>,
)
    decreases k,
{
    if k == 0 {
        (mode, Seq::empty())
    } else {
        node_hooked(
            nodes[k - 1],
            nodes[k - 1].hooks@.len(),
            ev,
            all_hooked(nodes, (k - 1) as nat, ev, mode),
        )
    }
}

fn is_triggered(h: &Hook, ev: &Vec<ErrorEvent>) -> (r: bool)
    ensures
        r == triggered(*h, events(ev@)),
{
    if !matches!(h.event, HookEvent::Error) {
        return false;
    }
    let ghost s = events(ev@);
    for i in 0..ev.len()
        invariant
            s == events(ev@),
            h.event is Error,
            forall|k: int|
                0 <= k < i ==> !at_least(#[trigger] s[k], h.min_severity),
    {
        assert(s[i as int] == ev@[i as int]@);
        let hit: bool = match h.min_severity {
            None => true,
            Some(min) => ev[i].severity.rank() >= min.rank(),
        };
        if hit {
            assert(at_least(s[i as int], h.min_severity));
            return true;
        }
    }
    false
}

/// What the hooks of a graph do on new events: the mode, which each transition
/// sets in turn, and the events that they log.
pub fn apply_error_hooks(g: &PlanGraph, ev: &Vec<ErrorEvent>, mode: Mode) -> (r: (
    Mode,
    Vec<ErrorEvent>,
))
    requires
        g.wf(),
    ensures
        (r.0, events(r.1@)) == all_hooked(g.nodes@, g.nodes@.len(), events(ev@), mode),
{
    let mut m: Mode = mode;
    let mut extra: Vec<ErrorEvent> = Vec::new();
    assert(events(extra@) =~= Seq::empty());
    for k in 0..g.nodes.len()
        invariant
            g.wf(),
            (m, events(extra@)) == all_hooked(g.nodes@, k as nat, events(ev@), mode),
    {
        let ghost base = (m, events(extra@));
        let ghost node = g.nodes@[k as int];
        let limit: usize = g.nodes[k].hooks.len();
        for j in 0..limit
            invariant
                g.wf(),
                k < g.nodes@.len(),
                node == g.nodes@[k as int],
                limit == node.hooks@.len(),
                (m, events(extra@)) == node_hooked(node, j as nat, events(ev@), base),
        {
            let hook: &Hook = &g.nodes[k].hooks[j];
            if is_triggered(hook, ev) {
                match &hook.action {
                    HookAction::Transition(t) => {
                        m = *t;
                    },
                    HookAction::Log(msg) => {
                        let mut text: String = owned("log: ");
                        text.push_str(msg.as_str());
                        let e = ErrorEvent::new(Severity::Info, ErrorScope::Chunk, text).at_node(
                            label_of(g, k),
                        );
                        let ghost up = events(extra@);
                        extra.push(e);
                        assert(events(extra@) =~= up.push(e@));
                    },
                    HookAction::Route(_) => {},
                }
            }
        }
    }
    (m, extra)
}

// --------------------------------------------------------- after a visit

/// The flow with the events that a visit raised: they are counted; a fatal one
/// halts the flow; and the hooks respond.
pub open spec fn noted(f: FlowV, g: PlanGraph, n: NodeId, ev: Seq<EventV>) -> FlowV {
    if ev.len() == 0 {
        f
    } else {
        let halted = any_fatal(ev);
        let (mode, extra) = all_hooked(
            g.nodes@,
            g.nodes@.len(),
            ev,
            if halted {
                Mode::Halted
            } else {
                f.mode
            },
        );
        let c = f.counts[n as int];
        FlowV {
            errors: f.errors + ev + extra,
            fatal: f.fatal || halted,
            mode,
            counts: f.counts.update(
                n as int,
                Counts { errors: tally(c.errors, ev.len()), mode, ..c },
            ),
            ..f
        }
    }
}

/// A chunk captured at a leaf: as many of its rows as the cap has room for.
pub open spec fn kept_at(f: FlowV, n: NodeId, b: Batch) -> FlowV {
    let have = rows_of(f.captured[n as int]);
    match f.cap {
        Some(cap) if have >= cap => FlowV { truncated: true, ..f },
        Some(cap) if b.len > cap - have => FlowV {
            truncated: true,
            total_captured: tally(f.total_captured, (cap - have) as nat),
            captured: f.captured.update(
                n as int,
                f.captured[n as int].push(gathered(b, every((cap - have) as nat))),
            ),
            ..f
        },
        _ => FlowV {
            total_captured: tally(f.total_captured, b.len),
            captured: f.captured.update(n as int, f.captured[n as int].push(b)),
            ..f
        },
    }
}

/// A chunk put at the end of the queue of each of the first `k` consumers.
pub open spec fn fanned(q: Seq<Seq<QueuedV>>, to: Seq<NodeId>, k: nat, x: QueuedV) -> Seq<
    Seq<QueuedV>,
>
    decreases k,
{
    if k == 0 {
        q
    } else {
        let up = fanned(q, to, (k - 1) as nat, x);
        up.update(to[k - 1] as int, up[to[k - 1] as int].push(x))
    }
}

/// The flow with one chunk that a node produced: stamped with the mode, counted,
/// and handed to every consumer, or captured where there is none.
pub open spec fn spread(f: FlowV, g: PlanGraph, n: NodeId, b: Batch) -> FlowV {
    let to = g.outputs(n as int);
    let stamped = Batch { mode: f.mode, ..b };
    let c = f.counts[n as int];
    let counted = FlowV {
        counts: f.counts.update(
            n as int,
            Counts {
                chunks_out: tally(c.chunks_out, 1),
                rows_out: tally(c.rows_out, b.len),
                ..c
            },
        ),
        ..f
    };
    if to.len() == 0 {
        kept_at(counted, n, stamped)
    } else {
        FlowV {
            queues: fanned(f.queues, to, to.len(), QueuedV { from: n, chunk: stamped }),
            ..counted
        }
    }
}

/// The flow with the first `k` chunks that a node produced.
pub open spec fn distributed(f: FlowV, g: PlanGraph, n: NodeId, out: Seq<Batch>, k: nat) -> FlowV
    decreases k,
{
    if k == 0 {
        f
    } else {
        spread(distributed(f, g, n, out, (k - 1) as nat), g, n, out[k - 1])
    }
}

/// The counts of open inputs with one less for each of the first `k` consumers.
pub open spec fn released(w: Seq<usize>, to: Seq<NodeId>, k: nat) -> Seq<usize>
    decreases k,
{
    if k == 0 {
        w
    } else {
        let up = released(w, to, (k - 1) as nat);
        let old = up[to[k - 1] as int];
        up.update(
            to[k - 1] as int,
            if old == 0 {
                0
            } else {
                (old - 1) as usize
            },
        )
    }
}

/// The flow with a node that has ended.
pub open spec fn retired(f: FlowV, g: PlanGraph, n: NodeId) -> FlowV {
    let to = g.outputs(n as int);
    FlowV {
        done: f.done.update(n as int, true),
        counts: f.counts.update(n as int, Counts { finished: true, ..f.counts[n as int] }),
        waiting: released(f.waiting, to, to.len()),
        ..f
    }
}

/// The flow after a visit to a node: the events that it raised, the chunks that
/// it produced, and its end, where it has ended.
pub open spec fn visited(
    f: FlowV,
    g: PlanGraph,
    n: NodeId,
    ev: Seq<EventV>,
    out: Seq<Batch>,
    ended: bool,
) -> FlowV {
    let after = distributed(noted(f, g, n, ev), g, n, out, out.len());
    if ended {
        retired(after, g, n)
    } else {
        after
    }
}

/// How many of the first `k` consumers are `s`.
spec fn times(to: Seq<NodeId>, k: nat, s: int) -> nat
    decreases k,
{
    if k == 0 {
        0
    } else {
        times(to, (k - 1) as nat, s) + if to[k - 1] == s {
            1nat
        } else {
            0
        }
    }
}

proof fn lemma_released(w: Seq<usize>, to: Seq<NodeId>, k: nat, s: int)
    requires
        k <= to.len(),
        0 <= s < w.len(),
        forall|i: int| 0 <= i < to.len() ==> (#[trigger] to[i]) < w.len(),
    ensures
        released(w, to, k).len() == w.len(),
        released(w, to, k)[s] == if w[s] < times(to, k, s) {
            0int
        } else {
            w[s] - times(to, k, s)
        },
    decreases k,
{
    if k > 0 {
        lemma_released(w, to, (k - 1) as nat, s);
        assert(to[k - 1] < w.len());
        lemma_released(w, to, (k - 1) as nat, to[k - 1] as int);
    }
}

proof fn lemma_times_prefix(a: Seq<NodeId>, b: Seq<NodeId>, k: nat, s: int)
    requires
        k <= a.len(),
        k <= b.len(),
        a.take(k as int) == b.take(k as int),
    ensures
        times(a, k, s) == times(b, k, s),
    decreases k,
{
    if k > 0 {
        assert(a.take((k - 1) as int) =~= a.take(k as int).take((k - 1) as int));
        assert(b.take((k - 1) as int) =~= b.take(k as int).take((k - 1) as int));
        assert(a[k - 1] == a.take(k as int)[k - 1]);
        assert(b[k - 1] == b.take(k as int)[k - 1]);
        lemma_times_prefix(a, b, (k - 1) as nat, s);
    }
}

proof fn lemma_close_edges(edges: Seq<(NodeId, NodeId)>, done: Seq<bool>, n: NodeId, s: int)
    requires
        n < done.len(),
        !done[n as int],
        forall|i: int| 0 <= i < edges.len() ==> (#[trigger] edges[i]).0 < done.len(),
    ensures
        open_inputs(edges, done, s) == open_inputs(edges, done.update(n as int, true), s) + times(
            outs(edges, n as int),
            outs(edges, n as int).len(),
            s,
        ),
    decreases edges.len(),
{
    if edges.len() > 0 {
        let less = edges.drop_last();
        assert forall|i: int| 0 <= i < less.len() implies (#[trigger] less[i]).0 < done.len() by {
            assert(edges[i].0 < done.len());
        }
        assert(edges[edges.len() - 1].0 < done.len());
        lemma_close_edges(less, done, n, s);
        let a = outs(less, n as int);
        let b = outs(edges, n as int);
        if edges.last().0 == n {
            assert(b.take(a.len() as int) =~= a.take(a.len() as int));
            lemma_times_prefix(a, b, a.len(), s);
        }
    }
}

proof fn lemma_fanned(q: Seq<Seq<QueuedV>>, to: Seq<NodeId>, k: nat, x: QueuedV)
    requires
        k <= to.len(),
        forall|i: int| 0 <= i < to.len() ==> (#[trigger] to[i]) < q.len(),
    ensures
        fanned(q, to, k, x).len() == q.len(),
        x.chunk.wf() && (forall|s: int, i: int|
            0 <= s < q.len() && 0 <= i < q[s].len() ==> (#[trigger] q[s][i]).chunk.wf()) ==> (
        forall|s: int, i: int|
            0 <= s < q.len() && 0 <= i < fanned(q, to, k, x)[s].len() ==> (#[trigger] fanned(
                q,
                to,
                k,
                x,
            )[s][i]).chunk.wf()),
    decreases k,
{
    if k > 0 {
        lemma_fanned(q, to, (k - 1) as nat, x);
        assert(to[k - 1] < q.len());
        let up = fanned(q, to, (k - 1) as nat, x);
        let all = fanned(q, to, k, x);
        if x.chunk.wf() && (forall|s: int, i: int|
            0 <= s < q.len() && 0 <= i < q[s].len() ==> (#[trigger] q[s][i]).chunk.wf()) {
            assert forall|s: int, i: int| 0 <= s < q.len() && 0 <= i < all[s].len() implies (
            #[trigger] all[s][i]).chunk.wf() by {
                if s == to[k - 1] && i == up[s].len() {
                } else {
                    assert(all[s][i] == up[s][i]);
                }
            }
        }
    }
}

/// What a node hands on reaches every consumer: each chunk that it produces is
/// put once for each edge at the end of the consumer's queue, and no other
/// queue changes.
pub proof fn lemma_fan_out(q: Seq<Seq<QueuedV>>, to: Seq<NodeId>, k: nat, x: QueuedV, s: int)
    requires
        k <= to.len(),
        0 <= s < q.len(),
        forall|i: int| 0 <= i < to.len() ==> (#[trigger] to[i]) < q.len(),
    ensures
        fanned(q, to, k, x)[s] == q[s] + Seq::new(to.take(k as int).filter(|m: NodeId| m == s).len(), |i: int| x),
    decreases k,
{
    let here = |m: NodeId| m == s;
    if k == 0 {
        assert(to.take(0) =~= Seq::empty());
        reveal(Seq::filter);
        assert(to.take(0).filter(here).len() == 0);
        assert(q[s] + Seq::new(0, |i: int| x) =~= q[s]);
    } else {
        lemma_fan_out(q, to, (k - 1) as nat, x, s);
        lemma_fanned(q, to, (k - 1) as nat, x);
        assert(to[k - 1] < q.len());
        assert(to.take(k as int).drop_last() =~= to.take((k - 1) as int));
        reveal(Seq::filter);
        let less = to.take((k - 1) as int).filter(here).len();
        let all = to.take(k as int).filter(here).len();
        assert(all == less + if to[k - 1] == s {
            1nat
        } else {
            0
        });
        assert(fanned(q, to, k, x)[s] =~= q[s] + Seq::new(all, |i: int| x));
    }
}

impl Flow {
    fn note(&mut self, g: &PlanGraph, n: NodeId, ev: Vec<ErrorEvent>)
        requires
            old(self)@.wf(*g),
            n < g.nodes@.len(),
        ensures
            final(self)@ == noted(old(self)@, *g, n, events(ev@)),
            final(self)@.wf(*g),
    {
        let ghost was = self@;
        let mut ev: Vec<ErrorEvent> = ev;
        let ghost e = events(ev@);
        if ev.len() == 0 {
            return;
        }
        assert(e.skip(0) =~= e);
        let mut mode: Mode = self.mode;
        if has_fatal(&ev, 0) {
            self.fatal = true;
            mode = Mode::Halted;
        }
        let mut c: Counts = self.counts[n];
        c.errors = add_to(c.errors, ev.len());
        let (m, mut extra) = apply_error_hooks(g, &ev, mode);
        let ghost x = events(extra@);
        let ghost before = self.errors@;
        let ghost evs = ev@;
        let ghost exs = extra@;
        self.errors.append(&mut ev);
        self.errors.append(&mut extra);
        assert(self.errors@ =~= before + evs + exs);
        c.mode = m;
        self.mode = m;
        self.counts.set(n, c);
        proof {
            let to = noted(was, *g, n, e);
            assert(self@.errors =~= to.errors);
            assert(self@.counts =~= to.counts);
            assert(self@.queues =~= to.queues);
            assert(self@.captured =~= to.captured);
            assert(self@ =~= to);
            lemma_same_places(was, to, *g);
        }
    }
}

/// The invariant does not look at the counts, the events or the mode.
proof fn lemma_same_places(a: FlowV, b: FlowV, g: PlanGraph)
    requires
        a.wf(g),
        b.queues == a.queues,
        b.done == a.done,
        b.waiting == a.waiting,
        b.captured == a.captured,
        b.counts.len() == a.counts.len(),
        b.cap == a.cap,
    ensures
        b.wf(g),
{
}

proof fn lemma_rows_push(s: Seq<Batch>, b: Batch)
    ensures
        rows_of(s.push(b)) == rows_of(s) + b.len,
{
    assert(s.push(b).drop_last() =~= s);
}

/// Capturing a chunk keeps the invariant: the cap is not passed.
proof fn lemma_kept_wf(f: FlowV, g: PlanGraph, n: NodeId, b: Batch)
    requires
        f.wf(g),
        n < g.nodes@.len(),
        b.wf(),
    ensures
        kept_at(f, n, b).wf(g),
{
    let to = kept_at(f, n, b);
    let have = rows_of(f.captured[n as int]);
    assert(all_wf(f.captured[n as int]));
    let cap = f.cap->Some_0;
    if f.cap is Some && have < cap && b.len > cap - have {
        let cut = gathered(b, every((cap - have) as nat));
        crate::chunk::lemma_gathered_wf(b, every((cap - have) as nat));
        lemma_rows_push(f.captured[n as int], cut);
        assert forall|k: int| 0 <= k < g.nodes@.len() implies all_wf(#[trigger] to.captured[k]) by {
            assert(all_wf(f.captured[k]));
        }
        assert forall|k: int| 0 <= k < g.nodes@.len() implies rows_of(#[trigger] to.captured[k])
            <= cap by {
            assert(rows_of(f.captured[k]) <= cap);
        }
    } else if !(f.cap is Some && have >= cap) {
        lemma_rows_push(f.captured[n as int], b);
        assert forall|k: int| 0 <= k < g.nodes@.len() implies all_wf(#[trigger] to.captured[k]) by {
            assert(all_wf(f.captured[k]));
        }
        if f.cap is Some {
            assert forall|k: int| 0 <= k < g.nodes@.len() implies rows_of(#[trigger] to.captured[k])
                <= f.cap->Some_0 by {
                assert(rows_of(f.captured[k]) <= f.cap->Some_0);
            }
        }
    }
}

/// Counting the rows that a leaf has captured, which the cap bounds.
fn rows_captured(v: &Vec<Chunk>, cap: usize) -> (r: usize)
    requires
        rows_of(batches(v@)) <= cap,
    ensures
        r == rows_of(batches(v@)),
{
    let ghost s = batches(v@);
    let mut n: usize = 0;
    for i in 0..v.len()
        invariant
            s == batches(v@),
            rows_of(s) <= cap,
            n == rows_of(s.take(i as int)),
    {
        proof {
            assert(s.take(i + 1).drop_last() =~= s.take(i as int));
            lemma_rows_prefix(s, i + 1);
            assert(s[i as int] == v@[i as int]@);
        }
        n = n + v[i].len;
    }
    assert(s.take(v@.len() as int) =~= s);
    n
}

proof fn lemma_rows_prefix(s: Seq<Batch>, i: int)
    requires
        0 <= i <= s.len(),
    ensures
        rows_of(s.take(i)) <= rows_of(s),
    decreases s.len() - i,
{
    if i == s.len() {
        assert(s.take(i) =~= s);
    } else {
        lemma_rows_prefix(s, i + 1);
        assert(s.take(i + 1).drop_last() =~= s.take(i));
    }
}

/// The numbers below `n`.
fn first_rows(n: usize) -> (r: Vec<usize>)
    ensures
        r@ == every(n as nat),
{
    let mut v: Vec<usize> = Vec::new();
    for i in 0..n
        invariant
            v@ == every(i as nat),
    {
        v.push(i);
        assert(v@ =~= every((i + 1) as nat));
    }
    v
}

impl Flow {
    fn capture(&mut self, g: &PlanGraph, n: NodeId, chunk: Chunk)
        requires
            old(self)@.wf(*g),
            n < g.nodes@.len(),
            chunk@.wf(),
        ensures
            final(self)@ == kept_at(old(self)@, n, chunk@),
            final(self)@.wf(*g),
    {
        let ghost was = self@;
        let ghost b = chunk@;
        let ghost caps = self.captured@;
        assert(was.captured[n as int] == batches(self.captured@[n as int]@));
        proof {
            lemma_kept_wf(was, *g, n, b);
        }
        match self.cap {
            Some(cap) => {
                let have: usize = rows_captured(&self.captured[n], cap);
                if have >= cap {
                    self.truncated = true;
                    assert(self@.queues =~= was.queues);
                    assert(self@.captured =~= was.captured);
                    return;
                }
                let room: usize = cap - have;
                if chunk.len > room {
                    self.truncated = true;
                    self.total_captured = add_to(self.total_captured, room);
                    let cut: Chunk = chunk.gather(&first_rows(room));
                    self.captured[n].push(cut);
                    proof {
                        let to = kept_at(was, n, b);
                        assert(self@.queues =~= was.queues);
                        assert forall|k: int| 0 <= k < to.captured.len() implies self@.captured[k]
                            =~= to.captured[k] by {
                            if k == n {
                                assert(batches(self.captured@[k]@) =~= batches(caps[k]@).push(cut@));
                            }
                        }
                        assert(self@.captured =~= to.captured);
                    }
                    return;
                }
            },
            None => {},
        }
        self.total_captured = add_to(self.total_captured, chunk.len);
        self.captured[n].push(chunk);
        proof {
            let to = kept_at(was, n, b);
            assert(self@.queues =~= was.queues);
            assert forall|k: int| 0 <= k < to.captured.len() implies self@.captured[k]
                =~= to.captured[k] by {
                if k == n {
                    assert(batches(self.captured@[k]@) =~= batches(caps[k]@).push(b));
                }
            }
            assert(self@.captured =~= to.captured);
        }
    }

    fn enqueue(&mut self, g: &PlanGraph, n: NodeId, to: &Vec<NodeId>, chunk: &Chunk)
        requires
            old(self)@.wf(*g),
            n < g.nodes@.len(),
            chunk@.wf(),
            forall|k: int| 0 <= k < to@.len() ==> (#[trigger] to@[k]) < g.nodes@.len(),
        ensures
            final(self)@ == (FlowV {
                queues: fanned(
                    old(self)@.queues,
                    to@,
                    to@.len(),
                    QueuedV { from: n, chunk: chunk@ },
                ),
                ..old(self)@
            }),
            final(self)@.wf(*g),
    {
        let ghost was = self@;
        let ghost x = QueuedV { from: n, chunk: chunk@ };
        for k in 0..to.len()
            invariant
                was.wf(*g),
                x == (QueuedV { from: n, chunk: chunk@ }),
                forall|k: int| 0 <= k < to@.len() ==> (#[trigger] to@[k]) < g.nodes@.len(),
                self@ == (FlowV { queues: fanned(was.queues, to@, k as nat, x), ..was }),
                self@.queues.len() == g.nodes@.len(),
        {
            let ghost up = self@;
            let ghost qs = self.queues@;
            let s: NodeId = to[k];
            assert(to@[k as int] < g.nodes@.len());
            self.queues[s].push_back(Queued { from: n, chunk: chunk.dup() });
            proof {
                let next = fanned(was.queues, to@, (k + 1) as nat, x);
                assert forall|j: int| 0 <= j < next.len() implies self@.queues[j] =~= next[j] by {
                    if j == s {
                        assert(queue_view(self.queues@[j]@) =~= queue_view(qs[j]@).push(x));
                    }
                }
                assert(self@.queues =~= next);
                assert(self@.captured =~= up.captured);
                lemma_fanned(was.queues, to@, (k + 1) as nat, x);
            }
        }
        proof {
            lemma_fanned(was.queues, to@, to@.len(), x);
        }
    }

    fn distribute(&mut self, g: &PlanGraph, n: NodeId, out: Vec<Chunk>)
        requires
            old(self)@.wf(*g),
            n < g.nodes@.len(),
            all_wf(batches(out@)),
        ensures
            final(self)@ == distributed(old(self)@, *g, n, batches(out@), out@.len()),
            final(self)@.wf(*g),
    {
        let ghost was = self@;
        let ghost bs = batches(out@);
        let to: Vec<NodeId> = g.outputs_of(n);
        for k in 0..out.len()
            invariant
                n < g.nodes@.len(),
                bs == batches(out@),
                all_wf(bs),
                to@ == g.outputs(n as int),
                forall|k: int| 0 <= k < to@.len() ==> (#[trigger] to@[k]) < g.nodes@.len(),
                self@.wf(*g),
                self@ == distributed(was, *g, n, bs, k as nat),
        {
            let ghost up = self@;
            let mut chunk: Chunk = out[k].dup();
            assert(bs[k as int] == out@[k as int]@);
            assert(bs[k as int].wf());
            chunk.mode = self.mode;
            let ghost stamped = chunk@;
            assert(stamped == (Batch { mode: up.mode, ..bs[k as int] }));
            assert(stamped.wf());
            let mut c: Counts = self.counts[n];
            c.chunks_out = add_to(c.chunks_out, 1);
            c.rows_out = add_to(c.rows_out, chunk.len);
            self.counts.set(n, c);
            proof {
                assert(self@.queues =~= up.queues);
                assert(self@.captured =~= up.captured);
                lemma_same_places(up, self@, *g);
            }
            if to.len() == 0 {
                self.capture(g, n, chunk);
            } else {
                self.enqueue(g, n, &to, &chunk);
            }
            assert(self@ =~= spread(up, *g, n, bs[k as int]));
        }
    }

    fn retire(&mut self, g: &PlanGraph, n: NodeId)
        requires
            old(self)@.wf(*g),
            n < g.nodes@.len(),
            !old(self)@.done[n as int],
        ensures
            final(self)@ == retired(old(self)@, *g, n),
            final(self)@.wf(*g),
    {
        let ghost was = self@;
        let to: Vec<NodeId> = g.outputs_of(n);
        self.done.set(n, true);
        let mut c: Counts = self.counts[n];
        c.finished = true;
        self.counts.set(n, c);
        for k in 0..to.len()
            invariant
                was.waiting.len() == g.nodes@.len(),
                forall|k: int| 0 <= k < to@.len() ==> (#[trigger] to@[k]) < g.nodes@.len(),
                self@.waiting == released(was.waiting, to@, k as nat),
                self.waiting@.len() == g.nodes@.len(),
                self.queues == old(self).queues,
                self.captured == old(self).captured,
                self.errors == old(self).errors,
                self@.done == was.done.update(n as int, true),
                self@.counts == was.counts.update(
                    n as int,
                    Counts { finished: true, ..was.counts[n as int] },
                ),
                self.mode == old(self).mode,
                self.fatal == old(self).fatal,
                self.rows_seen == old(self).rows_seen,
                self.total_captured == old(self).total_captured,
                self.truncated == old(self).truncated,
                self.cap == old(self).cap,
                self.drains == old(self).drains,
        {
            let s: NodeId = to[k];
            assert(to@[k as int] < g.nodes@.len());
            let w: usize = self.waiting[s];
            self.waiting.set(
                s,
                if w == 0 {
                    0
                } else {
                    w - 1
                },
            );
        }
        proof {
            let fin = retired(was, *g, n);
            assert(self@.queues =~= was.queues);
            assert(self@.captured =~= was.captured);
            assert(self@ =~= fin);
            assert forall|k: int| 0 <= k < g.nodes@.len() implies (#[trigger] fin.waiting[k])
                == open_inputs(g.edges@, fin.done, k) by {
                lemma_released(was.waiting, to@, to@.len(), k);
                lemma_close_edges(g.edges@, was.done, n, k);
                assert(was.waiting[k] == open_inputs(g.edges@, was.done, k));
            }
            if to@.len() > 0 {
                lemma_released(was.waiting, to@, to@.len(), 0);
            }
        }
    }

    /// Records a visit to a node that is not done: the events that it raised,
    /// the chunks that it produced, and its end, where it has ended (see
    /// [`visited`]).
    pub fn record(
        &mut self,
        g: &PlanGraph,
        n: NodeId,
        ev: Vec<ErrorEvent>,
        out: Vec<Chunk>,
        ended: bool,
    )
        requires
            old(self)@.wf(*g),
            n < g.nodes@.len(),
            !old(self)@.done[n as int],
            all_wf(batches(out@)),
        ensures
            final(self)@ == visited(
                old(self)@,
                *g,
                n,
                events(ev@),
                batches(out@),
                ended,
            ),
            final(self)@.wf(*g),
    {
        let ghost was = self@;
        self.note(g, n, ev);
        let ghost mid = self@;
        self.distribute(g, n, out);
        proof {
            lemma_distributed_kept(mid, *g, n, batches(out@), out@.len());
        }
        if ended {
            self.retire(g, n);
        }
    }
}

/// Handing chunks on ends no node.
/// Spreading chunks ends no node and raises nothing.
pub proof fn lemma_distributed_kept(f: FlowV, g: PlanGraph, n: NodeId, out: Seq<Batch>, k: nat)
    ensures
        distributed(f, g, n, out, k).done == f.done,
        distributed(f, g, n, out, k).fatal == f.fatal,
        distributed(f, g, n, out, k).errors == f.errors,
    decreases k,
{
    if k > 0 {
        lemma_distributed_kept(f, g, n, out, (k - 1) as nat);
    }
}

/// A node that is done stays done, and a visit ends no node but the one
/// visited.
pub proof fn lemma_done_stays(
    f: FlowV,
    g: PlanGraph,
    n: NodeId,
    ev: Seq<EventV>,
    out: Seq<Batch>,
    ended: bool,
    k: int,
)
    requires
        f.wf(g),
        n < g.nodes@.len(),
        0 <= k < g.nodes@.len(),
    ensures
        visited(f, g, n, ev, out, ended).done[k] == (f.done[k] || (ended && k == n)),
{
    lemma_distributed_kept(noted(f, g, n, ev), g, n, out, out.len());
}

} // verus!
