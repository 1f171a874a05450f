//! Workers of a run over files: one that sends the chunks of its file into a
//! segment of the output, and one that takes the join and the group at the end of
//! its path in one pass where that can be.
use vstd::prelude::*;
use crate::chunk::{lemma_index_in, Batch, Chunk};
use crate::event::{events, ErrorEvent, EventV};
use crate::flow::{add_to, tally};
use crate::fused::{cell_in, cell_named, fused_feed_chunk, fused_out, item_named, lemma_right_bound, plan_in, plan_items, plan_reads, resolvable, resolve_fused_plan, resolved, FusedCell, FusedPlan, FusedShapePlan};
use crate::group::{grouped, AggV};
use crate::host::{Answers, Ask, Log, Query};
use crate::parts::{header_of, worked, Segment, SegmentV, Worker, WorkerV};
use crate::plan::{NodeId, PlanGraph};
use crate::sink::csv_lines;
use crate::stage::{path_out, path_wf, run_path, Labelled, OnPath, PathV};
use crate::value::texts;

verus! {

// ----------------------------------------------------------------- segments

/// A worker that sends the chunks of a file along a path into a segment.
pub struct SegmentWorker {
    pub path: Vec<Labelled>,
    pub events: Vec<ErrorEvent>,
    pub next: u64,
    pub segment: Segment,
}

/// What a [`SegmentWorker`] has gathered.
#[verifier::ext_equal]
pub struct SegmentWorkerV {
    pub events: Seq<EventV>,
    pub next: u64,
    pub segment: SegmentV,
}

/// A segment with a further chunk.
pub open spec fn put_on(s: SegmentV, b: Batch, sep: char, log: Log) -> Result<SegmentV, Query> {
    match csv_lines(b, b.len, sep, log) {
        Err(q) => Err(q),
        Ok(t) => Ok(
            SegmentV {
                header: if s.header is Some {
                    s.header
                } else {
                    header_of(seq![b], sep)
                },
                body: s.body + t,
                rows: tally(s.rows, b.len),
            },
        ),
    }
}

/// The worker after a chunk: what comes out of the path is put on the segment,
/// and the events of the path are kept.
pub open spec fn segment_worked(
    path: Seq<Labelled>,
    w: SegmentWorkerV,
    b: Batch,
    sep: char,
    log: Log,
) -> Result<SegmentWorkerV, Query> {
    match path_out(
        path,
        path.len(),
        PathV { chunk: Some(b), events: Seq::empty(), next: w.next },
        log,
    ) {
        Err(q) => Err(q),
        Ok(p) => match p.chunk {
            None => Ok(SegmentWorkerV { events: w.events + p.events, next: p.next, ..w }),
            Some(x) => match put_on(w.segment, x, sep, log) {
                Err(q) => Err(q),
                Ok(segment) => Ok(
                    SegmentWorkerV { events: w.events + p.events, next: p.next, segment },
                ),
            },
        },
    }
}

fn append_events(to: &mut Vec<ErrorEvent>, from: Vec<ErrorEvent>)
    ensures
        events(final(to)@) == events(old(to)@) + events(from@),
{
    let mut more: Vec<ErrorEvent> = from;
    let ghost a = to@;
    let ghost b = more@;
    to.append(&mut more);
    assert(to@ =~= a + b);
    assert(events(to@) =~= events(a) + events(b));
}

impl SegmentWorker {
    pub open spec fn view(&self) -> SegmentWorkerV {
        SegmentWorkerV {
            events: events(self.events@),
            next: self.next,
            segment: self.segment@,
        }
    }

    /// A worker that has gathered nothing.
    pub fn new(path: Vec<Labelled>) -> (r: SegmentWorker)
        ensures
            r.path == path,
            r@ == (SegmentWorkerV {
                events: Seq::empty(),
                next: 0,
                segment: SegmentV { header: None, body: Seq::empty(), rows: 0 },
            }),
    {
        let r = SegmentWorker { path, events: Vec::new(), next: 0, segment: Segment::new() };
        assert(r@.events =~= Seq::empty());
        r
    }

    /// Sends a chunk along the path into the segment (see [`segment_worked`]). A
    /// question leaves everything as it was.
    pub fn feed(&mut self, chunk: Chunk, sep: char, host: &Answers) -> (r: Result<(), Ask>)
        requires
            path_wf(old(self).path@),
            chunk@.wf(),
        ensures
            final(self).path == old(self).path,
            match (r, segment_worked(old(self).path@, old(self)@, chunk@, sep, host@)) {
                (Ok(_), Ok(w)) => final(self)@ == w,
                (Err(a), Err(q)) => a@ == q && final(self)@ == old(self)@,
                _ => false,
            },
    {
        let p: OnPath = match run_path(&self.path, chunk, self.next, host) {
            Err(a) => {
                return Err(a);
            },
            Ok(p) => p,
        };
        if let Some(x) = &p.chunk {
            match self.segment.put(x, sep, host) {
                Err(a) => {
                    return Err(a);
                },
                Ok(_) => {},
            }
        }
        append_events(&mut self.events, p.events);
        self.next = p.next;
        Ok(())
    }

    /// Puts an event at the end of the report.
    pub fn report(&mut self, e: ErrorEvent)
        ensures
            final(self).path == old(self).path,
            final(self)@ == (SegmentWorkerV { events: old(self)@.events.push(e@), ..old(self)@ }),
    {
        let ghost up = events(self.events@);
        self.events.push(e);
        assert(events(self.events@) =~= up.push(e@));
    }
}

// ------------------------------------------------------------------- fusion

/// Whether the join and the group behind a path are taken in one pass over a left
/// chunk.
pub open spec fn fuses(
    g: PlanGraph,
    p: FusedShapePlan,
    group: NodeId,
    l: Batch,
    r: Batch,
    rk: Seq<usize>,
) -> bool {
    resolvable(g, p, group, l, r, rk) && !g.nodes@[p.join as int].op->Join_kind.right_kept()
}

proof fn lemma_cell_in(
    g: PlanGraph,
    p: FusedShapePlan,
    c: FusedCell,
    l: Batch,
    r: Batch,
    rk: Seq<usize>,
    name: Seq<char>,
)
    requires
        l.wf(),
        r.wf(),
        cell_named(c, plan_items(g, p), l, r, rk, name),
    ensures
        cell_in(c, l, r),
{
    lemma_index_in(l.fields, name);
    lemma_right_bound(l, r, rk, name, r.fields.len());
    match plan_items(g, p) {
        None => {},
        Some(s) => {
            let e = s[item_named(s, name)->Some_0].0;
            match e {
                crate::expr::Expr::Field { name, access } => {
                    lemma_index_in(l.fields, name@);
                    lemma_right_bound(l, r, rk, name@, r.fields.len());
                },
                crate::expr::Expr::Func { func, args } => {
                    let name = args@[0]->Field_name@;
                    lemma_index_in(l.fields, name);
                    lemma_right_bound(l, r, rk, name, r.fields.len());
                },
                _ => {},
            }
        },
    }
}

/// A plan that was resolved reads its chunks within their columns.
proof fn lemma_resolved_reads(
    g: PlanGraph,
    p: FusedShapePlan,
    group: NodeId,
    l: Batch,
    r: Batch,
    rk: Seq<usize>,
    f: FusedPlan,
)
    requires
        plan_in(g, p, group),
        l.wf(),
        r.wf(),
        forall|i: int| 0 <= i < rk.len() ==> (#[trigger] rk[i]) < r.columns.len(),
        resolved(g, p, group, l, r, rk, f),
        !f.kind.right_kept(),
    ensures
        plan_reads(g, f, l, r, rk),
{
    let keys = g.nodes@[p.join as int].op->Join_left_keys@;
    let gkeys = g.nodes@[group as int].op->GroupBy_keys@;
    let aggs = g.nodes@[group as int].op->GroupBy_aggs@;
    assert forall|i: int| 0 <= i < f.lk@.len() implies (#[trigger] f.lk@[i]) < l.columns.len() by {
        lemma_index_in(l.fields, keys[i].root@);
    }
    assert forall|i: int| 0 <= i < f.key_cells@.len() implies cell_in(
        #[trigger] f.key_cells@[i],
        l,
        r,
    ) by {
        lemma_cell_in(g, p, f.key_cells@[i], l, r, rk, gkeys[i].root@);
    }
    assert forall|i: int| 0 <= i < f.agg_cells@.len() implies cell_in(
        #[trigger] f.agg_cells@[i],
        l,
        r,
    ) by {
        lemma_cell_in(g, p, f.agg_cells@[i], l, r, rk, aggs[i].col@);
    }
}

/// A worker whose path comes in two pieces: the first up to the join, the second,
/// with the group, from the join on.
pub struct FusedWorker {
    pub prefix: Vec<Labelled>,
    pub rest: Worker,
}

/// What the worker has gathered after a chunk that came out of the first piece as
/// `x`, with these events and this number.
pub open spec fn fused_step(
    old: WorkerV,
    now: WorkerV,
    p: PathV,
    rows: Seq<crate::group::RowV>,
    aggs: Seq<AggV>,
) -> bool {
    now == (WorkerV {
        groups: grouped(old.groups, rows, aggs),
        events: old.events + p.events,
        next: p.next,
        rows: tally(old.rows, rows.len()),
    })
}

/// What the worker has gathered after a chunk: what comes out of the first piece
/// goes through the join into the group in one pass where that can be, and along
/// the second piece where not.
pub open spec fn fused_fed(
    g: PlanGraph,
    p: FusedShapePlan,
    group: NodeId,
    right: Batch,
    rk: Seq<usize>,
    prefix: Seq<Labelled>,
    rest: Seq<Labelled>,
    label: Seq<char>,
    keys: Seq<Seq<char>>,
    aggs: Seq<AggV>,
    old: WorkerV,
    now: WorkerV,
    b: Batch,
    log: Log,
) -> bool {
    path_out(
        prefix,
        prefix.len(),
        PathV { chunk: Some(b), events: Seq::empty(), next: old.next },
        log,
    ) matches Ok(v) && match v.chunk {
        None => now == (WorkerV { events: old.events + v.events, next: v.next, ..old }),
        Some(x) => if fuses(g, p, group, x, right, rk) {
            exists|f: FusedPlan|
                #[trigger] resolved(g, p, group, x, right, rk, f) && (fused_out(
                    g,
                    f,
                    aggs,
                    x,
                    right,
                    rk,
                    log,
                ) matches Ok(rows) && fused_step(old, now, v, rows, aggs))
        } else {
            worked(
                rest,
                label,
                keys,
                aggs,
                WorkerV { events: Seq::empty(), next: v.next, ..old },
                x,
                log,
            ) matches Ok(w) && now == (WorkerV { events: old.events + v.events + w.events, ..w })
        },
    }
}

impl FusedWorker {
    /// Both pieces of the path and the group are well formed.
    pub open spec fn wf(&self) -> bool {
        path_wf(self.prefix@) && self.rest.wf()
    }

    /// The group is the one of the plan.
    pub open spec fn fits(&self, g: PlanGraph, group: NodeId) -> bool {
        &&& self.rest.group.keys@.len() == g.nodes@[group as int].op->GroupBy_keys@.len()
        &&& self.rest.group.aggs@.len() == g.nodes@[group as int].op->GroupBy_aggs@.len()
    }

    /// Sends a chunk along the path. What comes out of the first piece goes
    /// through the join into the group in one pass where that can be (see
    /// [`fuses`]), and along the second piece where not. A question leaves
    /// everything as it was.
    pub fn feed(
        &mut self,
        g: &PlanGraph,
        p: &FusedShapePlan,
        group: NodeId,
        right: &Chunk,
        rk: &Vec<usize>,
        chunk: Chunk,
        host: &Answers,
    ) -> (r: Result<(), Ask>)
        requires
            old(self).wf(),
            old(self).fits(*g, group),
            plan_in(*g, *p, group),
            chunk@.wf(),
            right@.wf(),
            forall|i: int| 0 <= i < rk@.len() ==> (#[trigger] rk@[i]) < right@.columns.len(),
        ensures
            final(self).wf(),
            final(self).prefix == old(self).prefix,
            final(self).rest.path == old(self).rest.path,
            final(self).rest.label == old(self).rest.label,
            final(self).rest.group.keys == old(self).rest.group.keys,
            final(self).rest.group.aggs == old(self).rest.group.aggs,
            final(self).rest.group.emitted == old(self).rest.group.emitted,
            r is Ok ==> fused_fed(
                *g,
                *p,
                group,
                right@,
                rk@,
                old(self).prefix@,
                old(self).rest.path@,
                old(self).rest.label@,
                texts(old(self).rest.group.keys@),
                old(self).rest.group.aggs_view(),
                old(self).rest@,
                final(self).rest@,
                chunk@,
                host@,
            ),
            match path_out(
                old(self).prefix@,
                old(self).prefix@.len(),
                PathV { chunk: Some(chunk@), events: Seq::empty(), next: old(self).rest.next },
                host@,
            ) {
                Err(q) => r matches Err(a) && a@ == q && final(self).rest@ == old(self).rest@,
                Ok(v) => match v.chunk {
                    None => r is Ok && final(self).rest@ == (WorkerV {
                        events: old(self).rest@.events + v.events,
                        next: v.next,
                        ..old(self).rest@
                    }),
                    Some(x) => if fuses(*g, *p, group, x, right@, rk@) {
                        exists|f: FusedPlan|
                            #[trigger] resolved(*g, *p, group, x, right@, rk@, f) && match (
                                r,
                                fused_out(
                                    *g,
                                    f,
                                    old(self).rest.group.aggs_view(),
                                    x,
                                    right@,
                                    rk@,
                                    host@,
                                ),
                            ) {
                                (Ok(_), Ok(rows)) => fused_step(
                                    old(self).rest@,
                                    final(self).rest@,
                                    v,
                                    rows,
                                    old(self).rest.group.aggs_view(),
                                ),
                                (Err(a), Err(q)) => a@ == q && final(self).rest@ == old(
                                    self,
                                ).rest@,
                                _ => false,
                            }
                    } else {
                        match (
                            r,
                            worked(
                                old(self).rest.path@,
                                old(self).rest.label@,
                                texts(old(self).rest.group.keys@),
                                old(self).rest.group.aggs_view(),
                                WorkerV {
                                    events: Seq::empty(),
                                    next: v.next,
                                    ..old(self).rest@
                                },
                                x,
                                host@,
                            ),
                        ) {
                            (Ok(_), Ok(w)) => final(self).rest@ == (WorkerV {
                                events: old(self).rest@.events + v.events + w.events,
                                ..w
                            }),
                            (Err(a), Err(q)) => a@ == q && final(self).rest@ == old(self).rest@,
                            _ => false,
                        }
                    },
                },
            },
    {
        let ghost was = self.rest@;
        let on: OnPath = match run_path(&self.prefix, chunk, self.rest.next, host) {
            Err(a) => {
                return Err(a);
            },
            Ok(on) => on,
        };
        let ghost v = on@;
        let x: Chunk = match on.chunk {
            None => {
                append_events(&mut self.rest.events, on.events);
                self.rest.next = on.next;
                return Ok(());
            },
            Some(x) => x,
        };
        let plan: Option<FusedPlan> = match resolve_fused_plan(g, p, group, &x, right, rk) {
            None => None,
            Some(f) => if f.kind.keeps_right() {
                None
            } else {
                Some(f)
            },
        };
        match plan {
            Some(f) => {
                proof {
                    lemma_resolved_reads(*g, *p, group, x@, right@, rk@, f);
                }
                match fused_feed_chunk(g, &f, &mut self.rest.group, &x, right, rk, host) {
                    Err(a) => {
                        assert(resolved(*g, *p, group, x@, right@, rk@, f));
                        Err(a)
                    },
                    Ok(n) => {
                        append_events(&mut self.rest.events, on.events);
                        self.rest.next = on.next;
                        self.rest.rows = add_to(self.rest.rows, n);
                        assert(resolved(*g, *p, group, x@, right@, rk@, f));
                        Ok(())
                    },
                }
            },
            None => {
                let mut before: Vec<ErrorEvent> = Vec::new();
                std::mem::swap(&mut before, &mut self.rest.events);
                let next: u64 = self.rest.next;
                self.rest.next = on.next;
                assert(events(self.rest.events@) =~= Seq::empty());
                assert(self.rest@ == (WorkerV { events: Seq::empty(), next: v.next, ..was }));
                match self.rest.feed(x, host) {
                    Err(a) => {
                        self.rest.events = before;
                        self.rest.next = next;
                        Err(a)
                    },
                    Ok(_) => {
                        let mut after: Vec<ErrorEvent> = Vec::new();
                        std::mem::swap(&mut after, &mut self.rest.events);
                        append_events(&mut before, on.events);
                        append_events(&mut before, after);
                        self.rest.events = before;
                        Ok(())
                    },
                }
            },
        }
    }
}

} // verus!
