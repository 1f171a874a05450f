//! The steps that rows pass between a source and a group or a sink, each of
//! which works on a chunk by itself.
use vstd::prelude::*;
use crate::chunk::{batches, gathered, Batch, Chunk};
use crate::event::{events, CtxV, ErrorEvent, ErrorScope, EventV, OpCtx, Severity};
use crate::fill::{fill_warned, filled_chunk, Fill};
use crate::host::{text_answer, Answers, Ask, Log, Query};
use crate::chunk::index_in;
use crate::join::{join_chunks, joined_chunk, key_warned, warn_key, JoinKind};
use crate::kernel::selected;
use crate::rows::{all_wf, emitted, known, resolve_names, unknown, within};
use crate::select::{filled_rows, filtered, DropNa, Filter, FilterProject};
use crate::shape::{cast_views, computed, dropped, firsts, in_place, item_warned, listing, pair_views, picked, rebuilt, recast, renamed, reordered, warned, Cast, Drop, Project, ProjectExpr, Rename, Reorder};
use crate::plan::{FillMethod, Op};
use crate::value::texts;

verus! {

/// A join of the rows that flow, on the left, with rows that are held.
pub struct Probe {
    pub left_keys: Vec<String>,
    pub kind: JoinKind,
    pub right: Chunk,
    /// The places of the key columns on the right.
    pub rk: Vec<usize>,
}

/// A step.
pub enum Stage {
    Filter(Filter),
    FilterProject(FilterProject),
    DropNa(DropNa),
    Project(Project),
    ProjectExpr(ProjectExpr),
    Rename(Rename),
    Drop(Drop),
    Cast(Cast),
    Reorder(Reorder),
    Fill(Fill),
    Broadcast(Probe),
}

/// What a step makes of a chunk: the chunks that it hands on, and the context
/// after it; or a question.
pub type Passed = Result<(Seq<Batch>, CtxV), Query>;

/// The warning of names that are no columns.
pub open spec fn list_warned(c: CtxV, what: Seq<char>, list: Seq<char>, id: u64) -> CtxV {
    c.raised(
        EventV {
            chunk: Some(id),
            ..c.event(Severity::Warn, ErrorScope::Chunk, what + list)
        },
    )
}

/// What a fused filter and projection makes of a chunk.
pub open spec fn fused_out(s: FilterProject, b: Batch, c: CtxV, log: Log) -> Passed {
    match selected(s.preds@, b, log) {
        Err(q) => Err(q),
        Ok(keep) => match s.fields {
            None => Ok((emitted(b, keep), c)),
            Some(names) => if keep.len() == 0 {
                Ok((Seq::empty(), c))
            } else if unknown(b.fields, texts(names@)) is None {
                Ok((seq![picked(gathered(b, keep), known(b.fields, texts(names@)))], c))
            } else {
                match text_answer(log, listing(texts(names@))) {
                    Err(q) => Err(q),
                    Ok(list) => Ok(
                        (
                            seq![gathered(b, keep)],
                            list_warned(c, "fused project: unknown field in "@, list, b.id),
                        ),
                    ),
                }
            },
        },
    }
}

/// What a broadcast join makes of a chunk.
pub open spec fn probed(s: Probe, b: Batch, c: CtxV, log: Log) -> Passed {
    let names = texts(s.left_keys@);
    match unknown(b.fields, names) {
        Some(i) => Ok((Seq::empty(), key_warned(c, "join: unknown left key '"@, names[i]))),
        None => match joined_chunk(
            b,
            s.right@,
            known(b.fields, names),
            s.rk@,
            s.kind,
            c.next_chunk_id,
            log,
        ) {
            Err(q) => Err(q),
            Ok(j) => Ok((seq![j], c.advanced())),
        },
    }
}

/// What a step makes of a chunk.
pub open spec fn stage_out(s: Stage, b: Batch, c: CtxV, log: Log) -> Passed {
    match s {
        Stage::Filter(f) => match filtered(f.preds@, b, log) {
            Err(q) => Err(q),
            Ok(out) => Ok((out, c)),
        },
        Stage::FilterProject(f) => fused_out(f, b, c, log),
        Stage::DropNa(f) => match filled_rows(b, texts(f.cols@), log) {
            Err(q) => Err(q),
            Ok(keep) => Ok((emitted(b, keep), c)),
        },
        Stage::Project(f) => {
            let names = texts(f.fields@);
            if unknown(b.fields, names) is None {
                Ok((seq![picked(b, known(b.fields, names))], c))
            } else {
                match text_answer(log, listing(names)) {
                    Err(q) => Err(q),
                    Ok(list) => Ok(
                        (
                            seq![b],
                            list_warned(c, "project: unknown field in "@, list, b.id),
                        ),
                    ),
                }
            }
        },
        Stage::ProjectExpr(f) => match computed(b, f.items@, f.items@.len(), log) {
            Err(q) => Err(q),
            Ok((fields, columns)) => Ok(
                (
                    seq![rebuilt(b, fields, columns)],
                    item_warned(c, b, f.items@, f.items@.len()),
                ),
            ),
        },
        Stage::Rename(f) => {
            let pairs = pair_views(f.pairs@);
            Ok(
                (
                    seq![rebuilt(b, renamed(b.fields, pairs, pairs.len()), b.columns)],
                    warned(
                        c,
                        b.fields,
                        firsts(pairs),
                        pairs.len(),
                        "rename: unknown column '"@,
                        b.id,
                    ),
                ),
            )
        },
        Stage::Drop(f) => Ok((seq![dropped(b, texts(f.cols@))], c)),
        Stage::Cast(f) => {
            let casts = cast_views(f.casts@);
            match recast(b, casts, casts.len(), log) {
                Err(q) => Err(q),
                Ok((fields, columns)) => Ok(
                    (
                        seq![
                            if known(b.fields, firsts(casts)).len() == 0 {
                                b
                            } else {
                                rebuilt(b, fields, columns)
                            },
                        ],
                        warned(
                            c,
                            b.fields,
                            firsts(casts),
                            casts.len(),
                            "cast: unknown column '"@,
                            b.id,
                        ),
                    ),
                ),
            }
        },
        Stage::Reorder(f) => {
            let order = reordered(b.fields, texts(f.cols@));
            Ok(
                (
                    seq![
                        if in_place(order) {
                            b
                        } else {
                            picked(b, order)
                        },
                    ],
                    c,
                ),
            )
        },
        Stage::Fill(f) => Ok(
            (
                seq![filled_chunk(b, f.col@, f.value@)],
                if index_in(b.fields, f.col@) is None {
                    fill_warned(c, f.col@)
                } else {
                    c
                },
            ),
        ),
        Stage::Broadcast(p) => probed(p, b, c, log),
    }
}

/// Does what came back agree with what is owed?
pub open spec fn passes_as(r: Result<Vec<Chunk>, Ask>, s: Passed, c: CtxV) -> bool {
    match (r, s) {
        (Ok(v), Ok((out, after))) => batches(v@) == out && all_wf(out) && c == after,
        (Err(a), Err(q)) => a@ == q,
        _ => false,
    }
}

/// One chunk as a list.
fn one(c: Chunk) -> (r: Vec<Chunk>)
    ensures
        batches(r@) == seq![c@],
        c@.wf() ==> all_wf(batches(r@)),
{
    let mut v: Vec<Chunk> = Vec::new();
    v.push(c);
    assert(batches(v@) =~= seq![c@]);
    v
}

impl Stage {
    /// The right side of a broadcast join is well formed, has its key columns,
    /// and the join keeps no right row that nothing matches.
    pub open spec fn wf(&self) -> bool {
        match self {
            Stage::Broadcast(p) => p.right@.wf() && within(p.right@.fields, p.rk@)
                && p.left_keys@.len() == p.rk@.len() && !p.kind.right_kept(),
            _ => true,
        }
    }

    fn probe(p: &Probe, chunk: &Chunk, ctx: &mut OpCtx, host: &Answers) -> (r: Result<
        Vec<Chunk>,
        Ask,
    >)
        requires
            chunk@.wf(),
            p.right@.wf(),
            within(p.right@.fields, p.rk@),
            p.left_keys@.len() == p.rk@.len(),
        ensures
            passes_as(r, probed(*p, chunk@, old(ctx)@, host@), final(ctx)@),
            r is Err ==> final(ctx)@ == old(ctx)@,
    {
        assert(texts(p.left_keys@).len() == p.left_keys@.len());
        match resolve_names(chunk, &p.left_keys) {
            Err(i) => {
                warn_key(ctx, "join: unknown left key '", p.left_keys[i].as_str());
                let v: Vec<Chunk> = Vec::new();
                assert(batches(v@) =~= Seq::empty());
                Ok(v)
            },
            Ok(lk) => match join_chunks(
                chunk,
                &p.right,
                &lk,
                &p.rk,
                p.kind,
                ctx.next_chunk_id,
                host,
            ) {
                Err(a) => Err(a),
                Ok(c) => {
                    let _id: u64 = ctx.fresh_id();
                    Ok(one(c))
                },
            },
        }
    }

    /// What the step makes of a chunk (see [`stage_out`]). A question leaves
    /// the context as it was.
    pub fn process(&self, chunk: &Chunk, ctx: &mut OpCtx, host: &Answers) -> (r: Result<
        Vec<Chunk>,
        Ask,
    >)
        requires
            self.wf(),
            chunk@.wf(),
        ensures
            passes_as(r, stage_out(*self, chunk@, old(ctx)@, host@), final(ctx)@),
            r is Err ==> final(ctx)@ == old(ctx)@,
    {
        match self {
            Stage::Filter(f) => f.process(chunk, host),
            Stage::FilterProject(f) => {
                let r = f.process(chunk, ctx, host);
                proof {
                    if r is Ok {
                        let v = r->Ok_0;
                        if v@.len() == 0 {
                            assert(batches(v@) =~= Seq::empty());
                        }
                    }
                }
                r
            },
            Stage::DropNa(f) => f.process(chunk, host),
            Stage::Project(f) => match f.process(chunk, ctx, host) {
                Err(a) => Err(a),
                Ok(c) => Ok(one(c)),
            },
            Stage::ProjectExpr(f) => match f.process(chunk, ctx, host) {
                Err(a) => Err(a),
                Ok(c) => Ok(one(c)),
            },
            Stage::Rename(f) => Ok(one(f.process(chunk, ctx))),
            Stage::Drop(f) => Ok(one(f.process(chunk))),
            Stage::Cast(f) => match f.process(chunk, ctx, host) {
                Err(a) => Err(a),
                Ok(c) => Ok(one(c)),
            },
            Stage::Reorder(f) => Ok(one(f.process(chunk))),
            Stage::Fill(f) => Ok(one(f.process(chunk, ctx))),
            Stage::Broadcast(p) => Stage::probe(p, chunk, ctx, host),
        }
    }
}

/// A step hands on at most one chunk for each that it gets.
pub proof fn lemma_at_most_one(s: Stage, b: Batch, c: CtxV, log: Log)
    ensures
        stage_out(s, b, c, log) matches Ok((out, _)) ==> out.len() <= 1,
{
}

// ------------------------------------------------------------------ paths

/// A step with the label of its node.
pub struct Labelled {
    pub label: String,
    pub stage: Stage,
}

/// What is on its way along a path: at most one chunk, with the events raised
/// and the number of the next chunk.
#[verifier::ext_equal]
pub struct PathV {
    pub chunk: Option<Batch>,
    pub events: Seq<EventV>,
    pub next: u64,
}

/// A chunk on its way along a path.
pub struct OnPath {
    pub chunk: Option<Chunk>,
    pub events: Vec<ErrorEvent>,
    pub next: u64,
}

/// The view of a chunk that may be there.
pub open spec fn opt_batch(c: Option<Chunk>) -> Option<Batch> {
    match c {
        Some(x) => Some(x@),
        None => None,
    }
}

impl OnPath {
    /// What is on its way.
    pub open spec fn view(&self) -> PathV {
        PathV { chunk: opt_batch(self.chunk), events: events(self.events@), next: self.next }
    }
}

/// One step further.
#[verifier::opaque]
pub open spec fn stepped(l: Labelled, p: PathV, log: Log) -> Result<PathV, Query> {
    match p.chunk {
        None => Ok(p),
        Some(b) => match stage_out(
            l.stage,
            b,
            CtxV { label: l.label@, errors: p.events, next_chunk_id: p.next },
            log,
        ) {
            Err(q) => Err(q),
            Ok((out, c)) => Ok(
                PathV {
                    chunk: if out.len() == 0 {
                        None
                    } else {
                        Some(out[0])
                    },
                    events: c.errors,
                    next: c.next_chunk_id,
                },
            ),
        },
    }
}

/// The first `n` steps of a path, one after the other.
pub open spec fn path_out(path: Seq<Labelled>, n: nat, p: PathV, log: Log) -> Result<PathV, Query>
    decreases n,
{
    if n == 0 {
        Ok(p)
    } else {
        match path_out(path, (n - 1) as nat, p, log) {
            Err(q) => Err(q),
            Ok(x) => stepped(path[n - 1], x, log),
        }
    }
}

proof fn lemma_path_stops(path: Seq<Labelled>, n: nat, m: nat, p: PathV, log: Log)
    requires
        path_out(path, n, p, log) is Err,
        n <= m,
    ensures
        path_out(path, m, p, log) == path_out(path, n, p, log),
    decreases m,
{
    if n < m {
        lemma_path_stops(path, n, (m - 1) as nat, p, log);
    }
}

/// Every step is well formed.
pub open spec fn path_wf(path: Seq<Labelled>) -> bool {
    forall|i: int| 0 <= i < path.len() ==> (#[trigger] path[i]).stage.wf()
}

fn step(l: &Labelled, p: OnPath, host: &Answers) -> (r: Result<OnPath, Ask>)
    requires
        l.stage.wf(),
        p@.chunk matches Some(b) ==> b.wf(),
    ensures
        match (r, stepped(*l, p@, host@)) {
            (Ok(x), Ok(v)) => x@ == v && (v.chunk matches Some(b) ==> b.wf()),
            (Err(a), Err(q)) => a@ == q,
            _ => false,
        },
{
    let ghost was = p@;
    proof {
        reveal(stepped);
    }
    match p.chunk {
        None => Ok(p),
        Some(chunk) => {
            let mut ctx = OpCtx {
                label: l.label.clone(),
                errors: p.events,
                next_chunk_id: p.next,
            };
            let ghost c0 = ctx@;
            assert(c0 == (CtxV { label: l.label@, errors: was.events, next_chunk_id: was.next }));
            match l.stage.process(&chunk, &mut ctx, host) {
                Err(a) => Err(a),
                Ok(v) => {
                    let mut v: Vec<Chunk> = v;
                    let ghost bs = batches(v@);
                    proof {
                        lemma_at_most_one(l.stage, chunk@, c0, host@);
                    }
                    let out: Option<Chunk> = v.pop();
                    proof {
                        if bs.len() > 0 {
                            assert(bs[0].wf());
                            assert(out->Some_0@ == bs[0]);
                        }
                    }
                    Ok(OnPath { chunk: out, events: ctx.errors, next: ctx.next_chunk_id })
                },
            }
        },
    }
}

/// Sends a chunk along a path (see [`path_out`]).
pub fn run_path(path: &Vec<Labelled>, chunk: Chunk, next: u64, host: &Answers) -> (r: Result<
    OnPath,
    Ask,
>)
    requires
        path_wf(path@),
        chunk@.wf(),
    ensures
        match (
            r,
            path_out(
                path@,
                path@.len(),
                PathV { chunk: Some(chunk@), events: Seq::empty(), next },
                host@,
            ),
        ) {
            (Ok(x), Ok(v)) => x@ == v && (v.chunk matches Some(b) ==> b.wf()),
            (Err(a), Err(q)) => a@ == q,
            _ => false,
        },
{
    let ghost start = PathV { chunk: Some(chunk@), events: Seq::empty(), next };
    let mut p = OnPath { chunk: Some(chunk), events: Vec::new(), next };
    assert(p@.events =~= Seq::empty());
    for n in 0..path.len()
        invariant
            path_wf(path@),
            start == (PathV { chunk: Some(chunk@), events: Seq::empty(), next }),
            path_out(path@, n as nat, start, host@) == Ok::<PathV, Query>(p@),
            p@.chunk matches Some(b) ==> b.wf(),
    {
        assert(path@[n as int].stage.wf());
        match step(&path[n], p, host) {
            Err(a) => {
                proof {
                    lemma_path_stops(path@, (n + 1) as nat, path@.len(), start, host@);
                }
                return Err(a);
            },
            Ok(x) => {
                p = x;
            },
        }
    }
    Ok(p)
}


// --------------------------------------------------------------- building

/// Is the step the one of the operator?
pub open spec fn built(op: Op, s: Stage) -> bool {
    match op {
        Op::Filter { pred } => s matches Stage::Filter(f) && f.preds@ == seq![pred],
        Op::FilterProject { preds, fields } => s matches Stage::FilterProject(f) && f.preds == preds
            && f.fields == fields,
        Op::DropNa { cols } => s matches Stage::DropNa(f) && f.cols == cols,
        Op::Project { fields } => s matches Stage::Project(f) && f.fields == fields,
        Op::ProjectExpr { items, .. } => s matches Stage::ProjectExpr(f) && f.items == items,
        Op::Rename { pairs } => s matches Stage::Rename(f) && f.pairs == pairs,
        Op::Drop { cols } => s matches Stage::Drop(f) && f.cols == cols,
        Op::Cast { casts } => s matches Stage::Cast(f) && f.casts == casts,
        Op::Reorder { cols } => s matches Stage::Reorder(f) && f.cols == cols,
        Op::Fill { col, method } => s matches Stage::Fill(f) && f.col == col && method
            == FillMethod::Value(f.value),
        _ => false,
    }
}

/// The step of a stateless operator; `None` for any other.
pub fn stage_of(op: Op) -> (r: Option<Stage>)
    ensures
        match r {
            Some(s) => built(op, s) && s.wf(),
            None => !op.stateless(),
        },
{
    match op {
        Op::Filter { pred } => {
            let f: Filter = Filter::new(pred);
            Some(Stage::Filter(f))
        },
        Op::FilterProject { preds, fields } => Some(
            Stage::FilterProject(FilterProject { preds, fields }),
        ),
        Op::DropNa { cols } => Some(Stage::DropNa(DropNa { cols })),
        Op::Project { fields } => Some(Stage::Project(Project { fields })),
        Op::ProjectExpr { items, .. } => Some(Stage::ProjectExpr(ProjectExpr { items })),
        Op::Rename { pairs } => Some(Stage::Rename(Rename { pairs })),
        Op::Drop { cols } => Some(Stage::Drop(Drop { cols })),
        Op::Cast { casts } => Some(Stage::Cast(Cast { casts })),
        Op::Reorder { cols } => Some(Stage::Reorder(Reorder { cols })),
        Op::Fill { col, method } => match method {
            FillMethod::Value(value) => Some(Stage::Fill(Fill { col, value })),
            _ => None,
        },
        _ => None,
    }
}

/// The step of a broadcast join, once the right side is read: all its chunks in
/// one, and the places of its keys. `None` where there is no chunk or a key is
/// no column.
pub fn broadcast_of(
    left_keys: Vec<String>,
    right_keys: &Vec<String>,
    kind: JoinKind,
    chunks: &Vec<Chunk>,
) -> (r: Option<Stage>)
    requires
        crate::concat::stack(batches(chunks@)),
        left_keys@.len() == right_keys@.len(),
        !kind.right_kept(),
    ensures
        match r {
            Some(s) => s.wf() && chunks@.len() > 0 && unknown(
                crate::concat::stacked(batches(chunks@)).fields,
                texts(right_keys@),
            ) is None && (s matches Stage::Broadcast(p) && p.left_keys == left_keys && p.kind == kind
                && p.right@ == crate::concat::stacked(batches(chunks@)) && p.rk@ == known(
                crate::concat::stacked(batches(chunks@)).fields,
                texts(right_keys@),
            )),
            None => chunks@.len() == 0 || unknown(
                crate::concat::stacked(batches(chunks@)).fields,
                texts(right_keys@),
            ) is Some,
        },
{
    match crate::concat::concat_chunks(chunks) {
        None => None,
        Some(right) => match resolve_names(&right, right_keys) {
            Err(_) => None,
            Ok(rk) => {
                assert(texts(right_keys@).len() == right_keys@.len());
                Some(Stage::Broadcast(Probe { left_keys, kind, right, rk }))
            },
        },
    }
}

} // verus!
