//! The operators of a flow: what a node of the plan becomes, what it makes of a
//! chunk, and what it puts out at the end.
use vstd::prelude::*;
use crate::chunk::{batches, index_in, Batch, Chunk};
use crate::describe::{fresh, lines, more_rows, summaries, summary_chunk, with_rows, Describe};
use crate::event::{CtxV, OpCtx};
use crate::fill::{backward_chunk, carry_view, fill_value, fill_warned, forward_chunk, next_from, no_numbers, refilled_chunk, text_column, Fill, FillDirectional, FillStat};
use crate::group::{agg_lanes, agg_views, group_chunk, group_views, group_warned, grouped, rows_in, GroupBy, Groups};
use crate::host::{Answers, Ask, Log};
use crate::join::{key_warned, Join, Outcome};
use crate::parts::new_group;
use crate::expr::PathExpr;
use crate::plan::{FillMethod, NodeId, Op};
use crate::rows::{all_wf, emitted, every, known, targets, unknown};
use crate::select::{first_rows, let_through, row_keys, seen_after, Distinct, Take};
use crate::sort::{key_views, sort_ends, Sort};
use crate::stage::{built, passes_as, stage_of, stage_out, Stage};
use crate::validate::{bare_keys, bare_roots};
use crate::value::texts;

verus! {

/// An operator at work.
pub enum Operator {
    Stage(Stage),
    Take(Take),
    Distinct(Distinct),
    Sort(Sort),
    Describe(Describe),
    Directional(FillDirectional),
    Stat(FillStat),
    Group(GroupBy),
    Join(Join),
    /// Hands every chunk on as it is.
    Forward,
}

/// What came back: the chunks handed on, or a question.
pub type Handed = Result<Vec<Chunk>, Ask>;

// ------------------------------------------------------------------ building

/// Whether what the operator does lies outside the flow: it reads, writes or
/// replays, or its work is done elsewhere.
pub open spec fn at_edge(op: Op) -> bool {
    match op {
        Op::Source { .. } => true,
        Op::Read => true,
        Op::StreamRef { .. } => true,
        Op::Sink { .. } => true,
        Op::Validate { .. } => true,
        Op::AsofJoin { .. } => true,
        Op::Sessionize { .. } => true,
        Op::Shift { .. } => true,
        _ => false,
    }
}

fn edge(op: &Op) -> (r: bool)
    ensures
        r == at_edge(*op),
{
    matches!(
        op,
        Op::Source { .. } | Op::Read | Op::StreamRef { .. } | Op::Sink { .. }
            | Op::Validate { .. } | Op::AsofJoin { .. } | Op::Sessionize { .. } | Op::Shift { .. }
    )
}

/// The roots of sort keys, each with its direction.
pub open spec fn directed(keys: Seq<(PathExpr, bool)>) -> Seq<(Seq<char>, bool)> {
    Seq::new(keys.len(), |i: int| (keys[i].0.root@, keys[i].1))
}

/// The names of sort keys (see [`directed`]).
pub fn sort_by(keys: &Vec<(PathExpr, bool)>) -> (r: Vec<(String, bool)>)
    ensures
        key_views(r@) == directed(keys@),
{
    let mut out: Vec<(String, bool)> = Vec::new();
    for i in 0..keys.len()
        invariant
            out@.len() == i,
            forall|k: int|
                0 <= k < i ==> (#[trigger] out@[k]).0@ == keys@[k].0.root@ && out@[k].1
                    == keys@[k].1,
    {
        out.push((keys[i].0.root.clone(), keys[i].1));
    }
    assert(key_views(out@) =~= directed(keys@));
    out
}

/// The first input; the largest number where there is none.
pub open spec fn left_input(inputs: Seq<NodeId>) -> NodeId {
    if inputs.len() == 0 {
        usize::MAX
    } else {
        inputs[0]
    }
}

/// Whether this is the operator of a node with these inputs, before it has seen a
/// chunk.
pub open spec fn begins(op: Op, inputs: Seq<NodeId>, o: Operator) -> bool {
    match op {
        Op::Take { n } => o matches Operator::Take(t) && t.remaining == n,
        Op::Distinct { keys } => o matches Operator::Distinct(d) && texts(d.keys@) == bare_roots(
            keys@,
        ) && d.seen_keys() == Set::<Seq<char>>::empty(),
        Op::Sort { keys } => o matches Operator::Sort(s) && key_views(s.keys@) == directed(keys@)
            && s.buf@.len() == 0 && !s.emitted,
        Op::Describe => o matches Operator::Describe(d) && d.cols@.len() == 0 && d.count == 0
            && !d.inited && !d.emitted,
        Op::Fill { col, method } => match method {
            FillMethod::Value(_) => o matches Operator::Stage(s) && built(op, s),
            FillMethod::Ffill => o matches Operator::Directional(f) && f.col == col && f.forward
                && f.carry is None && f.buf@.len() == 0 && !f.warned,
            FillMethod::Bfill => o matches Operator::Directional(f) && f.col == col && !f.forward
                && f.carry is None && f.buf@.len() == 0 && !f.warned,
            FillMethod::Mean => o matches Operator::Stat(f) && f.col == col && !f.median
                && f.buf@.len() == 0 && !f.warned,
            FillMethod::Median => o matches Operator::Stat(f) && f.col == col && f.median
                && f.buf@.len() == 0 && !f.warned,
        },
        Op::GroupBy { keys, aggs } => o matches Operator::Group(g) && texts(g.keys@)
            == bare_roots(keys@) && g.aggs_view() == agg_views(aggs@) && g.groups()
            == Groups::empty() && !g.emitted,
        Op::Join { left_keys, right_keys, kind } => o matches Operator::Join(j) && texts(
            j.left_keys@,
        ) == bare_roots(left_keys@) && texts(j.right_keys@) == bare_roots(right_keys@) && j.kind
            == kind && j.left_id == left_input(inputs) && j.left_buf@.len() == 0
            && j.right_buf@.len() == 0,
        Op::Merge => o is Forward,
        Op::Branch => o is Forward,
        Op::SinkPrint => o is Forward,
        _ => o matches Operator::Stage(s) && built(op, s),
    }
}

/// The operator of a node with these inputs (see [`begins`]). What lies outside
/// the flow is handed back.
pub fn build(op: Op, inputs: &Vec<NodeId>) -> (r: Result<Operator, Op>)
    requires
        op matches Op::Join { left_keys, right_keys, .. } ==> bare_roots(left_keys@).len()
            == bare_roots(right_keys@).len(),
    ensures
        match r {
            Ok(o) => begins(op, inputs@, o) && o.wf() && !at_edge(op),
            Err(back) => back == op && at_edge(op),
        },
{
    if edge(&op) {
        return Err(op);
    }
    let ghost whole = op;
    Ok(
        match op {
            Op::Take { n } => Operator::Take(Take { remaining: n }),
            Op::Distinct { keys } => Operator::Distinct(Distinct::new(bare_keys(&keys))),
            Op::Sort { keys } => Operator::Sort(Sort::new(sort_by(&keys))),
            Op::Describe => Operator::Describe(Describe::new()),
            Op::Fill { col, method } => match method {
                FillMethod::Value(value) => Operator::Stage(Stage::Fill(Fill { col, value })),
                FillMethod::Ffill => Operator::Directional(FillDirectional::ffill(col)),
                FillMethod::Bfill => Operator::Directional(FillDirectional::bfill(col)),
                FillMethod::Mean => Operator::Stat(FillStat::new(col, false)),
                FillMethod::Median => Operator::Stat(FillStat::new(col, true)),
            },
            Op::Join { left_keys, right_keys, kind } => {
                let left: Vec<String> = bare_keys(&left_keys);
                let right: Vec<String> = bare_keys(&right_keys);
                assert(texts(left@).len() == left@.len());
                assert(texts(right@).len() == right@.len());
                let left_id: usize = if inputs.len() == 0 {
                    usize::MAX
                } else {
                    inputs[0]
                };
                Operator::Join(Join::new(left, right, kind, left_id))
            },
            other => match new_group(&other) {
                Some(g) => Operator::Group(g),
                None => match stage_of(other) {
                    Some(s) => Operator::Stage(s),
                    None => Operator::Forward,
                },
            },
        },
    )
}

/// The operator that hands every chunk on, so that what reaches it is kept.
pub fn collector() -> (r: Operator)
    ensures
        r is Forward,
        r.wf(),
{
    Operator::Forward
}

// ------------------------------------------------------------------- running

/// What an operator makes of a chunk from the node `from`: what it hands on, and
/// what it and the context are afterwards. A question leaves both as they were.
pub open spec fn took(
    a: Operator,
    from: NodeId,
    b: Batch,
    c: CtxV,
    log: Log,
    r: Handed,
    z: Operator,
    d: CtxV,
) -> bool {
    match (a, z) {
        (Operator::Stage(s), Operator::Stage(t)) => t == s && passes_as(
            r,
            stage_out(s, b, c, log),
            d,
        ),
        (Operator::Take(s), Operator::Take(t)) => {
            let n = let_through(s.remaining as nat, b.len);
            &&& d == c
            &&& t.remaining == s.remaining - n
            &&& r matches Ok(v) && batches(v@) == if s.remaining == 0 {
                Seq::empty()
            } else {
                seq![crate::chunk::gathered(b, every(n))]
            }
        },
        (Operator::Distinct(s), Operator::Distinct(t)) => {
            &&& d == c
            &&& t.keys == s.keys
            &&& match (r, row_keys(b, targets(b, texts(s.keys@)), b.len, log)) {
                (Ok(v), Ok(keys)) => {
                    &&& first_rows(keys, s.seen_keys()) matches Ok(rows) && batches(v@) == emitted(
                        b,
                        rows,
                    )
                    &&& t.seen_keys() == seen_after(keys, s.seen_keys(), keys.len() as int)
                },
                (Err(x), Err(q)) => x@ == q && t.seen_keys() == s.seen_keys(),
                _ => false,
            }
        },
        (Operator::Sort(s), Operator::Sort(t)) => {
            &&& d == c
            &&& t.keys == s.keys
            &&& t.emitted == s.emitted
            &&& r matches Ok(v) && v@.len() == 0
            &&& batches(t.buf@) == if b.len == 0 {
                batches(s.buf@)
            } else {
                batches(s.buf@).push(b)
            }
        },
        (Operator::Describe(s), Operator::Describe(t)) => {
            &&& d == c
            &&& t.inited
            &&& t.emitted == s.emitted
            &&& t.count == more_rows(s.count as int, b.len as int)
            &&& r matches Ok(v) && v@.len() == 0
            &&& summaries(t.cols@) == with_rows(
                if s.inited {
                    summaries(s.cols@)
                } else {
                    fresh(b)
                },
                b,
            )
        },
        (Operator::Directional(s), Operator::Directional(t)) => {
            &&& t.col == s.col
            &&& t.forward == s.forward
            &&& r matches Ok(v) && if s.forward {
                let (out, carry) = forward_chunk(b, s.col@, carry_view(s.carry));
                &&& batches(v@) == seq![out]
                &&& carry_view(t.carry) == carry
                &&& t.warned == (s.warned || index_in(b.fields, s.col@) is None)
                &&& t.buf == s.buf
                &&& d == s.looked(b, c)
            } else {
                &&& v@.len() == 0
                &&& batches(t.buf@) == batches(s.buf@).push(b)
                &&& t.warned == s.warned
                &&& t.carry == s.carry
                &&& d == c
            }
        },
        (Operator::Stat(s), Operator::Stat(t)) => {
            &&& d == c
            &&& t.col == s.col
            &&& t.median == s.median
            &&& t.warned == s.warned
            &&& batches(t.buf@) == batches(s.buf@).push(b)
            &&& r matches Ok(v) && v@.len() == 0
        },
        (Operator::Group(s), Operator::Group(t)) => {
            let names = texts(s.keys@);
            &&& t.keys == s.keys
            &&& t.aggs == s.aggs
            &&& t.emitted == s.emitted
            &&& match unknown(b.fields, names) {
                Some(i) => (r matches Ok(v) && v@.len() == 0) && t.groups() == s.groups() && d
                    == group_warned(c, names[i]),
                None => d == c && match (
                    r,
                    rows_in(b, known(b.fields, names), s.aggs_view(), b.len, log),
                ) {
                    (Ok(v), Ok(rows)) => v@.len() == 0 && t.groups() == grouped(
                        s.groups(),
                        rows,
                        s.aggs_view(),
                    ),
                    (Err(x), Err(q)) => x@ == q && t.groups() == s.groups(),
                    _ => false,
                },
            }
        },
        (Operator::Join(s), Operator::Join(t)) => {
            &&& d == c
            &&& t.left_keys == s.left_keys
            &&& t.right_keys == s.right_keys
            &&& t.kind == s.kind
            &&& t.left_id == s.left_id
            &&& r matches Ok(v) && v@.len() == 0
            &&& batches(t.left_buf@) == if from == s.left_id {
                batches(s.left_buf@).push(b)
            } else {
                batches(s.left_buf@)
            }
            &&& batches(t.right_buf@) == if from == s.left_id {
                batches(s.right_buf@)
            } else {
                batches(s.right_buf@).push(b)
            }
        },
        (Operator::Forward, Operator::Forward) => d == c && (r matches Ok(v) && batches(v@)
            == seq![b]),
        _ => false,
    }
}

/// What an operator puts out at the end of its input, and what the context is
/// afterwards. A question leaves both as they were.
pub open spec fn closes(a: Operator, c: CtxV, log: Log, r: Handed, z: Operator, d: CtxV) -> bool {
    match (a, z) {
        (Operator::Sort(s), Operator::Sort(t)) => {
            &&& t.keys == s.keys
            &&& r matches Ok(v) && sort_ends(s, c, batches(v@), t, d)
        },
        (Operator::Describe(s), Operator::Describe(t)) => if s.emitted || !s.inited {
            (r matches Ok(v) && v@.len() == 0) && d == c && t == s
        } else {
            match (r, lines(summaries(s.cols@), s.cols@.len(), log)) {
                (Ok(v), Ok(l)) => batches(v@) == seq![summary_chunk(l, s.count, c.next_chunk_id)]
                    && d == c.advanced() && t == (Describe { emitted: true, ..s }),
                (Err(x), Err(q)) => x@ == q && d == c && t == s,
                _ => false,
            }
        },
        (Operator::Directional(s), Operator::Directional(t)) => {
            let bs = batches(s.buf@);
            &&& t.col == s.col
            &&& t.forward == s.forward
            &&& t.carry == s.carry
            &&& r matches Ok(v) && if s.forward || bs.len() == 0 {
                v@.len() == 0 && d == c && t == s
            } else {
                &&& t.buf@.len() == 0
                &&& t.warned == (s.warned || index_in(bs[0].fields, s.col@) is None)
                &&& d == s.looked(bs[0], c)
                &&& v@.len() == bs.len()
                &&& match text_column(bs[0], s.col@) {
                    None => batches(v@) == bs,
                    Some(ci) => forall|k: int|
                        0 <= k < bs.len() ==> (#[trigger] v@[k])@ == backward_chunk(
                            bs[k],
                            ci,
                            next_from(bs, ci, (k + 1) as nat),
                        ),
                }
            }
        },
        (Operator::Stat(s), Operator::Stat(t)) => {
            let bs = batches(s.buf@);
            &&& t.col == s.col
            &&& t.median == s.median
            &&& t.warned == (s.warned || (bs.len() > 0 && index_in(bs[0].fields, s.col@) is None))
            &&& if bs.len() == 0 {
                (r matches Ok(v) && v@.len() == 0) && d == c && t == s
            } else {
                match index_in(bs[0].fields, s.col@) {
                    None => (r matches Ok(v) && batches(v@) == bs) && t.buf@.len() == 0 && d == (
                    if s.warned {
                        c
                    } else {
                        fill_warned(c, s.col@)
                    }),
                    Some(ci) => if !(bs[0].columns[ci].dtype is Str) {
                        (r matches Ok(v) && batches(v@) == bs) && t.buf@.len() == 0 && d == c
                    } else {
                        match (r, fill_value(bs, ci, s.median, log)) {
                            (Ok(v), Ok(None)) => batches(v@) == bs && t.buf@.len() == 0 && d
                                == no_numbers(c, s.col@, s.median),
                            (Ok(v), Ok(Some(x))) => {
                                &&& v@.len() == bs.len()
                                &&& forall|k: int|
                                    0 <= k < bs.len() ==> (#[trigger] v@[k])@ == refilled_chunk(
                                        bs[k],
                                        ci,
                                        x,
                                    )
                                &&& t.buf@.len() == 0
                                &&& d == c
                            },
                            (Err(x), Err(q)) => x@ == q && t == s && d == c,
                            _ => false,
                        }
                    },
                }
            }
        },
        (Operator::Group(s), Operator::Group(t)) => {
            let gs = group_views(s.table.states@);
            &&& t.keys == s.keys
            &&& t.aggs == s.aggs
            &&& t.groups() == s.groups()
            &&& if s.emitted {
                (r matches Ok(v) && v@.len() == 0) && d == c && t.emitted
            } else {
                match (r, agg_lanes(gs, s.aggs_view(), s.aggs@.len(), log)) {
                    (Ok(v), Ok(ls)) => batches(v@) == seq![
                        group_chunk(texts(s.keys@), s.aggs_view(), gs, ls, c.next_chunk_id),
                    ] && d == c.advanced() && t.emitted,
                    (Err(x), Err(q)) => x@ == q && d == c && !t.emitted,
                    _ => false,
                }
            }
        },
        (Operator::Join(s), Operator::Join(t)) => {
            &&& t.left_keys == s.left_keys
            &&& t.right_keys == s.right_keys
            &&& t.kind == s.kind
            &&& t.left_id == s.left_id
            &&& r is Ok ==> t.left_buf@.len() == 0 && t.right_buf@.len() == 0
            &&& match s.outcome(c.next_chunk_id, log) {
                Outcome::Nothing => (r matches Ok(v) && v@.len() == 0) && d == c,
                Outcome::Side(b) => (r matches Ok(v) && batches(v@) == seq![b]) && d
                    == c.advanced(),
                Outcome::Unknown { what, key } => (r matches Ok(v) && v@.len() == 0) && d
                    == key_warned(c, what, key),
                Outcome::Rows(Ok(b)) => (r matches Ok(v) && batches(v@) == seq![b]) && d
                    == c.advanced(),
                Outcome::Rows(Err(q)) => (r matches Err(x) && x@ == q) && d == c && t == s,
            }
        },
        _ => z == a && d == c && (r matches Ok(v) && v@.len() == 0),
    }
}

/// The chunk as a list, where there is one.
fn listed(c: Option<Chunk>) -> (r: Vec<Chunk>)
    ensures
        batches(r@) == match c {
            None => Seq::empty(),
            Some(x) => seq![x@],
        },
        c is None ==> r@.len() == 0,
        (c matches Some(x) ==> x@.wf()) ==> all_wf(batches(r@)),
{
    let mut v: Vec<Chunk> = Vec::new();
    match c {
        None => {
            assert(batches(v@) =~= Seq::empty());
        },
        Some(x) => {
            v.push(x);
            assert(batches(v@) =~= seq![x@]);
        },
    }
    v
}

fn nothing() -> (r: Vec<Chunk>)
    ensures
        r@.len() == 0,
        batches(r@) == Seq::<Batch>::empty(),
        all_wf(batches(r@)),
{
    listed(None)
}

impl Operator {
    /// What the operator holds is sound.
    pub open spec fn wf(&self) -> bool {
        match self {
            Operator::Stage(s) => s.wf(),
            Operator::Take(_) => true,
            Operator::Distinct(d) => d.wf(),
            Operator::Sort(s) => s.wf(),
            Operator::Describe(d) => d.wf(),
            Operator::Directional(f) => f.wf(),
            Operator::Stat(f) => f.wf(),
            Operator::Group(g) => g.wf(),
            Operator::Join(j) => j.wf(),
            Operator::Forward => true,
        }
    }

    /// Can the chunk be put with those that are held back?
    pub open spec fn takes(&self, from: NodeId, b: Batch) -> bool {
        match self {
            Operator::Sort(s) => s.takes(b),
            Operator::Join(j) => j.takes(from, b),
            _ => true,
        }
    }

    /// Can the chunk be put with those that are held back (see
    /// [`Operator::takes`])?
    pub fn accepts(&self, from: NodeId, chunk: &Chunk) -> (r: bool)
        ensures
            r == self.takes(from, chunk@),
    {
        match self {
            Operator::Sort(s) => s.accepts(chunk),
            Operator::Join(j) => j.accepts(from, chunk),
            _ => true,
        }
    }

    /// Will nothing more come out, whatever comes in? So it is with a `take` whose
    /// rows have all passed.
    pub fn saturated(&self) -> (r: bool)
        ensures
            r == (*self matches Operator::Take(t) && t.remaining == 0),
    {
        match self {
            Operator::Take(t) => t.remaining == 0,
            _ => false,
        }
    }

    /// Takes a chunk that comes from the node `from` (see [`took`]).
    pub fn process(&mut self, from: NodeId, chunk: &Chunk, ctx: &mut OpCtx, host: &Answers) -> (r:
        Handed)
        requires
            old(self).wf(),
            chunk@.wf(),
            old(self).takes(from, chunk@),
        ensures
            final(self).wf(),
            took(*old(self), from, chunk@, old(ctx)@, host@, r, *final(self), final(ctx)@),
            r matches Ok(v) ==> all_wf(batches(v@)),
            r is Err ==> final(ctx)@ == old(ctx)@,
    {
        match self {
            Operator::Stage(s) => s.process(chunk, ctx, host),
            Operator::Take(t) => Ok(t.process(chunk)),
            Operator::Distinct(d) => d.process(chunk, host),
            Operator::Sort(s) => {
                s.process(chunk.dup());
                Ok(nothing())
            },
            Operator::Describe(d) => {
                d.process(chunk);
                Ok(nothing())
            },
            Operator::Directional(f) => Ok(f.process(chunk.dup(), ctx)),
            Operator::Stat(f) => {
                f.process(chunk.dup());
                Ok(nothing())
            },
            Operator::Group(g) => match g.process(chunk, ctx, host) {
                Err(a) => Err(a),
                Ok(_) => Ok(nothing()),
            },
            Operator::Join(j) => {
                j.process(from, chunk.dup());
                Ok(nothing())
            },
            Operator::Forward => Ok(listed(Some(chunk.dup()))),
        }
    }

    /// Puts out what is held back, once the input has ended (see [`closes`]).
    #[verifier::rlimit(60)]
    pub fn finish(&mut self, ctx: &mut OpCtx, host: &Answers) -> (r: Handed)
        requires
            old(self).wf(),
        ensures
            final(self).wf(),
            closes(*old(self), old(ctx)@, host@, r, *final(self), final(ctx)@),
            r matches Ok(v) ==> all_wf(batches(v@)),
            r is Err ==> final(ctx)@ == old(ctx)@,
    {
        match self {
            Operator::Sort(s) => Ok(s.finish(ctx)),
            Operator::Describe(d) => match d.finish(ctx, host) {
                Err(a) => Err(a),
                Ok(c) => Ok(listed(c)),
            },
            Operator::Directional(f) => Ok(f.finish(ctx)),
            Operator::Stat(f) => f.finish(ctx, host),
            Operator::Group(g) => match g.finish(ctx, host) {
                Err(a) => Err(a),
                Ok(c) => Ok(listed(c)),
            },
            Operator::Join(j) => match j.finish(ctx, host) {
                Err(a) => Err(a),
                Ok(c) => Ok(listed(c)),
            },
            _ => Ok(nothing()),
        }
    }
}

} // verus!
