//! What stands below the group of a flow over files: the order of its events, and
//! the sorts that its chunks pass on the way to a sink.
use vstd::prelude::*;
use crate::chunk::{batches, gathered, Batch, Chunk, FieldV};
use crate::concat::{alike, stack, stacked};
use crate::event::{events, CtxV, ErrorEvent, EventV, OpCtx};
use crate::operator::{directed, sort_by};
use crate::plan::{label_of, node_label, Node, NodeId, Op, PlanGraph};
use crate::sort::{key_views, sort_keys, sort_warned, sorted_rows, Sort};

verus! {

/// The events of a group over files, in the order of the graph: those of finding
/// and opening the files, those of files left out, those of the workers.
pub fn file_group_events(pre: Vec<ErrorEvent>, left: Vec<ErrorEvent>, work: Vec<ErrorEvent>) -> (r:
    Vec<ErrorEvent>)
    ensures
        events(r@) == events(pre@) + events(left@) + events(work@),
{
    let mut r: Vec<ErrorEvent> = pre;
    let mut left: Vec<ErrorEvent> = left;
    let mut work: Vec<ErrorEvent> = work;
    let ghost (a, b, c) = (r@, left@, work@);
    r.append(&mut left);
    assert(r@ =~= a + b);
    r.append(&mut work);
    assert(r@ =~= a + b + c);
    assert(events(r@) =~= events(a) + events(b) + events(c));
    r
}

/// The chunks that have rows.
pub open spec fn bearing(bs: Seq<Batch>) -> Seq<Batch>
    decreases bs.len(),
{
    if bs.len() == 0 {
        Seq::empty()
    } else if bs.last().len == 0 {
        bearing(bs.drop_last())
    } else {
        bearing(bs.drop_last()).push(bs.last())
    }
}

/// What a sort makes of the chunks that reach it: one chunk of all rows in their
/// order, or none where there are no rows.
pub open spec fn sorted_level(
    keys: Seq<(Seq<char>, bool)>,
    c: CtxV,
    level: Seq<Batch>,
    out: Seq<Batch>,
    after: CtxV,
) -> bool {
    let held = bearing(level);
    let all = stacked(held);
    let ks = sort_keys(all.fields, keys);
    if held.len() == 0 {
        out.len() == 0 && after == c
    } else {
        &&& after == sort_warned(c, all.fields, keys).advanced()
        &&& exists|rows: Seq<usize>|
            #![trigger sorted_rows(all, ks, rows)]
            sorted_rows(all, ks, rows) && out == seq![
                Batch {
                    id: sort_warned(c, all.fields, keys).next_chunk_id,
                    ..gathered(all, rows)
                },
            ]
    }
}

/// What is on its way below a group: the chunks, the events, and the number of the
/// next chunk.
#[verifier::ext_equal]
pub struct LevelV {
    pub level: Seq<Batch>,
    pub errors: Seq<EventV>,
    pub next: u64,
}

/// What is on its way below a group.
pub struct Level {
    pub level: Vec<Chunk>,
    pub errors: Vec<ErrorEvent>,
    pub next: u64,
}

impl Level {
    /// What is on its way.
    pub open spec fn view(&self) -> LevelV {
        LevelV { level: batches(self.level@), errors: events(self.errors@), next: self.next }
    }
}

/// One node further: a sort orders what is on its way, a sink takes it as it is.
pub open spec fn tail_step(n: Node, a: LevelV, b: LevelV) -> bool {
    match n.op {
        Op::Sort { keys } => sorted_level(
            directed(keys@),
            CtxV { label: node_label(n), errors: a.errors, next_chunk_id: a.next },
            a.level,
            b.level,
            CtxV { label: node_label(n), errors: b.errors, next_chunk_id: b.next },
        ),
        _ => b == a,
    }
}

/// What is on its way before each node of a tail and at its end.
pub open spec fn tail_run(g: PlanGraph, tail: Seq<NodeId>, states: Seq<LevelV>) -> bool {
    &&& states.len() == tail.len() + 1
    &&& forall|i: int|
        0 <= i < tail.len() ==> tail_step(
            g.nodes@[(#[trigger] tail[i]) as int],
            states[i],
            states[i + 1],
        )
}

/// The last sink among the first `n` nodes of a tail.
pub open spec fn tail_sink(g: PlanGraph, tail: Seq<NodeId>, n: nat) -> Option<NodeId>
    decreases n,
{
    if n == 0 {
        None
    } else if g.nodes@[tail[n - 1] as int].op is Sink {
        Some(tail[n - 1])
    } else {
        tail_sink(g, tail, (n - 1) as nat)
    }
}

proof fn lemma_alike(z: Batch, x: Batch, y: Batch)
    requires
        alike(z, x),
        alike(z, y),
    ensures
        alike(x, y),
{
    assert forall|i: int| 0 <= i < x.columns.len() implies (#[trigger] x.columns[i]).dtype
        == y.columns[i].dtype by {
        assert(z.columns[i].dtype == x.columns[i].dtype);
    }
}

proof fn lemma_label_stays(c: CtxV, fields: Seq<FieldV>, keys: Seq<(Seq<char>, bool)>)
    ensures
        sort_warned(c, fields, keys).label == c.label,
    decreases keys.len(),
{
    if keys.len() > 0 {
        lemma_label_stays(c, fields, keys.drop_last());
    }
}

/// Of chunks alike, those that have rows are alike.
pub proof fn lemma_bearing(bs: Seq<Batch>)
    requires
        stack(bs),
    ensures
        stack(bearing(bs)),
        bearing(bs).len() > 0 ==> alike(bs[0], bearing(bs)[0]),
    decreases bs.len(),
{
    if bs.len() > 0 {
        let up = bs.drop_last();
        let old = bearing(up);
        let new = bearing(bs);
        assert forall|i: int| 0 <= i < up.len() implies (#[trigger] up[i]).wf() && alike(up[0], up[i]) by {
            assert(up[i] == bs[i]);
            assert(alike(bs[0], bs[i]));
            assert(bs[i].wf());
        }
        lemma_bearing(up);
        if up.len() > 0 {
            assert(up[0] == bs[0]);
        }
        assert(bs[bs.len() - 1].wf() && alike(bs[0], bs[bs.len() - 1]));
        assert forall|i: int| 0 <= i < new.len() implies (#[trigger] new[i]).wf() && alike(new[0], new[i]) by {
            if i < old.len() {
                assert(new[i] == old[i]);
                assert(old[i].wf() && alike(old[0], old[i]));
            } else if old.len() > 0 {
                lemma_alike(bs[0], old[0], new[i]);
            }
        }
    }
}

/// Sorts the chunks that reach a sort below a group (see [`sorted_level`]).
fn sort_level(keys: Vec<(String, bool)>, level: Vec<Chunk>, ctx: &mut OpCtx) -> (r: Vec<Chunk>)
    requires
        stack(batches(level@)),
    ensures
        sorted_level(key_views(keys@), old(ctx)@, batches(level@), batches(r@), final(ctx)@),
        stack(batches(r@)),
        final(ctx)@.label == old(ctx)@.label,
{
    let ghost all = batches(level@);
    let ghost start = ctx@;
    let ghost ks = key_views(keys@);
    let mut s: Sort = Sort::new(keys);
    let n: usize = level.len();
    assert(batches(s.buf@) =~= Seq::empty());
    assert(all.take(0) =~= Seq::empty());
    for i in 0..n
        invariant
            all == batches(level@),
            n == all.len(),
            stack(all),
            s.wf(),
            !s.emitted,
            key_views(s.keys@) == ks,
            batches(s.buf@) == bearing(all.take(i as int)),
    {
        let ghost before = all.take(i as int);
        proof {
            assert forall|k: int| 0 <= k < before.len() implies (#[trigger] before[k]).wf() && alike(
                before[0],
                before[k],
            ) by {
                assert(before[k] == all[k]);
                assert(all[k].wf() && alike(all[0], all[k]));
            }
            lemma_bearing(before);
            assert(all.take(i + 1).drop_last() =~= before);
            assert(all.take(i + 1).last() == all[i as int]);
            assert(all[i as int].wf() && alike(all[0], all[i as int]));
            if s.buf@.len() > 0 {
                assert(batches(s.buf@)[0] == s.buf@[0]@);
                assert(alike(before[0], bearing(before)[0]));
                assert(before[0] == all[0]);
                lemma_alike(all[0], s.buf@[0]@, all[i as int]);
            }
        }
        assert(level@[i as int]@ == all[i as int]);
        s.process(level[i].dup());
    }
    assert(all.take(n as int) =~= all);
    assert(batches(s.buf@).len() == s.buf@.len());
    let r: Vec<Chunk> = s.finish(ctx);
    proof {
        lemma_label_stays(start, stacked(bearing(all)).fields, ks);
        let out = batches(r@);
        if s.emitted {
            assert(out =~= seq![r@[0]@]);
        }
        assert forall|i: int| 0 <= i < out.len() implies alike(out[0], #[trigger] out[i]) by {}
    }
    r
}

/// Sends the chunks of a group down its tail; the sink that takes what comes out,
/// where there is one, comes back too.
pub fn run_tail(g: &PlanGraph, tail: &Vec<NodeId>, start: Level) -> (r: (Level, Option<NodeId>))
    requires
        stack(start@.level),
        forall|i: int| 0 <= i < tail@.len() ==> (#[trigger] tail@[i]) < g.nodes@.len(),
    ensures
        exists|states: Seq<LevelV>|
            #[trigger] tail_run(*g, tail@, states) && states[0] == start@ && states.last() == r.0@,
        r.1 == tail_sink(*g, tail@, tail@.len()),
{
    let ghost mut states: Seq<LevelV> = seq![start@];
    let mut now: Level = start;
    let mut sink: Option<NodeId> = None;
    for n in 0..tail.len()
        invariant
            forall|i: int| 0 <= i < tail@.len() ==> (#[trigger] tail@[i]) < g.nodes@.len(),
            stack(now@.level),
            states.len() == n + 1,
            states[0] == start@,
            states.last() == now@,
            forall|i: int|
                0 <= i < n ==> tail_step(
                    g.nodes@[(#[trigger] tail@[i]) as int],
                    states[i],
                    states[i + 1],
                ),
            sink == tail_sink(*g, tail@, n as nat),
    {
        let k: NodeId = tail[n];
        assert(tail@[n as int] < g.nodes@.len());
        let ghost was = states;
        match &g.nodes[k].op {
            Op::Sort { keys } => {
                let Level { level, errors, next } = now;
                let mut ctx = OpCtx { label: label_of(g, k), errors, next_chunk_id: next };
                let out: Vec<Chunk> = sort_level(sort_by(keys), level, &mut ctx);
                now = Level { level: out, errors: ctx.errors, next: ctx.next_chunk_id };
            },
            Op::Sink { .. } => {
                sink = Some(k);
            },
            _ => {},
        }
        proof {
            states = states.push(now@);
            assert(tail_step(g.nodes@[k as int], was[n as int], now@));
            assert forall|i: int| 0 <= i < n + 1 implies tail_step(
                g.nodes@[(#[trigger] tail@[i]) as int],
                states[i],
                states[i + 1],
            ) by {
                if i < n {
                    assert(tail_step(g.nodes@[tail@[i] as int], was[i], was[i + 1]));
                }
            }
        }
    }
    assert(tail_run(*g, tail@, states));
    (now, sink)
}

} // verus!
