//! The shapes of flow that can be run in parts: what each of them is, and how a
//! graph is recognised as one.
use vstd::prelude::*;
use crate::join::JoinKind;
use crate::plan::{pre_group_op_allowed, NodeId, Node, Op, PlanGraph};

verus! {

/// A kind of operator that a shape counts.
#[derive(Clone, Copy, Debug, PartialEq, Eq, Structural)]
pub enum Role {
    Source,
    Read,
    Group,
    Sink,
}

/// Does the operator have that role?
pub open spec fn plays(op: Op, role: Role) -> bool {
    match role {
        Role::Source => op is Source,
        Role::Read => op is Read,
        Role::Group => op is GroupBy,
        Role::Sink => op is Sink,
    }
}

/// Does the operator have that role?
pub fn has_role(op: &Op, role: Role) -> (r: bool)
    ensures
        r == plays(*op, role),
{
    match role {
        Role::Source => matches!(op, Op::Source { .. }),
        Role::Read => matches!(op, Op::Read),
        Role::Group => matches!(op, Op::GroupBy { .. }),
        Role::Sink => matches!(op, Op::Sink { .. }),
    }
}

/// The nodes with that role, in order.
pub open spec fn cast_as(nodes: Seq<Node>, role: Role) -> Seq<NodeId>
    decreases nodes.len(),
{
    if nodes.len() == 0 {
        Seq::empty()
    } else if plays(nodes.last().op, role) {
        cast_as(nodes.drop_last(), role).push((nodes.len() - 1) as usize)
    } else {
        cast_as(nodes.drop_last(), role)
    }
}

/// The one node with that role, where there is exactly one.
pub open spec fn sole(g: PlanGraph, role: Role) -> Option<NodeId> {
    if cast_as(g.nodes@, role).len() == 1 {
        Some(cast_as(g.nodes@, role)[0])
    } else {
        None
    }
}

/// The nodes with that role, in order.
pub fn nodes_as(g: &PlanGraph, role: Role) -> (r: Vec<NodeId>)
    ensures
        r@ == cast_as(g.nodes@, role),
        forall|i: int|
            0 <= i < r@.len() ==> (#[trigger] r@[i]) < g.nodes@.len() && plays(
                g.nodes@[r@[i] as int].op,
                role,
            ),
{
    let mut out: Vec<NodeId> = Vec::new();
    for i in 0..g.nodes.len()
        invariant
            out@ == cast_as(g.nodes@.take(i as int), role),
            forall|k: int|
                0 <= k < out@.len() ==> (#[trigger] out@[k]) < g.nodes@.len() && plays(
                    g.nodes@[out@[k] as int].op,
                    role,
                ),
    {
        assert(g.nodes@.take(i + 1).drop_last() =~= g.nodes@.take(i as int));
        if has_role(&g.nodes[i].op, role) {
            out.push(i);
        }
    }
    assert(g.nodes@.take(g.nodes@.len() as int) =~= g.nodes@);
    out
}

/// The one node with that role, where there is exactly one.
pub fn only(g: &PlanGraph, role: Role) -> (r: Option<NodeId>)
    ensures
        r == sole(*g, role),
        r matches Some(n) ==> n < g.nodes@.len() && plays(g.nodes@[n as int].op, role),
{
    let v: Vec<NodeId> = nodes_as(g, role);
    if v.len() == 1 {
        Some(v[0])
    } else {
        None
    }
}

/// A source that ends, fed by nothing and read by one node.
pub open spec fn bare_source(g: PlanGraph, n: NodeId) -> bool {
    &&& g.nodes@[n as int].op is Source
    &&& !g.nodes@[n as int].op->Source_unbounded
    &&& g.outputs(n as int).len() == 1
    &&& g.inputs(n as int).len() == 0
}

/// Is the node a source that ends, fed by nothing and read by one node?
pub fn is_bare_source(g: &PlanGraph, n: NodeId) -> (r: bool)
    requires
        n < g.nodes@.len(),
    ensures
        r == bare_source(*g, n),
{
    match &g.nodes[n].op {
        Op::Source { unbounded, .. } => !*unbounded && g.outputs_of(n).len() == 1 && g.inputs_of(
            n,
        ).len() == 0,
        _ => false,
    }
}

/// A step between the read and the end of the shape.
#[derive(Clone, Copy, Debug, PartialEq, Eq, Structural)]
pub enum Step {
    /// An operator that keeps nothing from row to row.
    Stateless(NodeId),
    /// A join of the rows that flow with a small source, which is read once and
    /// handed to every worker.
    Broadcast { join: NodeId, right: NodeId },
}

/// An inner or a left join.
pub open spec fn broadcasts(op: Op) -> bool {
    op is Join && (op->Join_kind is Inner || op->Join_kind is Left)
}

/// What the step from `cur` to `next` is, where it is one.
pub open spec fn step_at(g: PlanGraph, cur: NodeId, next: NodeId) -> Option<Step> {
    let op = g.nodes@[next as int].op;
    let ins = g.inputs(next as int);
    if broadcasts(op) {
        if ins.len() == 2 && ins[0] == cur && bare_source(g, ins[1]) {
            Some(Step::Broadcast { join: next, right: ins[1] })
        } else {
            None
        }
    } else if op.stateless() {
        Some(Step::Stateless(next))
    } else {
        None
    }
}

/// What the step from `cur` to `next` is, where it is one.
fn find_step(g: &PlanGraph, cur: NodeId, next: NodeId) -> (r: Option<Step>)
    requires
        g.wf(),
        next < g.nodes@.len(),
    ensures
        r == step_at(*g, cur, next),
{
    let joins: bool = match &g.nodes[next].op {
        Op::Join { kind, .. } => matches!(kind, JoinKind::Inner | JoinKind::Left),
        _ => false,
    };
    if joins {
        let ins: Vec<NodeId> = g.inputs_of(next);
        if ins.len() != 2 || ins[0] != cur {
            return None;
        }
        assert(ins@[1] < g.nodes@.len());
        if !is_bare_source(g, ins[1]) {
            return None;
        }
        return Some(Step::Broadcast { join: next, right: ins[1] });
    }
    if pre_group_op_allowed(&g.nodes[next].op) {
        Some(Step::Stateless(next))
    } else {
        None
    }
}

/// The steps from a node to `goal`, where every node on the way has one
/// consumer and is a step. `reach` bounds their number.
pub open spec fn chain(g: PlanGraph, cur: NodeId, goal: NodeId, reach: nat) -> Option<Seq<Step>>
    decreases reach,
{
    let outs = g.outputs(cur as int);
    if reach == 0 || outs.len() != 1 {
        None
    } else if outs[0] == goal {
        Some(Seq::empty())
    } else {
        match step_at(g, cur, outs[0]) {
            None => None,
            Some(s) => led_by(seq![s], chain(g, outs[0], goal, (reach - 1) as nat)),
        }
    }
}

/// Steps before more steps, where there are more.
pub open spec fn led_by(first: Seq<Step>, rest: Option<Seq<Step>>) -> Option<Seq<Step>> {
    match rest {
        None => None,
        Some(r) => Some(first + r),
    }
}

/// The node that a step leads to.
pub open spec fn lands(s: Step) -> NodeId {
    match s {
        Step::Stateless(n) => n,
        Step::Broadcast { join, .. } => join,
    }
}

/// The node before `goal` at the end of the steps.
pub open spec fn end_of(from: NodeId, path: Seq<Step>) -> NodeId {
    if path.len() == 0 {
        from
    } else {
        lands(path.last())
    }
}

fn find_chain(g: &PlanGraph, from: NodeId, goal: NodeId) -> (r: Option<Vec<Step>>)
    requires
        g.wf(),
        from < g.nodes@.len(),
    ensures
        match r {
            Some(path) => chain(*g, from, goal, g.nodes@.len()) == Some(path@),
            None => chain(*g, from, goal, g.nodes@.len()) is None,
        },
{
    let ghost all = chain(*g, from, goal, g.nodes@.len());
    let mut path: Vec<Step> = Vec::new();
    let mut cur: NodeId = from;
    let mut reach: usize = g.nodes.len();
    proof {
        if all is Some {
            assert(seq![] + all->Some_0 =~= all->Some_0);
        }
    }
    while reach > 0
        invariant
            g.wf(),
            cur < g.nodes@.len(),
            all == led_by(path@, chain(*g, cur, goal, reach as nat)),
            all == chain(*g, from, goal, g.nodes@.len()),
        decreases reach,
    {
        let outs: Vec<NodeId> = g.outputs_of(cur);
        if outs.len() != 1 {
            return None;
        }
        let next: NodeId = outs[0];
        assert(outs@[0] < g.nodes@.len());
        if next == goal {
            assert(path@ + Seq::empty() =~= path@);
            return Some(path);
        }
        match find_step(g, cur, next) {
            None => {
                return None;
            },
            Some(s) => {
                let ghost was = path@;
                path.push(s);
                reach = reach - 1;
                proof {
                    let rest = chain(*g, next, goal, reach as nat);
                    if rest is Some {
                        assert(was + (seq![s] + rest->Some_0) =~= path@ + rest->Some_0);
                    }
                }
                cur = next;
            },
        }
    }
    None
}

/// How many of the steps are broadcast joins.
pub open spec fn rights(path: Seq<Step>) -> nat
    decreases path.len(),
{
    if path.len() == 0 {
        0
    } else {
        rights(path.drop_last()) + if path.last() is Broadcast {
            1nat
        } else {
            0
        }
    }
}

fn count_rights(path: &Vec<Step>) -> (r: usize)
    ensures
        r == rights(path@),
        r <= path@.len(),
{
    let mut n: usize = 0;
    for i in 0..path.len()
        invariant
            n == rights(path@.take(i as int)),
            n <= i,
    {
        assert(path@.take(i + 1).drop_last() =~= path@.take(i as int));
        if matches!(path[i], Step::Broadcast { .. }) {
            n = n + 1;
        }
    }
    assert(path@.take(path@.len() as int) =~= path@);
    n
}

/// The sorts below a group, and the sink below them if there is one.
pub open spec fn tail_of(g: PlanGraph, from: NodeId, reach: nat) -> Option<Seq<NodeId>>
    decreases reach,
{
    let outs = g.outputs(from as int);
    if reach == 0 || outs.len() > 1 {
        None
    } else if outs.len() == 0 {
        Some(Seq::empty())
    } else if g.nodes@[outs[0] as int].op is Sort {
        match tail_of(g, outs[0], (reach - 1) as nat) {
            None => None,
            Some(r) => Some(seq![outs[0]] + r),
        }
    } else if g.nodes@[outs[0] as int].op is Sink && g.outputs(outs[0] as int).len() == 0 {
        Some(seq![outs[0]])
    } else {
        None
    }
}

fn find_tail(g: &PlanGraph, from: NodeId) -> (r: Option<Vec<NodeId>>)
    requires
        g.wf(),
        from < g.nodes@.len(),
    ensures
        match r {
            Some(t) => tail_of(*g, from, g.nodes@.len()) == Some(t@),
            None => tail_of(*g, from, g.nodes@.len()) is None,
        },
{
    let ghost all = tail_of(*g, from, g.nodes@.len());
    let mut tail: Vec<NodeId> = Vec::new();
    let mut cur: NodeId = from;
    let mut reach: usize = g.nodes.len();
    proof {
        if all is Some {
            assert(seq![] + all->Some_0 =~= all->Some_0);
        }
    }
    while reach > 0
        invariant
            g.wf(),
            cur < g.nodes@.len(),
            all == tail_of(*g, from, g.nodes@.len()),
            match tail_of(*g, cur, reach as nat) {
                None => all is None,
                Some(r) => all == Some(tail@ + r),
            },
        decreases reach,
    {
        let outs: Vec<NodeId> = g.outputs_of(cur);
        if outs.len() > 1 {
            return None;
        }
        if outs.len() == 0 {
            assert(tail@ + Seq::empty() =~= tail@);
            return Some(tail);
        }
        let n: NodeId = outs[0];
        assert(outs@[0] < g.nodes@.len());
        let ghost was = tail@;
        match &g.nodes[n].op {
            Op::Sort { .. } => {
                tail.push(n);
                reach = reach - 1;
                proof {
                    let rest = tail_of(*g, n, reach as nat);
                    if rest is Some {
                        assert(was + (seq![n] + rest->Some_0) =~= tail@ + rest->Some_0);
                    }
                }
                cur = n;
            },
            Op::Sink { .. } => {
                if g.outputs_of(n).len() != 0 {
                    return None;
                }
                tail.push(n);
                assert(was + seq![n] =~= tail@);
                return Some(tail);
            },
            _ => {
                return None;
            },
        }
    }
    None
}

/// A flow that reads the files that a source names and groups the rows, or
/// writes them: the source, the read, the steps, the group or sink, and what
/// is below it.
#[derive(Debug)]
pub struct ReadGroupShape {
    pub source: NodeId,
    pub read: NodeId,
    pub path: Vec<Step>,
    pub group: NodeId,
    pub tail: Vec<NodeId>,
}

/// What a [`ReadGroupShape`] is.
pub struct ShapeV {
    pub source: NodeId,
    pub read: NodeId,
    pub path: Seq<Step>,
    pub group: NodeId,
    pub tail: Seq<NodeId>,
}

impl ReadGroupShape {
    /// The shape.
    pub open spec fn view(&self) -> ShapeV {
        ShapeV {
            source: self.source,
            read: self.read,
            path: self.path@,
            group: self.group,
            tail: self.tail@,
        }
    }
}

/// The shape of a flow that reads files and groups their rows: one read, fed by
/// a bare source; steps to the one group, which nothing else feeds; sorts and
/// at most one sink below it; and no other node.
pub open spec fn read_group_flow(g: PlanGraph) -> Option<ShapeV> {
    match (sole(g, Role::Read), sole(g, Role::Group)) {
        (Some(read), Some(group)) => {
            let ins = g.inputs(read as int);
            let path = chain(g, read, group, g.nodes@.len());
            let tail = tail_of(g, group, g.nodes@.len());
            if ins.len() == 1 && bare_source(g, ins[0]) && path is Some && g.inputs(group as int)
                == seq![end_of(read, path->Some_0)] && tail is Some && g.nodes@.len() == 2
                + path->Some_0.len() + rights(path->Some_0) + 1 + tail->Some_0.len() {
                Some(
                    ShapeV {
                        source: ins[0],
                        read,
                        path: path->Some_0,
                        group,
                        tail: tail->Some_0,
                    },
                )
            } else {
                None
            }
        },
        _ => None,
    }
}

/// The shape of a flow that reads files and writes their rows: as a
/// [`read_group_flow`] with the one sink, which feeds nothing, in the place of
/// the group.
pub open spec fn read_sink_flow(g: PlanGraph) -> Option<ShapeV> {
    match (sole(g, Role::Read), sole(g, Role::Sink)) {
        (Some(read), Some(sink)) => {
            let ins = g.inputs(read as int);
            let path = chain(g, read, sink, g.nodes@.len());
            if cast_as(g.nodes@, Role::Group).len() == 0 && g.outputs(sink as int).len() == 0
                && ins.len() == 1 && bare_source(g, ins[0]) && path is Some && g.nodes@.len() == 2
                + path->Some_0.len() + rights(path->Some_0) + 1 {
                Some(
                    ShapeV {
                        source: ins[0],
                        read,
                        path: path->Some_0,
                        group: sink,
                        tail: Seq::empty(),
                    },
                )
            } else {
                None
            }
        },
        _ => None,
    }
}

/// The result of recognising a shape.
pub open spec fn agree_shape(r: Option<ReadGroupShape>, s: Option<ShapeV>) -> bool {
    match r {
        Some(x) => s == Some(x@),
        None => s is None,
    }
}

/// Is this a flow that reads files and groups their rows (see
/// [`read_group_flow`])?
pub fn eligible_read_group_flow(g: &PlanGraph) -> (r: Option<ReadGroupShape>)
    requires
        g.wf(),
    ensures
        agree_shape(r, read_group_flow(*g)),
{
    let read: NodeId = match only(g, Role::Read) {
        None => {
            return None;
        },
        Some(n) => n,
    };
    let group: NodeId = match only(g, Role::Group) {
        None => {
            return None;
        },
        Some(n) => n,
    };
    let ins: Vec<NodeId> = g.inputs_of(read);
    if ins.len() != 1 {
        return None;
    }
    assert(ins@[0] < g.nodes@.len());
    if !is_bare_source(g, ins[0]) {
        return None;
    }
    let path: Vec<Step> = match find_chain(g, read, group) {
        None => {
            return None;
        },
        Some(p) => p,
    };
    let end: NodeId = if path.len() == 0 {
        read
    } else {
        match path[path.len() - 1] {
            Step::Stateless(n) => n,
            Step::Broadcast { join, .. } => join,
        }
    };
    let gins: Vec<NodeId> = g.inputs_of(group);
    if gins.len() != 1 || gins[0] != end {
        return None;
    }
    assert(gins@ =~= seq![end]);
    let tail: Vec<NodeId> = match find_tail(g, group) {
        None => {
            return None;
        },
        Some(t) => t,
    };
    let extra: usize = count_rights(&path);
    if !adds_up(g.nodes.len(), path.len(), extra, tail.len()) {
        return None;
    }
    Some(ReadGroupShape { source: ins[0], read, path, group, tail })
}

/// Are there just the nodes of the shape?
fn adds_up(nodes: usize, path: usize, extra: usize, tail: usize) -> (r: bool)
    ensures
        r == (nodes == 2 + path + extra + 1 + tail),
{
    nodes as u128 == 3 + path as u128 + extra as u128 + tail as u128
}

/// Is this a flow that reads files and writes their rows (see
/// [`read_sink_flow`])?
pub fn eligible_read_sink_flow(g: &PlanGraph) -> (r: Option<ReadGroupShape>)
    requires
        g.wf(),
    ensures
        agree_shape(r, read_sink_flow(*g)),
{
    let read: NodeId = match only(g, Role::Read) {
        None => {
            return None;
        },
        Some(n) => n,
    };
    let sink: NodeId = match only(g, Role::Sink) {
        None => {
            return None;
        },
        Some(n) => n,
    };
    if nodes_as(g, Role::Group).len() != 0 || g.outputs_of(sink).len() != 0 {
        return None;
    }
    let ins: Vec<NodeId> = g.inputs_of(read);
    if ins.len() != 1 {
        return None;
    }
    assert(ins@[0] < g.nodes@.len());
    if !is_bare_source(g, ins[0]) {
        return None;
    }
    let path: Vec<Step> = match find_chain(g, read, sink) {
        None => {
            return None;
        },
        Some(p) => p,
    };
    let extra: usize = count_rights(&path);
    if !adds_up(g.nodes.len(), path.len(), extra, 0) {
        return None;
    }
    let r = ReadGroupShape { source: ins[0], read, path, group: sink, tail: Vec::new() };
    assert(r.tail@ =~= Seq::empty());
    Some(r)
}

/// Every step of a chain is a stateless operator, or an inner or left join with
/// a bare source: what may be run on each part of the rows by itself.
pub proof fn lemma_chain_steps(g: PlanGraph, cur: NodeId, goal: NodeId, reach: nat)
    requires
        chain(g, cur, goal, reach) is Some,
    ensures
        forall|i: int|
            0 <= i < chain(g, cur, goal, reach)->Some_0.len() ==> match #[trigger] chain(
                g,
                cur,
                goal,
                reach,
            )->Some_0[i] {
                Step::Stateless(n) => g.nodes@[n as int].op.stateless(),
                Step::Broadcast { join, right } => broadcasts(g.nodes@[join as int].op)
                    && bare_source(g, right),
            },
    decreases reach,
{
    let outs = g.outputs(cur as int);
    if outs[0] != goal {
        lemma_chain_steps(g, outs[0], goal, (reach - 1) as nat);
        let rest = chain(g, outs[0], goal, (reach - 1) as nat)->Some_0;
        let all = chain(g, cur, goal, reach)->Some_0;
        assert forall|i: int| 0 <= i < all.len() implies match #[trigger] all[i] {
            Step::Stateless(n) => g.nodes@[n as int].op.stateless(),
            Step::Broadcast { join, right } => broadcasts(g.nodes@[join as int].op) && bare_source(
                g,
                right,
            ),
        } by {
            if i > 0 {
                assert(all[i] == rest[i - 1]);
            }
        }
    }
}

// --------------------------------------------------------- source to group

/// The stateless operators between a source and a node, in the order of the
/// flow, where each node on the way has one input and one consumer.
pub open spec fn back_chain(g: PlanGraph, src: NodeId, cur: NodeId, reach: nat) -> Option<
    Seq<NodeId>,
>
    decreases reach,
{
    let ins = g.inputs(cur as int);
    if cur == src {
        Some(Seq::empty())
    } else if reach == 0 || ins.len() != 1 || g.outputs(ins[0] as int).len() != 1 {
        None
    } else if ins[0] == src {
        Some(Seq::empty())
    } else if !g.nodes@[ins[0] as int].op.stateless() {
        None
    } else {
        match back_chain(g, src, ins[0], (reach - 1) as nat) {
            None => None,
            Some(p) => Some(p.push(ins[0])),
        }
    }
}

/// The sink below a group: none, or a single one that feeds nothing. `None`
/// where the group feeds anything else.
pub open spec fn leaf_sink(g: PlanGraph, group: NodeId) -> Option<Option<NodeId>> {
    let outs = g.outputs(group as int);
    if outs.len() == 0 {
        Some(None)
    } else if outs.len() == 1 && g.nodes@[outs[0] as int].op is Sink && g.outputs(
        outs[0] as int,
    ).len() == 0 {
        Some(Some(outs[0]))
    } else {
        None
    }
}

/// The shape of a flow from one source through stateless operators into one
/// group, with at most one sink below, and no other node.
pub open spec fn group_flow(g: PlanGraph) -> Option<(NodeId, NodeId, Option<NodeId>)> {
    match (sole(g, Role::Source), sole(g, Role::Group)) {
        (Some(src), Some(group)) => match (
            leaf_sink(g, group),
            back_chain(g, src, group, g.nodes@.len()),
        ) {
            (Some(sink), Some(path)) => if g.nodes@.len() == path.len() + 2 + (if sink is Some {
                1int
            } else {
                0
            }) {
                Some((src, group, sink))
            } else {
                None
            },
            _ => None,
        },
        _ => None,
    }
}

fn find_back(g: &PlanGraph, src: NodeId, node: NodeId) -> (r: Option<Vec<NodeId>>)
    requires
        g.wf(),
        node < g.nodes@.len(),
    ensures
        match r {
            Some(p) => back_chain(*g, src, node, g.nodes@.len()) == Some(p@),
            None => back_chain(*g, src, node, g.nodes@.len()) is None,
        },
{
    let n: usize = g.nodes.len();
    back_from(g, src, node, n)
}

fn back_from(g: &PlanGraph, src: NodeId, cur: NodeId, reach: usize) -> (r: Option<Vec<NodeId>>)
    requires
        g.wf(),
        cur < g.nodes@.len(),
    ensures
        match r {
            Some(p) => back_chain(*g, src, cur, reach as nat) == Some(p@),
            None => back_chain(*g, src, cur, reach as nat) is None,
        },
    decreases reach,
{
    if cur == src {
        let p: Vec<NodeId> = Vec::new();
        assert(p@ =~= Seq::empty());
        return Some(p);
    }
    let ins: Vec<NodeId> = g.inputs_of(cur);
    if reach == 0 || ins.len() != 1 || g.outputs_of(ins[0]).len() != 1 {
        return None;
    }
    let prev: NodeId = ins[0];
    assert(ins@[0] < g.nodes@.len());
    if prev == src {
        let p: Vec<NodeId> = Vec::new();
        assert(p@ =~= Seq::empty());
        return Some(p);
    }
    if !pre_group_op_allowed(&g.nodes[prev].op) {
        return None;
    }
    match back_from(g, src, prev, reach - 1) {
        None => None,
        Some(mut p) => {
            p.push(prev);
            Some(p)
        },
    }
}

/// Is this a flow from one source into one group (see [`group_flow`])?
pub fn eligible_group_flow(g: &PlanGraph) -> (r: Option<(NodeId, NodeId, Option<NodeId>)>)
    requires
        g.wf(),
    ensures
        r == group_flow(*g),
        r matches Some(f) ==> f.0 < g.nodes@.len() && f.1 < g.nodes@.len(),
{
    let src: NodeId = match only(g, Role::Source) {
        None => {
            return None;
        },
        Some(n) => n,
    };
    let group: NodeId = match only(g, Role::Group) {
        None => {
            return None;
        },
        Some(n) => n,
    };
    let outs: Vec<NodeId> = g.outputs_of(group);
    if outs.len() > 1 {
        return None;
    }
    let sink: Option<NodeId> = if outs.len() == 0 {
        None
    } else {
        assert(outs@[0] < g.nodes@.len());
        if !matches!(&g.nodes[outs[0]].op, Op::Sink { .. }) || g.outputs_of(outs[0]).len() != 0 {
            return None;
        }
        Some(outs[0])
    };
    let path: Vec<NodeId> = match find_back(g, src, group) {
        None => {
            return None;
        },
        Some(p) => p,
    };
    let end: u128 = if sink.is_some() {
        1
    } else {
        0
    };
    if g.nodes.len() as u128 != path.len() as u128 + 2 + end {
        return None;
    }
    Some((src, group, sink))
}

/// The stateless operators strictly between the source and the group of such a
/// flow, in the order of the flow.
pub fn pre_group_path(g: &PlanGraph, src: NodeId, group: NodeId) -> (r: Vec<NodeId>)
    requires
        g.wf(),
        group < g.nodes@.len(),
        back_chain(*g, src, group, g.nodes@.len()) is Some,
    ensures
        back_chain(*g, src, group, g.nodes@.len()) == Some(r@),
{
    match find_back(g, src, group) {
        Some(p) => p,
        None => Vec::new(),
    }
}

/// What stands before the group of a flow that is grouped in parts is stateless
/// throughout.
pub proof fn lemma_back_chain_stateless(g: PlanGraph, src: NodeId, cur: NodeId, reach: nat)
    requires
        back_chain(g, src, cur, reach) is Some,
    ensures
        forall|i: int|
            0 <= i < back_chain(g, src, cur, reach)->Some_0.len() ==> g.nodes@[(
            #[trigger] back_chain(g, src, cur, reach)->Some_0[i]) as int].op.stateless(),
    decreases reach,
{
    let ins = g.inputs(cur as int);
    if cur != src && ins[0] != src {
        lemma_back_chain_stateless(g, src, ins[0], (reach - 1) as nat);
        let rest = back_chain(g, src, ins[0], (reach - 1) as nat)->Some_0;
        let all = back_chain(g, src, cur, reach)->Some_0;
        assert forall|i: int| 0 <= i < all.len() implies g.nodes@[(
        #[trigger] all[i]) as int].op.stateless() by {
            if i < rest.len() {
                assert(all[i] == rest[i]);
            }
        }
    }
}

} // verus!
