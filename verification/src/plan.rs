//! The plan of a flow: its operators, its graph, and the questions that the
//! scheduler asks of it.
use vstd::prelude::*;
use crate::binary::{BinType, Endian};
use crate::chunk::Mode;
use crate::event::Severity;
use crate::expr::{Expr, PathExpr};
use crate::group::AggSpec;
use crate::join::JoinKind;
use crate::text::{same_text, u64_text, nat_text};
use crate::value::DataType;

verus! {

/// The number of a node: its place among the nodes of the graph.
pub type NodeId = usize;

/// How blank cells are filled.
#[derive(Debug)]
pub enum FillMethod {
    Value(String),
    Ffill,
    Bfill,
    Mean,
    Median,
}

/// How the bytes of a source are read.
#[derive(Debug)]
pub enum Codec {
    Csv,
    Jsonl,
    Binary { fields: Vec<(String, BinType)>, endian: Endian, c_align: bool },
    Parquet,
    Discover,
}

/// How the rows of a sink are written.
#[derive(Clone, Copy, Debug, PartialEq, Eq, Structural)]
pub enum SinkCodec {
    Csv { delim: char },
    Jsonl,
    Json,
}

/// Where the rows of a sink go.
#[derive(Debug)]
pub enum Route {
    /// One file.
    Fixed(String),
    /// A file for each partition.
    Template(String),
}

/// An operator of the plan.
#[allow(inconsistent_fields)]
#[derive(Debug)]
pub enum Op {
    Source { path: String, unbounded: bool, codec: Codec },
    Read,
    StreamRef { name: String },
    Filter { pred: Expr },
    Validate { pred: Expr },
    Take { n: usize },
    Sort { keys: Vec<(PathExpr, bool)> },
    Distinct { keys: Vec<PathExpr> },
    Describe,
    DropNa { cols: Vec<String> },
    Fill { col: String, method: FillMethod },
    Rename { pairs: Vec<(String, String)> },
    Drop { cols: Vec<String> },
    Cast { casts: Vec<(String, DataType)> },
    Reorder { cols: Vec<String> },
    ProjectExpr { items: Vec<(Expr, String)>, views: Vec<String> },
    Project { fields: Vec<String> },
    FilterProject { preds: Vec<Expr>, fields: Option<Vec<String>> },
    GroupBy { keys: Vec<PathExpr>, aggs: Vec<AggSpec> },
    Merge,
    Branch,
    Join { left_keys: Vec<PathExpr>, right_keys: Vec<PathExpr>, kind: JoinKind },
    AsofJoin { ts: String, by: Vec<String> },
    Sessionize { ts: String, by: Vec<String> },
    Shift { col: String, by: Vec<String> },
    SinkPrint,
    Sink { route: Route, codec: SinkCodec },
}

/// What a hook responds to.
#[derive(Clone, Copy, Debug, PartialEq, Eq, Structural)]
pub enum HookEvent {
    Error,
    Other,
}

/// What a hook does.
#[derive(Debug)]
pub enum HookAction {
    Transition(Mode),
    Log(String),
    Route(String),
}

/// A hook of a node: `on <event>: <action>`.
#[derive(Debug)]
pub struct Hook {
    pub event: HookEvent,
    /// The event as it was written.
    pub event_name: String,
    pub min_severity: Option<Severity>,
    pub action: HookAction,
}

/// A node of the graph.
#[derive(Debug)]
pub struct Node {
    pub id: NodeId,
    pub label: Option<String>,
    pub op: Op,
    /// The name of the operator's kind.
    pub kind: String,
    /// The operator as it was written.
    pub line: String,
    pub hooks: Vec<Hook>,
}

/// The graph of a flow.
#[derive(Debug)]
pub struct PlanGraph {
    pub nodes: Vec<Node>,
    /// From node to node, in the order of the inputs.
    pub edges: Vec<(NodeId, NodeId)>,
}

/// The targets of the edges from a node, in order.
pub open spec fn outs(edges: Seq<(NodeId, NodeId)>, n: int) -> Seq<NodeId>
    decreases edges.len(),
{
    if edges.len() == 0 {
        Seq::empty()
    } else if edges.last().0 == n {
        outs(edges.drop_last(), n).push(edges.last().1)
    } else {
        outs(edges.drop_last(), n)
    }
}

/// The origins of the edges to a node, in order.
pub open spec fn ins(edges: Seq<(NodeId, NodeId)>, n: int) -> Seq<NodeId>
    decreases edges.len(),
{
    if edges.len() == 0 {
        Seq::empty()
    } else if edges.last().1 == n {
        ins(edges.drop_last(), n).push(edges.last().0)
    } else {
        ins(edges.drop_last(), n)
    }
}

proof fn lemma_ends_within(edges: Seq<(NodeId, NodeId)>, n: int, size: int)
    requires
        forall|i: int|
            0 <= i < edges.len() ==> (#[trigger] edges[i]).0 < size && edges[i].1 < size,
    ensures
        forall|i: int| 0 <= i < outs(edges, n).len() ==> (#[trigger] outs(edges, n)[i]) < size,
        forall|i: int| 0 <= i < ins(edges, n).len() ==> (#[trigger] ins(edges, n)[i]) < size,
    decreases edges.len(),
{
    if edges.len() > 0 {
        assert(edges[edges.len() - 1].0 < size);
        assert forall|i: int| 0 <= i < edges.drop_last().len() implies (
        #[trigger] edges.drop_last()[i]).0 < size && edges.drop_last()[i].1 < size by {
            assert(edges[i].0 < size);
        }
        lemma_ends_within(edges.drop_last(), n, size);
        let o = outs(edges.drop_last(), n);
        let p = ins(edges.drop_last(), n);
        assert forall|i: int| 0 <= i < outs(edges, n).len() implies (#[trigger] outs(edges, n)[i])
            < size by {
            if i < o.len() {
                assert(o[i] < size);
            }
        }
        assert forall|i: int| 0 <= i < ins(edges, n).len() implies (#[trigger] ins(edges, n)[i])
            < size by {
            if i < p.len() {
                assert(p[i] < size);
            }
        }
    }
}

/// Is `s` the text of the single hyphen that stands for standard input?
pub open spec fn is_dash(s: Seq<char>) -> bool {
    s == seq!['-']
}

/// Is this the hyphen that stands for standard input or output?
pub fn dash(s: &str) -> (r: bool)
    ensures
        r == is_dash(s@),
{
    proof {
        reveal_strlit("-");
        assert("-"@ =~= seq!['-']);
    }
    same_text(s, "-")
}

impl Op {
    /// Must the operator see the whole stream: a file sink, or one that holds
    /// rows back to its end?
    pub open spec fn drains(&self) -> bool {
        match self {
            Op::Sink { .. } => true,
            Op::GroupBy { .. } => true,
            Op::Sort { .. } => true,
            Op::Distinct { .. } => true,
            Op::Describe => true,
            Op::Join { .. } => true,
            Op::AsofJoin { .. } => true,
            Op::StreamRef { .. } => true,
            Op::Fill { method, .. } => method is Bfill || method is Mean || method is Median,
            _ => false,
        }
    }

    /// Does the operator keep nothing from one row or chunk to the next, so that
    /// parts of a stream can pass through copies of it?
    pub open spec fn stateless(&self) -> bool {
        match self {
            Op::Filter { .. } => true,
            Op::Project { .. } => true,
            Op::ProjectExpr { .. } => true,
            Op::FilterProject { .. } => true,
            Op::Rename { .. } => true,
            Op::Drop { .. } => true,
            Op::Cast { .. } => true,
            Op::Reorder { .. } => true,
            Op::DropNa { .. } => true,
            Op::Fill { method, .. } => method is Value,
            _ => false,
        }
    }

    /// Does the operator carry state over the whole stream, so that the stream
    /// cannot be divided among copies of it?
    pub open spec fn undividable(&self) -> bool {
        match self {
            Op::GroupBy { .. } => true,
            Op::Join { .. } => true,
            Op::AsofJoin { .. } => true,
            Op::StreamRef { .. } => true,
            Op::Take { .. } => true,
            Op::Sort { .. } => true,
            Op::Distinct { .. } => true,
            Op::Describe => true,
            Op::Fill { method, .. } => !(method is Value),
            Op::Sessionize { .. } => true,
            Op::Shift { .. } => true,
            _ => false,
        }
    }

    /// Must the operator see the whole stream (see [`Op::drains`])?
    pub fn must_drain(&self) -> (r: bool)
        ensures
            r == self.drains(),
    {
        match self {
            Op::Sink { .. }
            | Op::GroupBy { .. }
            | Op::Sort { .. }
            | Op::Distinct { .. }
            | Op::Describe
            | Op::Join { .. }
            | Op::AsofJoin { .. }
            | Op::StreamRef { .. } => true,
            Op::Fill { method, .. } => matches!(
                method,
                FillMethod::Bfill | FillMethod::Mean | FillMethod::Median
            ),
            _ => false,
        }
    }

    /// Does the operator carry state over the whole stream (see
    /// [`Op::undividable`])?
    pub fn carries_state(&self) -> (r: bool)
        ensures
            r == self.undividable(),
    {
        match self {
            Op::GroupBy { .. }
            | Op::Join { .. }
            | Op::AsofJoin { .. }
            | Op::StreamRef { .. }
            | Op::Take { .. }
            | Op::Sort { .. }
            | Op::Distinct { .. }
            | Op::Describe
            | Op::Sessionize { .. }
            | Op::Shift { .. } => true,
            Op::Fill { method, .. } => match method {
                FillMethod::Value(_) => false,
                _ => true,
            },
            _ => false,
        }
    }
}

/// Is the operator allowed between a source and a group that parts of the
/// stream are folded into (see [`Op::stateless`])?
pub fn pre_group_op_allowed(op: &Op) -> (r: bool)
    ensures
        r == op.stateless(),
{
    match op {
        Op::Filter { .. }
        | Op::Project { .. }
        | Op::ProjectExpr { .. }
        | Op::FilterProject { .. }
        | Op::Rename { .. }
        | Op::Drop { .. }
        | Op::Cast { .. }
        | Op::Reorder { .. }
        | Op::DropNa { .. } => true,
        Op::Fill { method, .. } => matches!(method, FillMethod::Value(_)),
        _ => false,
    }
}

/// What passes a part of the stream unchanged in meaning carries no state, and
/// does not hold rows back.
pub proof fn lemma_stateless_divides(op: Op)
    requires
        op.stateless(),
    ensures
        !op.undividable(),
        !op.drains(),
{
}

impl PlanGraph {
    /// Nodes are numbered by their places, and edges join nodes of the graph.
    pub open spec fn wf(&self) -> bool {
        &&& forall|i: int| 0 <= i < self.nodes@.len() ==> (#[trigger] self.nodes@[i]).id == i
        &&& forall|i: int|
            0 <= i < self.edges@.len() ==> (#[trigger] self.edges@[i]).0 < self.nodes@.len()
                && self.edges@[i].1 < self.nodes@.len()
    }

    /// The nodes that a node feeds.
    pub open spec fn outputs(&self, n: int) -> Seq<NodeId> {
        outs(self.edges@, n)
    }

    /// The nodes that feed a node.
    pub open spec fn inputs(&self, n: int) -> Seq<NodeId> {
        ins(self.edges@, n)
    }

    /// The nodes that a node feeds.
    pub fn outputs_of(&self, n: NodeId) -> (r: Vec<NodeId>)
        ensures
            r@ == self.outputs(n as int),
            self.wf() ==> forall|i: int| 0 <= i < r@.len() ==> (#[trigger] r@[i]) < self.nodes@.len(),
    {
        let mut out: Vec<NodeId> = Vec::new();
        for i in 0..self.edges.len()
            invariant
                out@ == outs(self.edges@.take(i as int), n as int),
        {
            assert(self.edges@.take(i + 1).drop_last() =~= self.edges@.take(i as int));
            if self.edges[i].0 == n {
                out.push(self.edges[i].1);
            }
        }
        assert(self.edges@.take(self.edges@.len() as int) =~= self.edges@);
        proof {
            if self.wf() {
                lemma_ends_within(self.edges@, n as int, self.nodes@.len() as int);
            }
        }
        out
    }

    /// The nodes that feed a node.
    pub fn inputs_of(&self, n: NodeId) -> (r: Vec<NodeId>)
        ensures
            r@ == self.inputs(n as int),
            self.wf() ==> forall|i: int| 0 <= i < r@.len() ==> (#[trigger] r@[i]) < self.nodes@.len(),
    {
        let mut out: Vec<NodeId> = Vec::new();
        for i in 0..self.edges.len()
            invariant
                out@ == ins(self.edges@.take(i as int), n as int),
        {
            assert(self.edges@.take(i + 1).drop_last() =~= self.edges@.take(i as int));
            if self.edges[i].1 == n {
                out.push(self.edges[i].0);
            }
        }
        assert(self.edges@.take(self.edges@.len() as int) =~= self.edges@);
        proof {
            if self.wf() {
                lemma_ends_within(self.edges@, n as int, self.nodes@.len() as int);
            }
        }
        out
    }

    /// Must the flow read all of its input to be right?
    pub open spec fn drains(&self) -> bool {
        exists|i: int| 0 <= i < self.nodes@.len() && (#[trigger] self.nodes@[i]).op.drains()
    }
}

/// Must the flow read all of its input (see [`PlanGraph::drains`])?
pub fn must_drain(graph: &PlanGraph) -> (r: bool)
    ensures
        r == graph.drains(),
{
    for i in 0..graph.nodes.len()
        invariant
            forall|k: int| 0 <= k < i ==> !(#[trigger] graph.nodes@[k]).op.drains(),
    {
        if graph.nodes[i].op.must_drain() {
            return true;
        }
    }
    false
}

/// The label of a node: its own, or its kind and number.
pub open spec fn node_label(n: Node) -> Seq<char> {
    match n.label {
        Some(l) => l@,
        None => n.kind@ + seq!['#'] + nat_text(n.id as nat),
    }
}

/// The label of a node (see [`node_label`]).
pub fn label_of(graph: &PlanGraph, id: NodeId) -> (r: String)
    requires
        id < graph.nodes@.len(),
    ensures
        r@ == node_label(graph.nodes@[id as int]),
{
    let n: &Node = &graph.nodes[id];
    match &n.label {
        Some(l) => l.clone(),
        None => {
            let mut s: String = n.kind.clone();
            s.push('#');
            s.push_str(u64_text(n.id as u64).as_str());
            assert(s@ =~= n.kind@ + seq!['#'] + nat_text(n.id as nat));
            s
        },
    }
}

/// The path of a source.
pub open spec fn path_of(op: Op) -> Option<Seq<char>> {
    match op {
        Op::Source { path, .. } => Some(path@),
        _ => None,
    }
}

// --------------------------------------------------------------- topology

/// An order of all nodes in which every edge goes forward.
pub open spec fn topological(g: PlanGraph, order: Seq<NodeId>) -> bool {
    &&& order.len() == g.nodes@.len()
    &&& order.no_duplicates()
    &&& forall|i: int| 0 <= i < order.len() ==> (#[trigger] order[i]) < g.nodes@.len()
    &&& forall|e: int|
        0 <= e < g.edges@.len() ==> before(
            order,
            (#[trigger] g.edges@[e]).0,
            g.edges@[e].1,
        )
}

/// One node comes before another.
pub open spec fn before(order: Seq<NodeId>, a: NodeId, b: NodeId) -> bool {
    exists|i: int, j: int| 0 <= i < j < order.len() && #[trigger] order[i] == a && #[trigger] order[j] == b
}

/// Every input of a node is among those placed.
spec fn ready(g: PlanGraph, placed: Seq<NodeId>, n: NodeId) -> bool {
    forall|e: int|
        0 <= e < g.edges@.len() && (#[trigger] g.edges@[e]).1 == n ==> placed.contains(
            g.edges@[e].0,
        )
}

fn is_ready(g: &PlanGraph, placed: &Vec<bool>, order: &Vec<NodeId>, n: NodeId) -> (r: bool)
    requires
        g.wf(),
        placed@.len() == g.nodes@.len(),
        forall|k: int|
            0 <= k < placed@.len() ==> (#[trigger] placed@[k]) == order@.contains(k as usize),
    ensures
        r == ready(*g, order@, n),
{
    for e in 0..g.edges.len()
        invariant
            g.wf(),
            placed@.len() == g.nodes@.len(),
            forall|k: int|
                0 <= k < placed@.len() ==> (#[trigger] placed@[k]) == order@.contains(k as usize),
            forall|k: int|
                0 <= k < e && (#[trigger] g.edges@[k]).1 == n ==> order@.contains(g.edges@[k].0),
    {
        let (a, b): (NodeId, NodeId) = g.edges[e];
        assert(g.edges@[e as int].0 < g.nodes@.len());
        if b == n && !placed[a] {
            assert(!order@.contains(a));
            return false;
        }
    }
    true
}

/// Where every node that is not placed waits for one that is not placed either,
/// an order of all nodes leaves none of them out.
proof fn lemma_first_stuck(g: PlanGraph, placed: Seq<NodeId>, order: Seq<NodeId>, i: int)
    requires
        g.wf(),
        topological(g, order),
        0 <= i < order.len(),
        forall|n: NodeId|
            n < g.nodes@.len() && !placed.contains(n) ==> !#[trigger] ready(g, placed, n),
    ensures
        placed.contains(order[i]),
    decreases i,
{
    let n = order[i];
    if !placed.contains(n) {
        assert(!ready(g, placed, n));
        let e = choose|e: int|
            0 <= e < g.edges@.len() && (#[trigger] g.edges@[e]).1 == n && !placed.contains(
                g.edges@[e].0,
            );
        let a = g.edges@[e].0;
        assert(before(order, a, n));
        let (p, q) = choose|p: int, q: int|
            0 <= p < q < order.len() && #[trigger] order[p] == a && #[trigger] order[q] == n;
        assert(q == i);
        lemma_first_stuck(g, placed, order, p);
    }
}

/// A sequence without duplicates of `n` numbers below `n` holds all of them.
proof fn lemma_full(order: Seq<NodeId>, n: nat, x: NodeId)
    requires
        order.no_duplicates(),
        order.len() == n <= usize::MAX + 1,
        forall|i: int| 0 <= i < order.len() ==> (#[trigger] order[i]) < n,
        x < n,
    ensures
        order.contains(x),
{
    let s = order.to_set();
    order.unique_seq_to_set();
    let all = Set::new(|k: NodeId| k < n);
    lemma_range_len(n);
    assert(s.subset_of(all));
    vstd::set_lib::lemma_subset_equality(s, all);
    assert(s.contains(x));
}

proof fn lemma_range_len(n: nat)
    requires
        n <= usize::MAX + 1,
    ensures
        Set::new(|k: NodeId| k < n).finite(),
        Set::new(|k: NodeId| k < n).len() == n,
    decreases n,
{
    let all = Set::new(|k: NodeId| k < n);
    if n == 0 {
        assert(all =~= Set::<NodeId>::empty());
    } else {
        let less = Set::new(|k: NodeId| k < (n - 1));
        lemma_range_len((n - 1) as nat);
        assert(all =~= less.insert((n - 1) as usize));
    }
}

/// An order of the nodes in which every edge goes forward; `None` where the
/// graph has a cycle and so no such order.
pub fn topo_order(g: &PlanGraph) -> (r: Option<Vec<NodeId>>)
    requires
        g.wf(),
    ensures
        match r {
            Some(order) => topological(*g, order@),
            None => forall|order: Seq<NodeId>| !topological(*g, order),
        },
{
    let n: usize = g.nodes.len();
    let mut placed: Vec<bool> = Vec::new();
    for i in 0..n
        invariant
            placed@.len() == i,
            forall|k: int| 0 <= k < i ==> !(#[trigger] placed@[k]),
    {
        placed.push(false);
    }
    let mut order: Vec<NodeId> = Vec::new();
    while order.len() < n
        invariant
            g.wf(),
            n == g.nodes@.len(),
            placed@.len() == n,
            order@.len() <= n,
            order@.no_duplicates(),
            forall|i: int| 0 <= i < order@.len() ==> (#[trigger] order@[i]) < n,
            forall|k: int| 0 <= k < n ==> (#[trigger] placed@[k]) == order@.contains(k as usize),
            forall|i: int| 0 <= i < order@.len() ==> ready(*g, order@.take(i), #[trigger] order@[i]),
        decreases n - order@.len(),
    {
        let mut next: Option<NodeId> = None;
        for k in 0..n
            invariant
                g.wf(),
                n == g.nodes@.len(),
                placed@.len() == n,
                forall|k: int|
                    0 <= k < n ==> (#[trigger] placed@[k]) == order@.contains(k as usize),
                match next {
                    Some(m) => m < n && !order@.contains(m) && ready(*g, order@, m),
                    None => forall|m: NodeId|
                        m < k && !order@.contains(m) ==> !#[trigger] ready(*g, order@, m),
                },
        {
            if next.is_none() && !placed[k] {
                assert(!order@.contains(k));
                if is_ready(g, &placed, &order, k) {
                    next = Some(k);
                }
            }
        }
        match next {
            None => {
                proof {
                    assert forall|other: Seq<NodeId>| !topological(*g, other) by {
                        if topological(*g, other) {
                            lemma_missing(order@, n as nat);
                            let x = choose|x: NodeId| x < n && !order@.contains(x);
                            lemma_full(other, n as nat, x);
                            let i = choose|i: int| 0 <= i < other.len() && other[i] == x;
                            lemma_first_stuck(*g, order@, other, i);
                        }
                    }
                }
                return None;
            },
            Some(m) => {
                let ghost was = order@;
                order.push(m);
                placed.set(m, true);
                proof {
                    assert forall|i: int| 0 <= i < order@.len() implies ready(
                        *g,
                        order@.take(i),
                        #[trigger] order@[i],
                    ) by {
                        if i < was.len() {
                            assert(order@.take(i) =~= was.take(i));
                            assert(ready(*g, was.take(i), was[i]));
                        } else {
                            assert(order@.take(i) =~= was);
                        }
                    }
                    assert forall|k: int| 0 <= k < n implies (#[trigger] placed@[k])
                        == order@.contains(k as usize) by {
                        if was.contains(k as usize) {
                            let i = choose|i: int| 0 <= i < was.len() && was[i] == k as usize;
                            assert(order@[i] == k as usize);
                        }
                        if k == m {
                            assert(order@[was.len() as int] == k as usize);
                        }
                        if order@.contains(k as usize) {
                            let i = choose|i: int| 0 <= i < order@.len() && order@[i] == k as usize;
                            if i < was.len() {
                                assert(was[i] == k as usize);
                            }
                        }
                    }
                }
            },
        }
    }
    proof {
        assert forall|e: int| 0 <= e < g.edges@.len() implies before(
            order@,
            (#[trigger] g.edges@[e]).0,
            g.edges@[e].1,
        ) by {
            let (a, b) = g.edges@[e];
            lemma_full(order@, n as nat, b);
            let j = choose|j: int| 0 <= j < order@.len() && order@[j] == b;
            assert(ready(*g, order@.take(j), order@[j]));
            assert(order@.take(j).contains(a));
            let i = choose|i: int| 0 <= i < order@.take(j).len() && order@.take(j)[i] == a;
            assert(order@[i] == a && order@[j] == b && i < j);
        }
    }
    Some(order)
}

/// A sequence of fewer than `n` numbers misses one below `n`.
proof fn lemma_missing(order: Seq<NodeId>, n: nat)
    requires
        order.len() < n <= usize::MAX + 1,
        order.no_duplicates(),
        forall|i: int| 0 <= i < order.len() ==> (#[trigger] order[i]) < n,
    ensures
        exists|x: NodeId| x < n && !order.contains(x),
{
    if forall|x: NodeId| x < n ==> order.contains(x) {
        let s = order.to_set();
        order.unique_seq_to_set();
        let all = Set::new(|k: NodeId| k < n);
        lemma_range_len(n);
        assert(all.subset_of(s));
        vstd::set_lib::lemma_len_subset(all, s);
    }
}

/// Every node stands in an order of all nodes.
pub proof fn lemma_all_placed(g: PlanGraph, order: Seq<NodeId>, n: int)
    requires
        topological(g, order),
        0 <= n < g.nodes@.len() <= usize::MAX,
    ensures
        exists|j: int| 0 <= j < order.len() && order[j] == n,
{
    let s = order.to_set();
    let all = Set::new(|x: NodeId| x < g.nodes@.len());
    order.unique_seq_to_set();
    lemma_below(g.nodes@.len());
    assert(s.subset_of(all));
    vstd::set_lib::lemma_len_subset(s, all);
    vstd::set_lib::lemma_subset_equality(s, all);
    assert(s.contains(n as NodeId));
    assert(order.contains(n as NodeId));
    let j = choose|j: int| 0 <= j < order.len() && order[j] == n as NodeId;
    assert(order[j] == n);
}

proof fn lemma_below(k: nat)
    requires
        k <= usize::MAX,
    ensures
        Set::new(|x: NodeId| x < k).finite(),
        Set::new(|x: NodeId| x < k).len() == k,
    decreases k,
{
    let s = Set::new(|x: NodeId| x < k);
    if k == 0 {
        assert(s =~= Set::empty());
    } else {
        lemma_below((k - 1) as nat);
        let less = Set::new(|x: NodeId| x < k - 1);
        assert(Set::new(|x: NodeId| x < (k - 1) as nat) =~= less);
        assert(s =~= less.insert((k - 1) as NodeId));
    }
}

} // verus!
