//! The order of visits: in each sweep every node of the order is visited once, and
//! the run goes on as long as a sweep found work and nothing fatal happened.
use vstd::prelude::*;
use crate::event::{any_fatal, EventV};
use crate::flow::{lemma_distributed_kept, lemma_progress, visited, work, Flow, FlowV, Work};
use crate::chunk::Batch;
use crate::plan::{lemma_all_placed, topological, NodeId, PlanGraph};

verus! {

/// Whether a node has something to do.
pub open spec fn busy(f: FlowV, g: PlanGraph, sat: Seq<bool>, n: NodeId) -> bool {
    !(work(f, g, sat, n) is Rest) && !(work(f, g, sat, n) is Wait)
}

/// The place of the first node from `i` on that has something to do.
pub open spec fn first_busy(
    f: FlowV,
    g: PlanGraph,
    sat: Seq<bool>,
    order: Seq<NodeId>,
    i: int,
) -> Option<int>
    decreases order.len() - i,
{
    if i < 0 || i >= order.len() {
        None
    } else if busy(f, g, sat, order[i]) {
        Some(i)
    } else {
        first_busy(f, g, sat, order, i + 1)
    }
}

/// How far a run is.
#[derive(Clone, Copy, Debug, PartialEq, Eq, Structural)]
pub struct Sweep {
    /// The place in the order that the sweep goes on at.
    pub at: usize,
    /// Whether the sweep found work.
    pub active: bool,
}

/// The next visit, and how far the run is then. No visit is left where a sweep
/// found no work, or has ended after something fatal.
pub open spec fn next_visit(
    s: Sweep,
    f: FlowV,
    g: PlanGraph,
    sat: Seq<bool>,
    order: Seq<NodeId>,
) -> (Option<(NodeId, Work)>, Sweep) {
    match first_busy(f, g, sat, order, s.at as int) {
        Some(k) => (
            Some((order[k], work(f, g, sat, order[k]))),
            Sweep { at: (k + 1) as usize, active: true },
        ),
        None => if s.active && !f.fatal {
            match first_busy(f, g, sat, order, 0) {
                Some(k) => (
                    Some((order[k], work(f, g, sat, order[k]))),
                    Sweep { at: (k + 1) as usize, active: true },
                ),
                None => (None, Sweep { at: order.len() as usize, active: false }),
            }
        } else {
            (None, Sweep { at: order.len() as usize, active: false })
        },
    }
}

proof fn lemma_first_busy(f: FlowV, g: PlanGraph, sat: Seq<bool>, order: Seq<NodeId>, i: int)
    requires
        0 <= i,
    ensures
        match first_busy(f, g, sat, order, i) {
            Some(k) => i <= k < order.len() && busy(f, g, sat, order[k]),
            None => forall|k: int|
                i <= k < order.len() ==> !busy(f, g, sat, #[trigger] order[k]),
        },
    decreases order.len() - i,
{
    if i < order.len() {
        lemma_first_busy(f, g, sat, order, i + 1);
    }
}

impl Sweep {
    /// Before the first sweep.
    pub fn start(order: &Vec<NodeId>) -> (r: Sweep)
        ensures
            r == (Sweep { at: order@.len() as usize, active: true }),
    {
        Sweep { at: order.len(), active: true }
    }

    fn seek(flow: &Flow, g: &PlanGraph, sat: &Vec<bool>, order: &Vec<NodeId>, from: usize) -> (r:
        Option<usize>)
        requires
            flow@.wf(*g),
            sat@.len() == g.nodes@.len(),
            forall|i: int| 0 <= i < order@.len() ==> (#[trigger] order@[i]) < g.nodes@.len(),
            from <= order@.len(),
        ensures
            match (r, first_busy(flow@, *g, sat@, order@, from as int)) {
                (Some(k), Some(j)) => k == j && k < order@.len(),
                (None, None) => true,
                _ => false,
            },
    {
        for i in from..order.len()
            invariant
                flow@.wf(*g),
                sat@.len() == g.nodes@.len(),
                forall|i: int| 0 <= i < order@.len() ==> (#[trigger] order@[i]) < g.nodes@.len(),
                from <= i <= order@.len(),
                first_busy(flow@, *g, sat@, order@, from as int) == first_busy(
                    flow@,
                    *g,
                    sat@,
                    order@,
                    i as int,
                ),
        {
            assert(order@[i as int] < g.nodes@.len());
            match flow.next_work(g, sat, order[i]) {
                Work::Rest | Work::Wait => {},
                _ => {
                    return Some(i);
                },
            }
        }
        None
    }

    /// The next visit (see [`next_visit`]).
    pub fn next(&mut self, flow: &Flow, g: &PlanGraph, sat: &Vec<bool>, order: &Vec<NodeId>) -> (r:
        Option<(NodeId, Work)>)
        requires
            flow@.wf(*g),
            sat@.len() == g.nodes@.len(),
            forall|i: int| 0 <= i < order@.len() ==> (#[trigger] order@[i]) < g.nodes@.len(),
            old(self).at <= order@.len(),
        ensures
            (r, *final(self)) == next_visit(*old(self), flow@, *g, sat@, order@),
            final(self).at <= order@.len(),
            r matches Some(v) ==> v.0 < g.nodes@.len() && !flow@.done[v.0 as int],
    {
        let size: usize = order.len();
        let mut found: Option<usize> = Self::seek(flow, g, sat, order, self.at);
        if found.is_none() && self.active && !flow.fatal {
            found = Self::seek(flow, g, sat, order, 0);
        }
        match found {
            Some(k) => {
                proof {
                    assert(order@[k as int] < g.nodes@.len());
                    lemma_first_busy(flow@, *g, sat@, order@, old(self).at as int);
                    lemma_first_busy(flow@, *g, sat@, order@, 0);
                }
                let n: NodeId = order[k];
                *self = Sweep { at: k + 1, active: true };
                Some((n, flow.next_work(g, sat, n)))
            },
            None => {
                *self = Sweep { at: size, active: false };
                None
            },
        }
    }
}

/// A run ends only where every node is done or something fatal happened.
pub proof fn lemma_run_ends(
    s: Sweep,
    f: FlowV,
    g: PlanGraph,
    sat: Seq<bool>,
    order: Seq<NodeId>,
)
    requires
        f.wf(g),
        topological(g, order),
        g.nodes@.len() <= usize::MAX,
        s.active,
        s.at <= order.len(),
        next_visit(s, f, g, sat, order).0 is None,
    ensures
        f.fatal || forall|n: int| 0 <= n < g.nodes@.len() ==> #[trigger] f.done[n],
{
    if !f.fatal {
        assert forall|n: int| 0 <= n < g.nodes@.len() implies #[trigger] f.done[n] by {
            if !f.done[n] {
                lemma_all_placed(g, order, n);
                let i = choose|i: int| 0 <= i < order.len() && order[i] == n;
                assert(!f.done[order[i] as int]);
                lemma_progress(f, g, sat, order);
                let m = choose|m: NodeId|
                    m < g.nodes@.len() && !((#[trigger] work(f, g, sat, m)) is Rest) && !(work(
                        f,
                        g,
                        sat,
                        m,
                    ) is Wait);
                lemma_all_placed(g, order, m as int);
                let j = choose|j: int| 0 <= j < order.len() && order[j] == m;
                assert(busy(f, g, sat, order[j]));
                lemma_first_busy(f, g, sat, order, 0);
            }
        }
    }
}

/// Errors do not stop a flow: a visit whose events are not fatal leaves it
/// running, and every event stands on the error stream behind the earlier ones.
pub proof fn lemma_continue_first(
    f: FlowV,
    g: PlanGraph,
    n: NodeId,
    ev: Seq<EventV>,
    out: Seq<Batch>,
    ended: bool,
)
    requires
        f.wf(g),
        n < g.nodes@.len(),
        !any_fatal(ev),
    ensures
        visited(f, g, n, ev, out, ended).fatal == f.fatal,
        (f.errors + ev).is_prefix_of(visited(f, g, n, ev, out, ended).errors),
{
    lemma_distributed_kept(crate::flow::noted(f, g, n, ev), g, n, out, out.len());
    if ev.len() == 0 {
        assert(f.errors + ev =~= f.errors);
    }
}

} // verus!
