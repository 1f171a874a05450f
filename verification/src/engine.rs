//! What surrounds a run: its options, its result, the choice between one pass
//! and several parts, and putting the results of parts together.
use vstd::prelude::*;
use crate::chunk::{batches, index_in, index_of, opt_text, Batch, Chunk, Mode};
use crate::event::{events, ErrorEvent, ErrorScope, EventV, Severity};
use crate::flow::{add_to, tally, Counts, Flow, FlowV};
use crate::flows::{sole, only, Role};
use crate::plan::{dash, is_dash, must_drain, path_of, NodeId, Op, PlanGraph};
use crate::text::{chars_of, nat_text, owned, u64_text};
use crate::value::{DataType, Datum, Value};

verus! {

/// What memory a run may take for speed.
#[derive(Clone, Copy, Debug, PartialEq, Eq, Structural)]
pub enum MemoryPref {
    /// Parts where the input is large.
    Auto,
    /// One pass only.
    Low,
    /// Parts from a smaller size on.
    Fast,
    /// Parts at any size.
    Unbounded,
}

/// The options of a run.
#[derive(Clone, Copy, Debug)]
pub struct RunOptions {
    /// The largest number of rows in a chunk of a source.
    pub chunk_size: usize,
    /// Is progress shown?
    pub progress: bool,
    /// The number of rows that are captured at each leaf at most.
    pub max_capture: Option<usize>,
    pub memory: MemoryPref,
}

impl Default for RunOptions {
    fn default() -> (r: RunOptions)
        ensures
            r.chunk_size == 4096,
            !r.progress,
            r.max_capture is None,
            r.memory is Auto,
    {
        RunOptions { chunk_size: 4096, progress: false, max_capture: None, memory: MemoryPref::Auto }
    }
}

/// What was captured at a leaf.
#[derive(Debug)]
pub struct Output {
    pub node_id: NodeId,
    pub label: Option<String>,
    pub chunks: Vec<Chunk>,
}

/// What an [`Output`] is.
pub struct OutputV {
    pub node_id: NodeId,
    pub label: Option<Seq<char>>,
    pub chunks: Seq<Batch>,
}

impl Output {
    /// The output.
    pub open spec fn view(&self) -> OutputV {
        OutputV {
            node_id: self.node_id,
            label: opt_text(self.label),
            chunks: batches(self.chunks@),
        }
    }
}

/// The views of a list of outputs.
pub open spec fn outputs_view(s: Seq<Output>) -> Seq<OutputV> {
    Seq::new(s.len(), |i: int| s[i]@)
}

/// What a worker contributed.
#[derive(Clone, Copy, Debug, PartialEq, Eq, Structural)]
pub struct WorkerTelemetry {
    pub worker: usize,
    pub rows_out: u64,
}

/// The result of a run.
#[derive(Debug)]
pub struct RunResult {
    /// What passed each node.
    pub counts: Vec<Counts>,
    pub errors: Vec<ErrorEvent>,
    pub final_mode: Mode,
    pub outputs: Vec<Output>,
    /// What each worker contributed, where the run was in parts.
    pub workers: Vec<WorkerTelemetry>,
    /// From the start to the first row, in nanoseconds.
    pub first_row: Option<u64>,
    /// Why the run was in one pass or in parts.
    pub strategy: Option<String>,
}

/// The rows in all outputs, up to the largest count.
pub open spec fn rows_out(s: Seq<OutputV>) -> u64
    decreases s.len(),
{
    if s.len() == 0 {
        0
    } else {
        chunk_rows(rows_out(s.drop_last()), s.last().chunks)
    }
}

/// A count with the rows of chunks added.
pub open spec fn chunk_rows(a: u64, s: Seq<Batch>) -> u64
    decreases s.len(),
{
    if s.len() == 0 {
        a
    } else {
        tally(chunk_rows(a, s.drop_last()), s.last().len)
    }
}

/// A count with the rows of chunks added (see [`chunk_rows`]).
pub fn add_rows(a: u64, v: &Vec<Chunk>) -> (r: u64)
    ensures
        r == chunk_rows(a, batches(v@)),
{
    let ghost s = batches(v@);
    let mut n: u64 = a;
    for i in 0..v.len()
        invariant
            s == batches(v@),
            n == chunk_rows(a, s.take(i as int)),
    {
        assert(s.take(i + 1).drop_last() =~= s.take(i as int));
        assert(s[i as int] == v@[i as int]@);
        n = add_to(n, v[i].len);
    }
    assert(s.take(v@.len() as int) =~= s);
    n
}

fn add_outputs(a: u64, v: &Vec<Output>) -> (r: u64)
    ensures
        r == rows_from(a, outputs_view(v@)),
{
    let ghost s = outputs_view(v@);
    let mut n: u64 = a;
    for i in 0..v.len()
        invariant
            s == outputs_view(v@),
            n == rows_from(a, s.take(i as int)),
    {
        assert(s.take(i + 1).drop_last() =~= s.take(i as int));
        assert(s[i as int] == v@[i as int]@);
        n = add_rows(n, &v[i].chunks);
    }
    assert(s.take(v@.len() as int) =~= s);
    n
}

/// A count with the rows of outputs added.
pub open spec fn rows_from(a: u64, s: Seq<OutputV>) -> u64
    decreases s.len(),
{
    if s.len() == 0 {
        a
    } else {
        chunk_rows(rows_from(a, s.drop_last()), s.last().chunks)
    }
}

proof fn lemma_rows_from(s: Seq<OutputV>)
    ensures
        rows_from(0, s) == rows_out(s),
    decreases s.len(),
{
    if s.len() > 0 {
        lemma_rows_from(s.drop_last());
    }
}

impl RunResult {
    /// The rows in all outputs.
    pub fn total_rows_out(&self) -> (r: u64)
        ensures
            r == rows_out(outputs_view(self.outputs@)),
    {
        proof {
            lemma_rows_from(outputs_view(self.outputs@));
        }
        add_outputs(0, &self.outputs)
    }
}

// -------------------------------------------------------------- numbers

/// Digits with a comma before every group of three from the right.
pub open spec fn with_commas(s: Seq<char>) -> Seq<char>
    decreases s.len(),
{
    if s.len() <= 3 {
        s
    } else {
        with_commas(s.take(s.len() - 3)) + seq![','] + s.skip(s.len() - 3)
    }
}

/// The first `i` of the digits, with the commas that stand among them.
spec fn comma_prefix(s: Seq<char>, i: int) -> Seq<char>
    decreases i,
{
    if i <= 0 {
        Seq::empty()
    } else if (s.len() - (i - 1)) % 3 == 0 && i > 1 {
        comma_prefix(s, i - 1).push(',').push(s[i - 1])
    } else {
        comma_prefix(s, i - 1).push(s[i - 1])
    }
}

proof fn lemma_comma_prefix(s: Seq<char>, t: Seq<char>, i: int)
    requires
        0 <= i <= t.len() <= s.len(),
        t == s.take(t.len() as int),
        (s.len() - t.len()) % 3 == 0,
    ensures
        comma_prefix(s, i) == comma_prefix(t, i),
    decreases i,
{
    if i > 0 {
        lemma_comma_prefix(s, t, i - 1);
        assert(t[i - 1] == s[i - 1]);
        assert((s.len() - (i - 1)) % 3 == (t.len() - (i - 1)) % 3) by (nonlinear_arith)
            requires
                (s.len() - t.len()) % 3 == 0,
        ;
    }
}

proof fn lemma_commas(s: Seq<char>)
    ensures
        comma_prefix(s, s.len() as int) == with_commas(s),
    decreases s.len(),
{
    let n = s.len() as int;
    if n <= 3 {
        lemma_short_prefix(s, n);
        assert(s.take(n) =~= s);
    } else {
        let t = s.take(n - 3);
        lemma_commas(t);
        lemma_comma_prefix(s, t, n - 3);
        let p = comma_prefix(s, n - 3);
        assert(comma_prefix(s, n - 2) == p.push(',').push(s[n - 3])) by {
            assert((n - (n - 3)) % 3 == 0);
        }
        assert(comma_prefix(s, n - 1) == comma_prefix(s, n - 2).push(s[n - 2])) by {
            assert((n - (n - 2)) % 3 != 0);
        }
        assert(comma_prefix(s, n) == comma_prefix(s, n - 1).push(s[n - 1])) by {
            assert((n - (n - 1)) % 3 != 0);
        }
        assert(comma_prefix(s, n) =~= p + seq![','] + s.skip(n - 3));
    }
}

proof fn lemma_short_prefix(s: Seq<char>, i: int)
    requires
        s.len() <= 3,
        0 <= i <= s.len(),
    ensures
        comma_prefix(s, i) == s.take(i),
    decreases i,
{
    if i == 0 {
        assert(s.take(0) =~= Seq::empty());
    } else {
        lemma_short_prefix(s, i - 1);
        assert(s.take(i - 1).push(s[i - 1]) =~= s.take(i));
        if i > 1 {
            assert((s.len() - (i - 1)) % 3 != 0);
        }
    }
}

/// A number with a comma before every group of three digits.
pub fn group_thousands(n: u64) -> (r: String)
    ensures
        r@ == with_commas(nat_text(n as nat)),
{
    let digits: String = u64_text(n);
    let v: Vec<char> = chars_of(digits.as_str());
    let mut out: String = String::new();
    assert(out@ =~= Seq::empty());
    for i in 0..v.len()
        invariant
            v@ == nat_text(n as nat),
            out@ == comma_prefix(v@, i as int),
    {
        if i > 0 && (v.len() - i) % 3 == 0 {
            out.push(',');
        }
        out.push(v[i]);
    }
    proof {
        lemma_commas(v@);
    }
    out
}

// ------------------------------------------------------------- decisions

/// How far a mode is from normal.
pub open spec fn gravity(m: Mode) -> int {
    match m {
        Mode::Normal => 0,
        Mode::Degraded => 1,
        Mode::Recovery => 2,
        Mode::Isolation => 3,
        Mode::Emergency => 4,
        Mode::Halted => 5,
    }
}

/// How far a mode is from normal.
pub fn mode_rank(m: Mode) -> (r: u8)
    ensures
        r == gravity(m),
{
    match m {
        Mode::Normal => 0,
        Mode::Degraded => 1,
        Mode::Recovery => 2,
        Mode::Isolation => 3,
        Mode::Emergency => 4,
        Mode::Halted => 5,
    }
}

/// The size from which on an input is read in parts, where `floor` is the size
/// that is configured.
pub fn parallel_min_bytes_for(pref: MemoryPref, floor: u64) -> (r: u64)
    ensures
        r == match pref {
            MemoryPref::Low => u64::MAX,
            MemoryPref::Auto => floor,
            MemoryPref::Fast => if floor < 0x10_0000 {
                floor
            } else {
                0x10_0000
            },
            MemoryPref::Unbounded => 0,
        },
{
    match pref {
        MemoryPref::Low => u64::MAX,
        MemoryPref::Auto => floor,
        MemoryPref::Fast => if floor < 0x10_0000 {
            floor
        } else {
            0x10_0000
        },
        MemoryPref::Unbounded => 0,
    }
}

/// The size from which on an input is read in parts where none is configured:
/// eight mebibytes.
pub fn parallel_min_bytes(configured: Option<u64>) -> (r: u64)
    ensures
        r == match configured {
            Some(n) => n,
            None => 0x80_0000,
        },
{
    match configured {
        Some(n) => n,
        None => 0x80_0000,
    }
}

/// The one source, where it is a file.
pub open spec fn file_source(g: PlanGraph) -> Option<NodeId> {
    match sole(g, Role::Source) {
        Some(n) => if is_dash(path_of(g.nodes@[n as int].op)->Some_0) {
            None
        } else {
            Some(n)
        },
        None => None,
    }
}

/// The one source, where it is a file.
pub fn single_file_source(g: &PlanGraph) -> (r: Option<NodeId>)
    ensures
        r == file_source(*g),
{
    match only(g, Role::Source) {
        None => None,
        Some(n) => match &g.nodes[n].op {
            Op::Source { path, .. } => if dash(path.as_str()) {
                None
            } else {
                Some(n)
            },
            _ => None,
        },
    }
}

/// Is the run a preview: rows are captured up to a cap, and the flow need not
/// read all of its input?
pub fn is_preview(g: &PlanGraph, opts: &RunOptions) -> (r: bool)
    ensures
        r == (opts.max_capture is Some && !g.drains()),
{
    opts.max_capture.is_some() && !must_drain(g)
}

/// The one source of a flow that can be divided: it ends, and no operator
/// carries state over the whole stream.
pub open spec fn divisible(g: PlanGraph) -> Option<NodeId> {
    match sole(g, Role::Source) {
        Some(n) => if !g.nodes@[n as int].op->Source_unbounded && forall|i: int|
            0 <= i < g.nodes@.len() ==> !(#[trigger] g.nodes@[i]).op.undividable() {
            Some(n)
        } else {
            None
        },
        None => None,
    }
}

/// The one source of a flow that can be divided (see [`divisible`]).
pub fn divisible_source(g: &PlanGraph) -> (r: Option<NodeId>)
    ensures
        r == divisible(*g),
        r matches Some(n) ==> n < g.nodes@.len(),
{
    let n: NodeId = match only(g, Role::Source) {
        None => {
            return None;
        },
        Some(n) => n,
    };
    match &g.nodes[n].op {
        Op::Source { unbounded, .. } => {
            if *unbounded {
                return None;
            }
        },
        _ => {
            return None;
        },
    }
    for i in 0..g.nodes.len()
        invariant
            n < g.nodes@.len(),
            sole(*g, Role::Source) == Some(n),
            g.nodes@[n as int].op is Source,
            !g.nodes@[n as int].op->Source_unbounded,
            forall|k: int| 0 <= k < i ==> !(#[trigger] g.nodes@[k]).op.undividable(),
    {
        if g.nodes[i].op.carries_state() {
            return None;
        }
    }
    Some(n)
}

/// How a divisible flow is run.
#[derive(Clone, Copy, Debug, PartialEq, Eq, Structural)]
pub enum Division {
    /// In one pass: it cannot or need not be divided.
    Serial,
    /// By ranges of the file.
    Ranges(NodeId),
    /// By runs of chunks, once all are read.
    Chunks(NodeId),
}

/// How a flow is run, given what is known of the machine and the file: the
/// number of threads, whether the source is compressed, and its size where it
/// can be read from any place.
pub fn divide(
    g: &PlanGraph,
    opts: &RunOptions,
    threads: usize,
    compressed: bool,
    seekable_size: Option<u64>,
    min_bytes: u64,
) -> (r: Division)
    ensures
        r == if threads < 2 || divisible(*g) is None || (opts.max_capture is Some && !g.drains())
            || compressed {
            Division::Serial
        } else if seekable_size is Some && seekable_size->Some_0 >= min_bytes {
            Division::Ranges(divisible(*g)->Some_0)
        } else {
            Division::Chunks(divisible(*g)->Some_0)
        },
{
    if threads < 2 {
        return Division::Serial;
    }
    match divisible_source(g) {
        None => Division::Serial,
        Some(n) => {
            if is_preview(g, opts) || compressed {
                return Division::Serial;
            }
            match seekable_size {
                Some(size) => if size >= min_bytes {
                    Division::Ranges(n)
                } else {
                    Division::Chunks(n)
                },
                None => Division::Chunks(n),
            }
        },
    }
}

/// Are there enough chunks for the threads?
pub fn worth_threads(chunks: usize, threads: usize) -> (r: bool)
    ensures
        r == (chunks >= 2 * threads),
{
    chunks as u128 >= 2 * threads as u128
}

// ------------------------------------------------------------- partition

/// Where the `i`-th of `n` runs of `total` items begins.
pub open spec fn run_start(total: nat, n: nat, i: nat) -> nat {
    let rem = total % n;
    (i * (total / n) + if i < rem {
        i
    } else {
        rem
    }) as nat
}

/// Items in `n` runs that differ in length by one at most, the longer ones
/// first; empty runs are left out.
pub open spec fn runs<T>(s: Seq<T>, n: nat, k: nat) -> Seq<Seq<T>>
    decreases k,
{
    if k == 0 {
        Seq::empty()
    } else {
        let up = runs(s, n, (k - 1) as nat);
        let a = run_start(s.len(), n, (k - 1) as nat);
        let b = run_start(s.len(), n, k);
        if a < b {
            up.push(s.subrange(a as int, b as int))
        } else {
            up
        }
    }
}

/// The items of runs, one after the other.
pub open spec fn joined_runs<T>(s: Seq<Seq<T>>) -> Seq<T>
    decreases s.len(),
{
    if s.len() == 0 {
        Seq::empty()
    } else {
        joined_runs(s.drop_last()) + s.last()
    }
}

proof fn lemma_run_start(total: nat, n: nat, k: nat)
    requires
        n > 0,
        k < n,
    ensures
        run_start(total, n, k) <= run_start(total, n, k + 1) <= total,
        run_start(total, n, k + 1) - run_start(total, n, k) == total / n + if k < total % n {
            1nat
        } else {
            0
        },
        run_start(total, n, 0) == 0,
        run_start(total, n, n) == total,
{
    let base = total / n;
    let rem = total % n;
    assert((k + 1) * base == k * base + base) by (nonlinear_arith);
    assert(0 * base == 0);
    assert(n * base + rem == total) by {
        vstd::arithmetic::div_mod::lemma_fundamental_div_mod(total as int, n as int);
    }
    assert((k + 1) * base <= n * base) by (nonlinear_arith)
        requires
            k + 1 <= n,
    ;
}

proof fn lemma_runs_join<T>(s: Seq<T>, n: nat, k: nat)
    requires
        0 < n,
        k <= n,
    ensures
        run_start(s.len(), n, k) <= s.len(),
        joined_runs(runs(s, n, k)) == s.take(run_start(s.len(), n, k) as int),
    decreases k,
{
    if k == 0 {
        lemma_run_start(s.len(), n, 0);
        assert(s.take(0) =~= Seq::empty());
    } else {
        lemma_runs_join(s, n, (k - 1) as nat);
        lemma_run_start(s.len(), n, (k - 1) as nat);
        let up = runs(s, n, (k - 1) as nat);
        let a = run_start(s.len(), n, (k - 1) as nat) as int;
        let b = run_start(s.len(), n, k) as int;
        if a < b {
            let all = runs(s, n, k);
            assert(all.drop_last() =~= up);
            assert(s.take(a) + s.subrange(a, b) =~= s.take(b));
        }
    }
}

/// The runs, one after the other, are the items: nothing is lost, doubled or
/// moved.
pub proof fn lemma_partition_covers<T>(s: Seq<T>, n: nat)
    requires
        0 < n,
    ensures
        joined_runs(runs(s, n, n)) == s,
{
    lemma_runs_join(s, n, n);
    lemma_run_start(s.len(), n, (n - 1) as nat);
    assert(s.take(s.len() as int) =~= s);
}

/// The views of runs of chunks.
pub open spec fn runs_view(s: Seq<Vec<Chunk>>) -> Seq<Seq<Batch>> {
    Seq::new(s.len(), |i: int| batches(s[i]@))
}

/// Chunks in `n` runs, in order, that differ in length by one at most; empty
/// runs are left out.
pub fn partition(all: &Vec<Chunk>, n: usize) -> (r: Vec<Vec<Chunk>>)
    requires
        n > 0,
    ensures
        runs_view(r@) == runs(batches(all@), n as nat, n as nat),
{
    let ghost s = batches(all@);
    let base: usize = all.len() / n;
    let rem: usize = all.len() % n;
    let mut out: Vec<Vec<Chunk>> = Vec::new();
    let mut at: usize = 0;
    assert(runs_view(out@) =~= Seq::empty());
    proof {
        lemma_run_start(s.len(), n as nat, 0);
    }
    for i in 0..n
        invariant
            s == batches(all@),
            n > 0,
            base == s.len() / (n as nat),
            rem == s.len() % (n as nat),
            at == run_start(s.len(), n as nat, i as nat),
            at <= s.len() <= usize::MAX,
            s.len() == all@.len(),
            runs_view(out@) == runs(s, n as nat, i as nat),
    {
        proof {
            lemma_run_start(s.len(), n as nat, i as nat);
        }
        let mut take: usize = base;
        assert(at + base + if i < rem {
            1int
        } else {
            0
        } <= s.len());
        if i < rem {
            take = take + 1;
        }
        if take > 0 {
            let ghost up = runs_view(out@);
            let mut group: Vec<Chunk> = Vec::new();
            for k in 0..take
                invariant
                    s == batches(all@),
                    at + take <= s.len() <= usize::MAX,
                    s.len() == all@.len(),
                    group@.len() == k,
                    forall|j: int| 0 <= j < k ==> (#[trigger] group@[j])@ == s[at + j],
            {
                assert(s[at + k] == all@[at + k]@);
                group.push(all[at + k].dup());
            }
            proof {
                assert(batches(group@) =~= s.subrange(at as int, at + take));
            }
            let ghost gv = batches(group@);
            out.push(group);
            assert(runs_view(out@) =~= up.push(gv));
        }
        at = at + take;
    }
    out
}


// ------------------------------------------------------------ the result

/// The outputs of the first `n` nodes that captured anything.
pub open spec fn leaves(f: FlowV, g: PlanGraph, n: nat) -> Seq<OutputV>
    decreases n,
{
    if n == 0 {
        Seq::empty()
    } else if f.captured[n - 1].len() > 0 {
        leaves(f, g, (n - 1) as nat).push(
            OutputV {
                node_id: (n - 1) as usize,
                label: opt_text(g.nodes@[n - 1].label),
                chunks: f.captured[n - 1],
            },
        )
    } else {
        leaves(f, g, (n - 1) as nat)
    }
}

/// The events of a flow at its end: a preview that was cut short says so.
pub open spec fn closing(f: FlowV) -> Seq<EventV> {
    if f.truncated && f.cap is Some {
        f.errors.push(
            EventV {
                severity: Severity::Info,
                scope: ErrorScope::Graph,
                message: "output preview limited to "@ + nat_text(f.cap->Some_0 as nat)
                    + " row(s) \u{2014} add a sink (e.g. `save out.csv`) to materialize all"@,
                node: None,
                chunk: None,
            },
        )
    } else {
        f.errors
    }
}

/// The result of a flow that has ended: what was captured, by node, the counts
/// and the events.
pub fn result_of(flow: Flow, g: &PlanGraph) -> (r: RunResult)
    requires
        flow@.wf(*g),
    ensures
        r.counts@ == flow@.counts,
        events(r.errors@) == closing(flow@),
        r.final_mode == flow@.mode,
        outputs_view(r.outputs@) == leaves(flow@, *g, g.nodes@.len()),
        r.workers@.len() == 0,
        r.first_row is None,
        r.strategy is None,
{
    let ghost f = flow@;
    let mut outputs: Vec<Output> = Vec::new();
    assert(outputs_view(outputs@) =~= Seq::empty());
    for n in 0..g.nodes.len()
        invariant
            f == flow@,
            f.wf(*g),
            outputs_view(outputs@) == leaves(f, *g, n as nat),
    {
        assert(f.captured[n as int] == batches(flow.captured@[n as int]@));
        if flow.captured[n].len() > 0 {
            let ghost up = outputs_view(outputs@);
            let o = Output {
                node_id: n,
                label: crate::chunk::dup_opt_text(&g.nodes[n].label),
                chunks: crate::chunk::dup_chunks(&flow.captured[n]),
            };
            outputs.push(o);
            assert(outputs_view(outputs@) =~= up.push(o@));
        }
    }
    let mut errors: Vec<ErrorEvent> = flow.errors;
    if flow.truncated {
        match flow.cap {
            Some(cap) => {
                let mut text: String = owned("output preview limited to ");
                text.push_str(u64_text(cap as u64).as_str());
                text.push_str(
                    " row(s) \u{2014} add a sink (e.g. `save out.csv`) to materialize all",
                );
                let e = ErrorEvent::new(Severity::Info, ErrorScope::Graph, text);
                let ghost up = events(errors@);
                errors.push(e);
                assert(events(errors@) =~= up.push(e@));
            },
            None => {},
        }
    }
    RunResult {
        counts: flow.counts,
        errors,
        final_mode: flow.mode,
        outputs,
        workers: Vec::new(),
        first_row: None,
        strategy: None,
    }
}

// ------------------------------------------------------------ merging

/// The counts of two parts together.
pub open spec fn counts_joined(a: Counts, b: Counts) -> Counts {
    Counts {
        chunks_in: tally(a.chunks_in, b.chunks_in as nat),
        chunks_out: tally(a.chunks_out, b.chunks_out as nat),
        rows_in: tally(a.rows_in, b.rows_in as nat),
        rows_out: tally(a.rows_out, b.rows_out as nat),
        errors: tally(a.errors, b.errors as nat),
        mode: if b.mode is Normal {
            a.mode
        } else {
            b.mode
        },
        finished: a.finished || b.finished,
    }
}

fn join_counts(a: Counts, b: Counts) -> (r: Counts)
    ensures
        r == counts_joined(a, b),
{
    Counts {
        chunks_in: a.chunks_in.saturating_add(b.chunks_in),
        chunks_out: a.chunks_out.saturating_add(b.chunks_out),
        rows_in: a.rows_in.saturating_add(b.rows_in),
        rows_out: a.rows_out.saturating_add(b.rows_out),
        errors: a.errors.saturating_add(b.errors),
        mode: if matches!(b.mode, Mode::Normal) {
            a.mode
        } else {
            b.mode
        },
        finished: a.finished || b.finished,
    }
}

/// The chunks of one node among outputs, in order.
pub open spec fn at_node(s: Seq<OutputV>, n: int) -> Seq<Batch>
    decreases s.len(),
{
    if s.len() == 0 {
        Seq::empty()
    } else if s.last().node_id == n {
        at_node(s.drop_last(), n) + s.last().chunks
    } else {
        at_node(s.drop_last(), n)
    }
}

/// The rows that came in at the first `n` nodes that are sinks.
pub open spec fn sunk(g: PlanGraph, c: Seq<Counts>, n: nat) -> u64
    decreases n,
{
    if n == 0 {
        0
    } else if g.nodes@[n - 1].op is Sink || g.nodes@[n - 1].op is SinkPrint {
        tally(sunk(g, c, (n - 1) as nat), c[n - 1].rows_in as nat)
    } else {
        sunk(g, c, (n - 1) as nat)
    }
}

/// What is known of the parts so far.
#[verifier::ext_equal]
pub struct TotalV {
    pub counts: Seq<Counts>,
    pub errors: Seq<EventV>,
    pub mode: Mode,
    /// What each node captured.
    pub chunks: Seq<Seq<Batch>>,
    pub workers: Seq<WorkerTelemetry>,
    pub first_row: Option<u64>,
}

/// The parts of a run, put together in the order of the source.
pub struct Total {
    pub counts: Vec<Counts>,
    pub errors: Vec<ErrorEvent>,
    pub mode: Mode,
    pub chunks: Vec<Vec<Chunk>>,
    pub workers: Vec<WorkerTelemetry>,
    pub first_row: Option<u64>,
}

/// The earlier of two times, where they are known.
pub open spec fn earlier(a: Option<u64>, b: Option<u64>) -> Option<u64> {
    match (a, b) {
        (None, _) => b,
        (_, None) => a,
        (Some(x), Some(y)) => Some(
            if x <= y {
                x
            } else {
                y
            },
        ),
    }
}

/// The parts with one more: the mode is the graver one, the events follow, the
/// counts add up, and what a node captured follows what it captured before.
pub open spec fn with_part(t: TotalV, g: PlanGraph, r: RunResult) -> TotalV {
    let out = outputs_view(r.outputs@);
    TotalV {
        counts: Seq::new(t.counts.len(), |i: int| counts_joined(t.counts[i], r.counts@[i])),
        errors: t.errors + events(r.errors@),
        mode: if gravity(r.final_mode) > gravity(t.mode) {
            r.final_mode
        } else {
            t.mode
        },
        chunks: Seq::new(t.chunks.len(), |i: int| t.chunks[i] + at_node(out, i)),
        workers: t.workers.push(
            WorkerTelemetry {
                worker: t.workers.len() as usize,
                rows_out: rows_from(sunk(g, r.counts@, g.nodes@.len()), out),
            },
        ),
        first_row: earlier(t.first_row, r.first_row),
    }
}

fn count_sunk(g: &PlanGraph, c: &Vec<Counts>) -> (r: u64)
    requires
        c@.len() == g.nodes@.len(),
    ensures
        r == sunk(*g, c@, g.nodes@.len()),
{
    let mut n: u64 = 0;
    for i in 0..g.nodes.len()
        invariant
            c@.len() == g.nodes@.len(),
            n == sunk(*g, c@, i as nat),
    {
        if matches!(&g.nodes[i].op, Op::Sink { .. } | Op::SinkPrint) {
            n = n.saturating_add(c[i].rows_in);
        }
    }
    n
}

impl Total {
    /// The parts so far.
    pub open spec fn view(&self) -> TotalV {
        TotalV {
            counts: self.counts@,
            errors: events(self.errors@),
            mode: self.mode,
            chunks: runs_view(self.chunks@),
            workers: self.workers@,
            first_row: self.first_row,
        }
    }

    /// A slot for every node.
    pub open spec fn wf(&self, g: PlanGraph) -> bool {
        self.counts@.len() == g.nodes@.len() && self.chunks@.len() == g.nodes@.len()
    }

    /// No part yet, with the events that reading the source raised.
    pub fn new(g: &PlanGraph, src_errors: Vec<ErrorEvent>) -> (r: Total)
        ensures
            r.wf(*g),
            r@ == (TotalV {
                counts: Seq::new(g.nodes@.len(), |i: int| Counts::none()),
                errors: events(src_errors@),
                mode: Mode::Normal,
                chunks: Seq::new(g.nodes@.len(), |i: int| Seq::empty()),
                workers: Seq::empty(),
                first_row: None,
            }),
    {
        let mut counts: Vec<Counts> = Vec::new();
        let mut chunks: Vec<Vec<Chunk>> = Vec::new();
        for i in 0..g.nodes.len()
            invariant
                counts@.len() == i,
                chunks@.len() == i,
                forall|k: int| 0 <= k < i ==> (#[trigger] counts@[k]) == Counts::none(),
                forall|k: int| 0 <= k < i ==> (#[trigger] chunks@[k])@.len() == 0,
        {
            counts.push(Counts::zero());
            chunks.push(Vec::new());
        }
        let r = Total {
            counts,
            errors: src_errors,
            mode: Mode::Normal,
            chunks,
            workers: Vec::new(),
            first_row: None,
        };
        proof {
            assert(r@.counts =~= Seq::new(g.nodes@.len(), |i: int| Counts::none()));
            assert forall|i: int| 0 <= i < g.nodes@.len() implies r@.chunks[i]
                =~= Seq::<Batch>::empty() by {
                assert(chunks@[i]@.len() == 0);
            }
            assert(r@.chunks =~= Seq::new(g.nodes@.len(), |i: int| Seq::<Batch>::empty()));
            assert(r@.workers =~= Seq::empty());
        }
        r
    }

    fn take_outputs(&mut self, g: &PlanGraph, outputs: &Vec<Output>)
        requires
            old(self).wf(*g),
            forall|i: int|
                0 <= i < outputs@.len() ==> (#[trigger] outputs@[i]).node_id < g.nodes@.len(),
        ensures
            final(self).wf(*g),
            final(self)@ == (TotalV {
                chunks: Seq::new(
                    old(self)@.chunks.len(),
                    |i: int| old(self)@.chunks[i] + at_node(outputs_view(outputs@), i),
                ),
                ..old(self)@
            }),
    {
        let ghost was = self@;
        let ghost out = outputs_view(outputs@);
        proof {
            assert forall|i: int| 0 <= i < was.chunks.len() implies was.chunks[i] =~= (
            #[trigger] was.chunks[i]) + at_node(out.take(0), i) by {}
        }
        for k in 0..outputs.len()
            invariant
                self.wf(*g),
                out == outputs_view(outputs@),
                was.chunks.len() == g.nodes@.len(),
                forall|i: int|
                    0 <= i < outputs@.len() ==> (#[trigger] outputs@[i]).node_id < g.nodes@.len(),
                self.counts == old(self).counts,
                self.errors == old(self).errors,
                self.mode == old(self).mode,
                self.workers == old(self).workers,
                self.first_row == old(self).first_row,
                forall|i: int|
                    0 <= i < was.chunks.len() ==> (#[trigger] self@.chunks[i]) == was.chunks[i]
                        + at_node(out.take(k as int), i),
        {
            let ghost up = self@.chunks;
            let ghost vecs = self.chunks@;
            let n: NodeId = outputs[k].node_id;
            let mut more: Vec<Chunk> = crate::chunk::dup_chunks(&outputs[k].chunks);
            let ghost ms = more@;
            assert(outputs@[k as int].node_id < g.nodes@.len());
            self.chunks[n].append(&mut more);
            proof {
                assert(out.take(k + 1).drop_last() =~= out.take(k as int));
                assert(out[k as int] == outputs@[k as int]@);
                assert forall|i: int| 0 <= i < was.chunks.len() implies (
                #[trigger] self@.chunks[i]) == was.chunks[i] + at_node(out.take(k + 1), i) by {
                    assert(up[i] == was.chunks[i] + at_node(out.take(k as int), i));
                    if i == n {
                        assert(batches(self.chunks@[i]@) =~= batches(vecs[i]@) + batches(ms));
                        assert(self@.chunks[i] =~= was.chunks[i] + at_node(out.take(k + 1), i));
                    }
                }
            }
        }
        proof {
            assert(out.take(outputs@.len() as int) =~= out);
            assert(self@.chunks =~= Seq::new(
                was.chunks.len(),
                |i: int| was.chunks[i] + at_node(out, i),
            ));
        }
    }

    /// Puts the next part behind the others (see [`with_part`]).
    pub fn take_part(&mut self, g: &PlanGraph, r: RunResult)
        requires
            old(self).wf(*g),
            r.counts@.len() == g.nodes@.len(),
            forall|i: int|
                0 <= i < r.outputs@.len() ==> (#[trigger] r.outputs@[i]).node_id < g.nodes@.len(),
            old(self)@.workers.len() < usize::MAX,
        ensures
            final(self).wf(*g),
            final(self)@ == with_part(old(self)@, *g, r),
    {
        let ghost was = self@;
        self.first_row = match (self.first_row, r.first_row) {
            (None, b) => b,
            (a, None) => a,
            (Some(x), Some(y)) => Some(
                if x <= y {
                    x
                } else {
                    y
                },
            ),
        };
        if mode_rank(r.final_mode) > mode_rank(self.mode) {
            self.mode = r.final_mode;
        }
        let rows: u64 = add_outputs(count_sunk(g, &r.counts), &r.outputs);
        let w = WorkerTelemetry { worker: self.workers.len(), rows_out: rows };
        self.workers.push(w);
        let mut more: Vec<ErrorEvent> = r.errors;
        let ghost a = self.errors@;
        let ghost b = more@;
        self.errors.append(&mut more);
        assert(events(self.errors@) =~= events(a) + events(b));
        let ghost mid = self@;
        for i in 0..g.nodes.len()
            invariant
                self.wf(*g),
                r.counts@.len() == g.nodes@.len(),
                self.chunks == old(self).chunks,
                was == old(self)@,
                self@ == (TotalV { counts: self@.counts, ..mid }),
                forall|k: int|
                    0 <= k < i ==> (#[trigger] self.counts@[k]) == counts_joined(
                        was.counts[k],
                        r.counts@[k],
                    ),
                forall|k: int|
                    i <= k < g.nodes@.len() ==> (#[trigger] self.counts@[k]) == was.counts[k],
        {
            let c: Counts = join_counts(self.counts[i], r.counts[i]);
            self.counts.set(i, c);
        }
        proof {
            assert(self@.counts =~= with_part(was, *g, r).counts);
        }
        self.take_outputs(g, &r.outputs);
        assert(self@.workers =~= with_part(was, *g, r).workers);
    }
}

/// The result of parts put together one after the other.
pub open spec fn with_parts(t: TotalV, g: PlanGraph, rs: Seq<RunResult>) -> TotalV
    decreases rs.len(),
{
    if rs.len() == 0 {
        t
    } else {
        with_part(with_parts(t, g, rs.drop_last()), g, rs.last())
    }
}

/// The gravest mode among the parts is the mode of the whole.
pub proof fn lemma_gravest_mode(t: TotalV, g: PlanGraph, rs: Seq<RunResult>)
    ensures
        gravity(with_parts(t, g, rs).mode) >= gravity(t.mode),
        forall|i: int|
            0 <= i < rs.len() ==> gravity(with_parts(t, g, rs).mode) >= gravity(
                (#[trigger] rs[i]).final_mode,
            ),
    decreases rs.len(),
{
    if rs.len() > 0 {
        lemma_gravest_mode(t, g, rs.drop_last());
        assert forall|i: int| 0 <= i < rs.len() implies gravity(with_parts(t, g, rs).mode)
            >= gravity((#[trigger] rs[i]).final_mode) by {
            if i < rs.len() - 1 {
                assert(rs.drop_last()[i] == rs[i]);
            }
        }
    }
}

/// Merges the results of parts: what they captured stands apart for each node,
/// in the order of the parts. A source that failed halts the whole.
pub fn merge_results(
    g: &PlanGraph,
    results: Vec<RunResult>,
    src_errors: Vec<ErrorEvent>,
    src_fatal: bool,
) -> (r: Total)
    requires
        forall|i: int|
            0 <= i < results@.len() ==> (#[trigger] results@[i]).counts@.len() == g.nodes@.len(),
        forall|i: int, k: int|
            0 <= i < results@.len() && 0 <= k < results@[i].outputs@.len() ==> (
            #[trigger] results@[i].outputs@[k]).node_id < g.nodes@.len(),
    ensures
        r.wf(*g),
        ({
            let start = TotalV {
                counts: Seq::new(g.nodes@.len(), |i: int| Counts::none()),
                errors: events(src_errors@),
                mode: Mode::Normal,
                chunks: Seq::new(g.nodes@.len(), |i: int| Seq::empty()),
                workers: Seq::empty(),
                first_row: None,
            };
            let all = with_parts(start, *g, results@);
            r@ == (TotalV {
                mode: if src_fatal {
                    Mode::Halted
                } else {
                    all.mode
                },
                ..all
            })
        }),
{
    let ghost rs = results@;
    let mut rest: Vec<RunResult> = results;
    let mut flipped: Vec<RunResult> = Vec::new();
    while rest.len() > 0
        invariant
            rest@.len() + flipped@.len() == rs.len(),
            rest@ == rs.take(rest@.len() as int),
            forall|i: int| 0 <= i < flipped@.len() ==> (#[trigger] flipped@[i]) == rs[rs.len() - 1 - i],
        decreases rest@.len(),
    {
        let ghost n = rest@.len() as int;
        match rest.pop() {
            Some(x) => {
                assert(x == rs[n - 1]);
                flipped.push(x);
            },
            None => {},
        }
        assert(rs.take(n).drop_last() =~= rs.take(n - 1));
    }
    let mut total: Total = Total::new(g, src_errors);
    let ghost start = total@;
    assert(rs.take(0) =~= Seq::empty());
    let count: usize = flipped.len();
    for k in 0..count
        invariant
            count == rs.len(),
            flipped@.len() == rs.len() - k,
            forall|i: int| 0 <= i < flipped@.len() ==> (#[trigger] flipped@[i]) == rs[rs.len() - 1 - i],
            forall|i: int|
                0 <= i < rs.len() ==> (#[trigger] rs[i]).counts@.len() == g.nodes@.len(),
            forall|i: int, j: int|
                0 <= i < rs.len() && 0 <= j < rs[i].outputs@.len() ==> (
                #[trigger] rs[i].outputs@[j]).node_id < g.nodes@.len(),
            total.wf(*g),
            total@ == with_parts(start, *g, rs.take(k as int)),
            total@.workers.len() == k,
    {
        match flipped.pop() {
            Some(x) => {
                assert(x == rs[k as int]);
                assert forall|j: int| 0 <= j < x.outputs@.len() implies (
                #[trigger] x.outputs@[j]).node_id < g.nodes@.len() by {
                    assert(rs[k as int].outputs@[j].node_id < g.nodes@.len());
                }
                total.take_part(g, x);
                assert(rs.take(k + 1).drop_last() =~= rs.take(k as int));
            },
            None => {},
        }
    }
    assert(rs.take(count as int) =~= rs);
    if src_fatal {
        total.mode = Mode::Halted;
    }
    total
}

// ------------------------------------------------------------ resources

/// The column that holds the resources of a chunk: the one named `path`, where
/// it holds them, else the first that does.
pub open spec fn resource_column(b: Batch) -> Option<int> {
    match index_in(b.fields, "path"@) {
        Some(i) if b.fields[i].dtype is Resource => Some(i),
        _ => first_resource(b, b.fields.len()),
    }
}

/// The first of the first `n` columns that holds resources.
pub open spec fn first_resource(b: Batch, n: nat) -> Option<int>
    decreases n,
{
    if n == 0 {
        None
    } else {
        match first_resource(b, (n - 1) as nat) {
            Some(i) => Some(i),
            None => if b.fields[n - 1].dtype is Resource {
                Some(n - 1)
            } else {
                None
            },
        }
    }
}

/// The resources of the first `n` cells of a column.
pub open spec fn uris(cells: Seq<Datum>, n: nat) -> Seq<Seq<char>>
    decreases n,
{
    if n == 0 {
        Seq::empty()
    } else {
        match cells[n - 1] {
            Datum::Resource(u) => uris(cells, (n - 1) as nat).push(u),
            _ => uris(cells, (n - 1) as nat),
        }
    }
}

proof fn lemma_first_resource(b: Batch, n: nat, m: nat)
    requires
        n <= m,
        first_resource(b, n) is Some,
    ensures
        first_resource(b, m) == first_resource(b, n),
    decreases m - n,
{
    if n < m {
        lemma_first_resource(b, n, (m - 1) as nat);
    }
}

fn find_resource(chunk: &Chunk) -> (r: Option<usize>)
    ensures
        match r {
            Some(i) => resource_column(chunk@) == Some(i as int) && i < chunk@.fields.len(),
            None => resource_column(chunk@) is None,
        },
{
    match index_of(&chunk.fields, "path") {
        Some(i) => {
            assert(chunk@.fields[i as int] == chunk.fields@[i as int]@);
            if matches!(chunk.fields[i].dtype, DataType::Resource) {
                return Some(i);
            }
        },
        None => {},
    }
    for i in 0..chunk.fields.len()
        invariant
            first_resource(chunk@, i as nat) is None,
            resource_column(chunk@) == first_resource(chunk@, chunk@.fields.len()),
    {
        assert(chunk@.fields[i as int] == chunk.fields@[i as int]@);
        if matches!(chunk.fields[i].dtype, DataType::Resource) {
            proof {
                lemma_first_resource(chunk@, (i + 1) as nat, chunk@.fields.len());
            }
            return Some(i);
        }
    }
    None
}

/// The resources that a chunk names, put behind `out`.
pub fn uris_of_chunk(chunk: &Chunk, out: &mut Vec<String>)
    requires
        chunk@.wf(),
    ensures
        crate::value::texts(final(out)@) == crate::value::texts(old(out)@) + match resource_column(
            chunk@,
        ) {
            Some(i) => uris(chunk@.columns[i].cells, chunk@.len),
            None => Seq::empty(),
        },
{
    let ghost start = crate::value::texts(out@);
    match find_resource(chunk) {
        None => {
            assert(start + Seq::<Seq<char>>::empty() =~= start);
        },
        Some(ci) => {
            let ghost cells = chunk@.columns[ci as int].cells;
            assert(start + uris(cells, 0) =~= start);
            for r in 0..chunk.len
                invariant
                    chunk@.wf(),
                    ci < chunk@.fields.len(),
                    cells == chunk@.columns[ci as int].cells,
                    crate::value::texts(out@) == start + uris(cells, r as nat),
            {
                assert(chunk@.columns[ci as int] == chunk.columns@[ci as int]@);
                let ghost up = crate::value::texts(out@);
                let v: Value = chunk.value(r, ci);
                match v {
                    Value::Resource(u) => {
                        out.push(u);
                        assert(crate::value::texts(out@) =~= up.push(u@));
                        assert(crate::value::texts(out@) =~= start + uris(cells, (r + 1) as nat));
                    },
                    _ => {},
                }
            }
        },
    }
}

} // verus!
