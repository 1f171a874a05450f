//! Runs over many files, and outputs that are written in parts: when they are
//! worth it, in which order the files are taken, which are left out, and what the
//! run comes to.
use vstd::prelude::*;
use crate::chunk::{batches, dup_opt_text, fields_view, index_in, index_of, opt_text, Batch, Chunk, Field, FieldV, Mode};
use crate::compare::{rank_texts, text_order};
use crate::engine::{outputs_view, Output, OutputV, RunResult, WorkerTelemetry};
use crate::event::{any_fatal, events, has_fatal, message3, ErrorEvent, ErrorScope, EventV, Severity};
use crate::float::Rank;
use crate::flow::Counts;
use crate::flows::ReadGroupShape;
use crate::group::{group_parallel_safe, splits};
use crate::parts::skipped_file;
use crate::plan::{dash, is_dash, NodeId, Op, PlanGraph, Route, SinkCodec};
use crate::text::{nat_text, owned, u64_text};
use crate::value::{texts, DataType};

verus! {

// -------------------------------------------------------------------- files

/// Whether files are read by a worker each: there are threads and files, nothing
/// forbids it, the run is no preview, finding the files raised nothing fatal, and
/// together they are large enough.
pub fn worth_files(
    threads: usize,
    forbidden: bool,
    preview: bool,
    files: usize,
    fatal: bool,
    bytes: u64,
    min_bytes: u64,
) -> (r: bool)
    ensures
        r == (threads >= 2 && !forbidden && !preview && files > 0 && !fatal && bytes >= min_bytes),
{
    threads >= 2 && !forbidden && !preview && files > 0 && !fatal && bytes >= min_bytes
}

/// No text comes before one that stands earlier.
pub open spec fn in_order(s: Seq<Seq<char>>) -> bool {
    forall|i: int, j: int|
        0 <= i < j < s.len() ==> !(text_order(#[trigger] s[i], #[trigger] s[j]) is Greater)
}

proof fn lemma_order_exchanged(a: Seq<char>, b: Seq<char>)
    ensures
        text_order(a, b) is Less <==> text_order(b, a) is Greater,
        text_order(a, b) is Equal <==> text_order(b, a) is Equal,
    decreases a.len(),
{
    if a.len() > 0 && b.len() > 0 && a[0] == b[0] {
        lemma_order_exchanged(a.drop_first(), b.drop_first());
    }
}

proof fn lemma_order_goes_on(a: Seq<char>, b: Seq<char>, c: Seq<char>)
    requires
        !(text_order(a, b) is Greater),
        !(text_order(b, c) is Greater),
    ensures
        !(text_order(a, c) is Greater),
    decreases a.len(),
{
    if a.len() > 0 && b.len() > 0 && c.len() > 0 {
        if a[0] == b[0] && b[0] == c[0] {
            lemma_order_goes_on(a.drop_first(), b.drop_first(), c.drop_first());
        }
    }
}

/// The place of a text among ordered ones: behind all that do not come after it.
fn place_for(v: &Vec<String>, t: &str) -> (r: usize)
    requires
        in_order(texts(v@)),
    ensures
        r <= v@.len(),
        forall|i: int| 0 <= i < r ==> !(text_order(#[trigger] v@[i]@, t@) is Greater),
        forall|i: int| r <= i < v@.len() ==> !(text_order(t@, #[trigger] v@[i]@) is Greater),
{
    let ghost s = texts(v@);
    for i in 0..v.len()
        invariant
            s == texts(v@),
            in_order(s),
            forall|k: int| 0 <= k < i ==> !(text_order(#[trigger] v@[k]@, t@) is Greater),
    {
        proof {
            lemma_order_exchanged(t@, v@[i as int]@);
        }
        if matches!(rank_texts(t, v[i].as_str()), Rank::Less) {
            proof {
                assert forall|k: int| i <= k < v@.len() implies !(text_order(
                    t@,
                    #[trigger] v@[k]@,
                ) is Greater) by {
                    assert(s[i as int] == v@[i as int]@);
                    assert(s[k] == v@[k]@);
                    if i < k {
                        lemma_order_goes_on(t@, v@[i as int]@, v@[k]@);
                    }
                }
            }
            return i;
        }
    }
    v.len()
}

/// The texts in order, each as often as it was there.
pub fn sort_texts(v: &Vec<String>) -> (r: Vec<String>)
    ensures
        in_order(texts(r@)),
        texts(r@).to_multiset() == texts(v@).to_multiset(),
{
    let ghost all = texts(v@);
    let mut out: Vec<String> = Vec::new();
    assert(texts(out@) =~= all.take(0));
    for i in 0..v.len()
        invariant
            all == texts(v@),
            in_order(texts(out@)),
            texts(out@).to_multiset() == all.take(i as int).to_multiset(),
    {
        let p: usize = place_for(&out, v[i].as_str());
        let ghost was = texts(out@);
        let ghost t = v@[i as int]@;
        let x: String = v[i].clone();
        out.insert(p, x);
        proof {
            let now = texts(out@);
            assert(now =~= was.insert(p as int, t));
            assert forall|a: int, b: int| 0 <= a < b < now.len() implies !(text_order(
                #[trigger] now[a],
                #[trigger] now[b],
            ) is Greater) by {
                let a0 = if a < p {
                    a
                } else {
                    a - 1
                };
                let b0 = if b < p {
                    b
                } else {
                    b - 1
                };
                if a != p {
                    assert(was[a0] == now[a]);
                }
                if b != p {
                    assert(was[b0] == now[b]);
                }
            }
            lemma_insert_multiset(was, p as int, t);
            assert(all.take(i + 1) =~= all.take(i as int).push(all[i as int]));
            vstd::seq_lib::to_multiset_build(all.take(i as int), all[i as int]);
        }
    }
    assert(all.take(v@.len() as int) =~= all);
    out
}

proof fn lemma_insert_multiset(s: Seq<Seq<char>>, p: int, t: Seq<char>)
    requires
        0 <= p <= s.len(),
    ensures
        s.insert(p, t).to_multiset() == s.to_multiset().insert(t),
{
    let a = s.take(p);
    let b = s.skip(p);
    assert(s =~= a + b);
    assert(s.insert(p, t) =~= a.push(t) + b);
    vstd::seq_lib::lemma_multiset_commutative(a, b);
    vstd::seq_lib::lemma_multiset_commutative(a.push(t), b);
    vstd::seq_lib::to_multiset_build(a, t);
    assert((a.push(t) + b).to_multiset() =~= s.to_multiset().insert(t));
}

/// The files that could be opened, by their places, of the first `n`.
pub open spec fn opened(causes: Seq<Option<String>>, n: nat) -> Seq<usize>
    decreases n,
{
    if n == 0 {
        Seq::empty()
    } else {
        let s = opened(causes, (n - 1) as nat);
        if causes[n - 1] is None {
            s.push((n - 1) as usize)
        } else {
            s
        }
    }
}

/// The event of a file that could not be opened.
pub open spec fn skipped(uri: Seq<char>, cause: Seq<char>, label: Seq<char>) -> EventV {
    EventV {
        severity: Severity::Recoverable,
        scope: ErrorScope::Item,
        message: "read: skipped '"@ + uri + "': "@ + cause,
        node: Some(label),
        chunk: None,
    }
}

/// The events of the files that could not be opened, of the first `n`.
pub open spec fn left_out(
    uris: Seq<String>,
    causes: Seq<Option<String>>,
    label: Seq<char>,
    n: nat,
) -> Seq<EventV>
    decreases n,
{
    if n == 0 {
        Seq::empty()
    } else {
        let s = left_out(uris, causes, label, (n - 1) as nat);
        match causes[n - 1] {
            Some(c) => s.push(skipped(uris[n - 1]@, c@, label)),
            None => s,
        }
    }
}

/// Parts the files that could be opened from those that could not, where `causes`
/// says why: a file that fails leaves the others in the run.
pub fn quarantine(uris: &Vec<String>, causes: &Vec<Option<String>>, label: &str) -> (r: (
    Vec<usize>,
    Vec<ErrorEvent>,
))
    requires
        uris@.len() == causes@.len(),
    ensures
        r.0@ == opened(causes@, causes@.len()),
        events(r.1@) == left_out(uris@, causes@, label@, causes@.len()),
{
    let mut open: Vec<usize> = Vec::new();
    let mut out: Vec<ErrorEvent> = Vec::new();
    assert(events(out@) =~= Seq::empty());
    for i in 0..causes.len()
        invariant
            uris@.len() == causes@.len(),
            open@ == opened(causes@, i as nat),
            events(out@) == left_out(uris@, causes@, label@, i as nat),
    {
        match &causes[i] {
            None => {
                open.push(i);
            },
            Some(c) => {
                let e: ErrorEvent = skipped_file(uris[i].as_str(), c.as_str(), label);
                let ghost up = events(out@);
                out.push(e);
                assert(events(out@) =~= up.push(e@));
            },
        }
    }
    (open, out)
}

// ------------------------------------------------------------------- groups

/// The type of the column of that name.
pub open spec fn type_named(fields: Seq<FieldV>, name: Seq<char>) -> Option<DataType> {
    match index_in(fields, name) {
        Some(i) => Some(fields[i].dtype),
        None => None,
    }
}

/// Whether the aggregates of a group over these columns can be taken over parts
/// of the rows and merged, with the same result to the last bit.
pub open spec fn divides(op: Op, fields: Seq<FieldV>) -> bool {
    match op {
        Op::GroupBy { aggs, .. } => forall|i: int|
            0 <= i < aggs@.len() ==> splits(
                (#[trigger] aggs@[i]).func,
                type_named(fields, aggs@[i].col@),
            ),
        _ => false,
    }
}

/// Whether a group over these columns can be taken in parts (see [`divides`]).
pub fn group_divides(op: &Op, fields: &Vec<Field>) -> (r: bool)
    ensures
        r == divides(*op, fields_view(fields@)),
{
    match op {
        Op::GroupBy { aggs, .. } => {
            let mut types: Vec<Option<DataType>> = Vec::new();
            for i in 0..aggs.len()
                invariant
                    types@.len() == i,
                    forall|k: int|
                        0 <= k < i ==> (#[trigger] types@[k]) == type_named(
                            fields_view(fields@),
                            aggs@[k].col@,
                        ),
            {
                let ty: Option<DataType> = match index_of(fields, aggs[i].col.as_str()) {
                    Some(j) => {
                        assert(fields_view(fields@)[j as int] == fields@[j as int]@);
                        Some(fields[j].dtype)
                    },
                    None => None,
                };
                types.push(ty);
            }
            group_parallel_safe(aggs, &types)
        },
        _ => false,
    }
}

// ------------------------------------------------------------------- results

/// Nothing has passed, and all has ended.
pub open spec fn all_ended(n: nat) -> Seq<Counts> {
    Seq::new(n, |i: int| Counts { finished: true, ..Counts::none() })
}

fn ended(n: usize) -> (r: Vec<Counts>)
    ensures
        r@ == all_ended(n as nat),
{
    let mut counts: Vec<Counts> = Vec::new();
    for i in 0..n
        invariant
            counts@ == all_ended(i as nat),
    {
        let mut c: Counts = Counts::zero();
        c.finished = true;
        counts.push(c);
        assert(counts@ =~= all_ended((i + 1) as nat));
    }
    counts
}

fn mode_after(errors: &Vec<ErrorEvent>) -> (r: Mode)
    ensures
        r == (if any_fatal(events(errors@)) {
            Mode::Halted
        } else {
            Mode::Normal
        }),
{
    assert(events(errors@).skip(0) =~= events(errors@));
    if has_fatal(errors, 0) {
        Mode::Halted
    } else {
        Mode::Normal
    }
}

/// What each worker contributed.
pub open spec fn contributions(rows: Seq<u64>) -> Seq<WorkerTelemetry> {
    Seq::new(rows.len(), |i: int| WorkerTelemetry { worker: i as usize, rows_out: rows[i] })
}

fn telemetry(rows: &Vec<u64>) -> (r: Vec<WorkerTelemetry>)
    ensures
        r@ == contributions(rows@),
{
    let mut out: Vec<WorkerTelemetry> = Vec::new();
    for i in 0..rows.len()
        invariant
            out@ == contributions(rows@.take(i as int)),
    {
        out.push(WorkerTelemetry { worker: i, rows_out: rows[i] });
        assert(out@ =~= contributions(rows@.take(i + 1)));
    }
    assert(rows@.take(rows@.len() as int) =~= rows@);
    out
}

/// What passed the nodes of a group over files.
pub open spec fn file_group_counts(n: nat, read: int, group: int, total: u64, rows_out: u64) -> Seq<
    Counts,
> {
    let a = all_ended(n);
    let b = a.update(read, Counts { rows_out: total, ..a[read] });
    b.update(group, Counts { rows_in: total, rows_out, ..b[group] })
}

/// What a group over files reports: `captured` holds the chunks of the last node
/// where no sink took them, and a fatal event halts the run.
pub open spec fn group_ran(
    g: PlanGraph,
    shape: ReadGroupShape,
    total: u64,
    rows_out: u64,
    errors: Seq<EventV>,
    captured: Option<Seq<Batch>>,
    rows: Seq<u64>,
    r: RunResult,
) -> bool {
    let last = last_node(shape.tail@, shape.group);
    &&& r.counts@ == file_group_counts(
        g.nodes@.len(),
        shape.read as int,
        shape.group as int,
        total,
        rows_out,
    )
    &&& events(r.errors@) == errors
    &&& r.final_mode == if any_fatal(errors) {
        Mode::Halted
    } else {
        Mode::Normal
    }
    &&& outputs_view(r.outputs@) == match captured {
        None => Seq::empty(),
        Some(c) => seq![
            OutputV { node_id: last, label: opt_text(g.nodes@[last as int].label), chunks: c },
        ],
    }
    &&& r.workers@ == contributions(rows)
    &&& r.first_row is None
    &&& r.strategy matches Some(s) && s@ == "parallel read group-by (per-file workers)"@
}

/// The result of a group over files: the reports come in the order of the graph,
/// `captured` holds the chunks of the last node where no sink took them, and a
/// fatal event halts the run.
pub fn file_group_result(
    g: &PlanGraph,
    shape: &ReadGroupShape,
    total: u64,
    rows_out: u64,
    errors: Vec<ErrorEvent>,
    captured: Option<Vec<Chunk>>,
    rows: &Vec<u64>,
) -> (r: RunResult)
    requires
        shape.read < g.nodes@.len(),
        shape.group < g.nodes@.len(),
        forall|i: int| 0 <= i < shape.tail@.len() ==> (#[trigger] shape.tail@[i]) < g.nodes@.len(),
    ensures
        r.errors == errors,
        group_ran(
            *g,
            *shape,
            total,
            rows_out,
            events(errors@),
            match captured {
                None => None,
                Some(c) => Some(batches(c@)),
            },
            rows@,
            r,
        ),
{
    let mut counts: Vec<Counts> = ended(g.nodes.len());
    let mut c: Counts = counts[shape.read];
    c.rows_out = total;
    counts.set(shape.read, c);
    let mut c: Counts = counts[shape.group];
    c.rows_in = total;
    c.rows_out = rows_out;
    counts.set(shape.group, c);
    proof {
        assert(counts@ =~= file_group_counts(
            g.nodes@.len(),
            shape.read as int,
            shape.group as int,
            total,
            rows_out,
        ));
    }
    let mut outputs: Vec<Output> = Vec::new();
    assert(outputs_view(outputs@) =~= Seq::empty());
    if let Some(chunks) = captured {
        let last: NodeId = if shape.tail.len() == 0 {
            shape.group
        } else {
            shape.tail[shape.tail.len() - 1]
        };
        let o = Output {
            node_id: last,
            label: dup_opt_text(&g.nodes[last].label),
            chunks,
        };
        outputs.push(o);
        assert(outputs_view(outputs@) =~= seq![o@]);
    }
    let final_mode: Mode = mode_after(&errors);
    RunResult {
        counts,
        errors,
        final_mode,
        outputs,
        workers: telemetry(rows),
        first_row: None,
        strategy: Some(owned("parallel read group-by (per-file workers)")),
    }
}

/// The last node of a flow whose group is followed by a tail.
pub open spec fn last_node(tail: Seq<NodeId>, group: NodeId) -> NodeId {
    if tail.len() == 0 {
        group
    } else {
        tail.last()
    }
}

/// What passed the nodes of a copy of files to a sink.
pub open spec fn file_sink_counts(n: nat, read: int, sink: int, total: u64) -> Seq<Counts> {
    let a = all_ended(n);
    let b = a.update(read, Counts { rows_out: total, ..a[read] });
    b.update(sink, Counts { rows_in: total, ..b[sink] })
}

/// What a copy of files to a sink reports.
pub open spec fn copy_ran(
    g: PlanGraph,
    read: NodeId,
    sink: NodeId,
    total: u64,
    errors: Seq<EventV>,
    r: RunResult,
) -> bool {
    &&& r.counts@ == file_sink_counts(g.nodes@.len(), read as int, sink as int, total)
    &&& events(r.errors@) == errors
    &&& r.final_mode == if any_fatal(errors) {
        Mode::Halted
    } else {
        Mode::Normal
    }
    &&& r.outputs@.len() == 0
    &&& r.workers@.len() == 0
    &&& r.first_row is None
    &&& r.strategy matches Some(s) && s@ == "parallel read sink (per-file segments)"@
}

/// The result of a copy of files to a sink.
pub fn file_sink_result(
    g: &PlanGraph,
    read: NodeId,
    sink: NodeId,
    total: u64,
    errors: Vec<ErrorEvent>,
) -> (r: RunResult)
    requires
        read < g.nodes@.len(),
        sink < g.nodes@.len(),
    ensures
        r.errors == errors,
        copy_ran(*g, read, sink, total, events(errors@), r),
{
    let mut counts: Vec<Counts> = ended(g.nodes.len());
    let mut c: Counts = counts[read];
    c.rows_out = total;
    counts.set(read, c);
    let mut c: Counts = counts[sink];
    c.rows_in = total;
    counts.set(sink, c);
    proof {
        assert(counts@ =~= file_sink_counts(g.nodes@.len(), read as int, sink as int, total));
    }
    let final_mode: Mode = mode_after(&errors);
    RunResult {
        counts,
        errors,
        final_mode,
        outputs: Vec::new(),
        workers: Vec::new(),
        first_row: None,
        strategy: Some(owned("parallel read sink (per-file segments)")),
    }
}

// -------------------------------------------------------------------- parts

/// The file and the separator of a sink whose segments can be put behind one
/// another: one CSV file that is not the standard output.
pub fn csv_target(op: &Op) -> (r: Option<(String, char)>)
    ensures
        match (r, *op) {
            (Some((p, d)), Op::Sink { route: Route::Fixed(path), codec: SinkCodec::Csv { delim } }) => p@
                == path@ && d == delim && !is_dash(path@),
            (None, Op::Sink { route: Route::Fixed(path), codec: SinkCodec::Csv { .. } }) => is_dash(
                path@,
            ),
            (Some(_), _) => false,
            (None, _) => true,
        },
{
    match op {
        Op::Sink { route: Route::Fixed(path), codec: SinkCodec::Csv { delim } } => if dash(
            path.as_str(),
        ) {
            None
        } else {
            Some((path.clone(), *delim))
        },
        _ => None,
    }
}

/// A sink that each worker writes a part of.
#[derive(Debug)]
pub struct PartSink {
    pub node: NodeId,
    pub path: String,
    /// Whether each part starts with a header line.
    pub headers: bool,
    pub delim: char,
}

/// What a [`PartSink`] is.
pub struct PartSinkV {
    pub node: NodeId,
    pub path: Seq<char>,
    pub headers: bool,
    pub delim: char,
}

impl PartSink {
    pub open spec fn view(&self) -> PartSinkV {
        PartSinkV {
            node: self.node,
            path: self.path@,
            headers: self.headers,
            delim: self.delim,
        }
    }
}

/// What sinks are.
pub open spec fn part_sink_views(s: Seq<PartSink>) -> Seq<PartSinkV> {
    Seq::new(s.len(), |i: int| s[i]@)
}

/// The sinks among the first `n` nodes whose parts can be put behind one another:
/// CSV and JSON lines to one file. The brackets of a JSON array rule it out.
pub open spec fn sinks_in_parts(g: PlanGraph, n: nat) -> Seq<PartSinkV>
    decreases n,
{
    if n == 0 {
        Seq::empty()
    } else {
        let s = sinks_in_parts(g, (n - 1) as nat);
        let node = g.nodes@[n - 1];
        match node.op {
            Op::Sink { route: Route::Fixed(path), codec: SinkCodec::Csv { delim } } => s.push(
                PartSinkV { node: node.id, path: path@, headers: true, delim },
            ),
            Op::Sink { route: Route::Fixed(path), codec: SinkCodec::Jsonl } => s.push(
                PartSinkV { node: node.id, path: path@, headers: false, delim: ',' },
            ),
            _ => s,
        }
    }
}

/// The sinks whose parts can be put behind one another (see [`sinks_in_parts`]).
pub fn part_sinks(g: &PlanGraph) -> (r: Vec<PartSink>)
    ensures
        part_sink_views(r@) == sinks_in_parts(*g, g.nodes@.len()),
{
    let mut out: Vec<PartSink> = Vec::new();
    assert(part_sink_views(out@) =~= Seq::empty());
    for i in 0..g.nodes.len()
        invariant
            part_sink_views(out@) == sinks_in_parts(*g, i as nat),
    {
        let ghost up = part_sink_views(out@);
        let id: NodeId = g.nodes[i].id;
        match &g.nodes[i].op {
            Op::Sink { route: Route::Fixed(path), codec: SinkCodec::Csv { delim } } => {
                let x = PartSink { node: id, path: path.clone(), headers: true, delim: *delim };
                out.push(x);
                assert(part_sink_views(out@) =~= up.push(x@));
            },
            Op::Sink { route: Route::Fixed(path), codec: SinkCodec::Jsonl } => {
                let x = PartSink { node: id, path: path.clone(), headers: false, delim: ',' };
                out.push(x);
                assert(part_sink_views(out@) =~= up.push(x@));
            },
            _ => {},
        }
    }
    out
}

/// The file of one part of an output.
pub fn part_path(path: &str, i: usize) -> (r: String)
    ensures
        r@ == path@ + ".rivpart"@ + nat_text(i as nat),
{
    let mut text: String = owned(path);
    text.push_str(".rivpart");
    text.push_str(u64_text(i as u64).as_str());
    text
}

/// The event of an output whose parts could not be put together.
pub fn cannot_assemble(path: &str, cause: &str) -> (r: ErrorEvent)
    ensures
        r@ == (EventV {
            severity: Severity::Critical,
            scope: ErrorScope::Graph,
            message: "cannot assemble '"@ + path@ + "': "@ + cause@,
            node: None,
            chunk: None,
        }),
{
    let mut text: String = message3("cannot assemble '", path, "': ");
    text.push_str(cause);
    ErrorEvent::new(Severity::Critical, ErrorScope::Graph, text)
}

} // verus!
