//! Running a flow in parts: a worker sends the chunks of its part along the
//! path into a group of its own, or into a segment of the output; the parts are
//! put together in order.
use vstd::prelude::*;
use crate::chunk::{batches, fields_view, Batch, Chunk, Field, FieldV};
use crate::event::{events, message3, CtxV, ErrorEvent, ErrorScope, EventV, OpCtx, Severity};
use crate::flow::{add_to, tally};
use crate::group::{agg_views, group_warned, grouped, merged, merge_asks, mergeable, rows_in, AggSpec, AggV, GroupBy, Groups};
use crate::plan::Op;
use crate::validate::{bare_keys, bare_roots};
use crate::host::{Answers, Ask, Log, Query};
use crate::rows::{known, unknown};
use crate::sink::{csv_header, csv_lines, csv_names, SinkCsv};
use crate::stage::{path_out, path_wf, run_path, Labelled, OnPath, PathV};
use crate::text::{nat_text, owned, u64_text};
use crate::value::texts;

verus! {

// ---------------------------------------------------------------- groups

/// The groups and the context after a chunk.
pub open spec fn fed(g: Groups, keys: Seq<Seq<char>>, aggs: Seq<AggV>, b: Batch, c: CtxV, log: Log) -> Result<
    (Groups, CtxV),
    Query,
> {
    match unknown(b.fields, keys) {
        Some(i) => Ok((g, group_warned(c, keys[i]))),
        None => match rows_in(b, known(b.fields, keys), aggs, b.len, log) {
            Err(q) => Err(q),
            Ok(rows) => Ok((grouped(g, rows, aggs), c)),
        },
    }
}

/// A worker: the path of its chunks, the group at its end, and what it has to
/// report.
pub struct Worker {
    pub path: Vec<Labelled>,
    pub label: String,
    pub group: GroupBy,
    pub events: Vec<ErrorEvent>,
    pub next: u64,
    /// The rows that reached the group.
    pub rows: u64,
}

/// What a [`Worker`] has gathered.
#[verifier::ext_equal]
pub struct WorkerV {
    pub groups: Groups,
    pub events: Seq<EventV>,
    pub next: u64,
    pub rows: u64,
}

/// The worker after a chunk.
pub open spec fn worked(
    path: Seq<Labelled>,
    label: Seq<char>,
    keys: Seq<Seq<char>>,
    aggs: Seq<AggV>,
    w: WorkerV,
    b: Batch,
    log: Log,
) -> Result<WorkerV, Query> {
    match path_out(
        path,
        path.len(),
        PathV { chunk: Some(b), events: Seq::empty(), next: w.next },
        log,
    ) {
        Err(q) => Err(q),
        Ok(p) => match p.chunk {
            None => Ok(WorkerV { events: w.events + p.events, next: p.next, ..w }),
            Some(x) => match fed(
                w.groups,
                keys,
                aggs,
                x,
                CtxV { label, errors: p.events, next_chunk_id: p.next },
                log,
            ) {
                Err(q) => Err(q),
                Ok((groups, c)) => Ok(
                    WorkerV {
                        groups,
                        events: w.events + c.errors,
                        next: c.next_chunk_id,
                        rows: tally(w.rows, x.len),
                    },
                ),
            },
        },
    }
}

/// The worker after all chunks of its part.
pub open spec fn worked_all(
    path: Seq<Labelled>,
    label: Seq<char>,
    keys: Seq<Seq<char>>,
    aggs: Seq<AggV>,
    w: WorkerV,
    bs: Seq<Batch>,
    log: Log,
) -> Result<WorkerV, Query>
    decreases bs.len(),
{
    if bs.len() == 0 {
        Ok(w)
    } else {
        match worked_all(path, label, keys, aggs, w, bs.drop_last(), log) {
            Err(q) => Err(q),
            Ok(x) => worked(path, label, keys, aggs, x, bs.last(), log),
        }
    }
}

/// A worker may be fed its part in any number of runs: what it has gathered in
/// the end is the same.
pub proof fn lemma_fed_in_runs(
    path: Seq<Labelled>,
    label: Seq<char>,
    keys: Seq<Seq<char>>,
    aggs: Seq<AggV>,
    w: WorkerV,
    x: Seq<Batch>,
    y: Seq<Batch>,
    log: Log,
)
    ensures
        worked_all(path, label, keys, aggs, w, x + y, log) == match worked_all(
            path,
            label,
            keys,
            aggs,
            w,
            x,
            log,
        ) {
            Err(q) => Err(q),
            Ok(m) => worked_all(path, label, keys, aggs, m, y, log),
        },
    decreases y.len(),
{
    if y.len() == 0 {
        assert(x + y =~= x);
    } else {
        assert((x + y).drop_last() =~= x + y.drop_last());
        lemma_fed_in_runs(path, label, keys, aggs, w, x, y.drop_last(), log);
    }
}

/// The event of rows that could not be read.
pub open spec fn malformed(uri: Seq<char>, bad: u64, label: Seq<char>) -> EventV {
    EventV {
        severity: Severity::Recoverable,
        scope: ErrorScope::Item,
        message: "read '"@ + uri + "': "@ + nat_text(bad as nat) + " malformed row(s) skipped"@,
        node: Some(label),
        chunk: None,
    }
}

/// The event of rows that could not be read.
pub fn malformed_rows(uri: &str, bad: u64, label: &str) -> (r: ErrorEvent)
    ensures
        r@ == malformed(uri@, bad, label@),
{
    let mut text: String = message3("read '", uri, "': ");
    text.push_str(u64_text(bad).as_str());
    text.push_str(" malformed row(s) skipped");
    ErrorEvent::new(Severity::Recoverable, ErrorScope::Item, text).at_node(owned(label))
}

/// The event of a file that could not be opened.
pub fn skipped_file(uri: &str, cause: &str, label: &str) -> (r: ErrorEvent)
    ensures
        r@ == (EventV {
            severity: Severity::Recoverable,
            scope: ErrorScope::Item,
            message: "read: skipped '"@ + uri@ + "': "@ + cause@,
            node: Some(label@),
            chunk: None,
        }),
{
    let mut text: String = message3("read: skipped '", uri, "': ");
    text.push_str(cause);
    ErrorEvent::new(Severity::Recoverable, ErrorScope::Item, text).at_node(owned(label))
}

impl Worker {
    /// What the worker has gathered.
    pub open spec fn view(&self) -> WorkerV {
        WorkerV {
            groups: self.group.groups(),
            events: events(self.events@),
            next: self.next,
            rows: self.rows,
        }
    }

    /// A path of well formed steps, and a well formed group.
    pub open spec fn wf(&self) -> bool {
        path_wf(self.path@) && self.group.wf()
    }

    /// A worker that has gathered nothing.
    pub fn new(path: Vec<Labelled>, label: String, group: GroupBy) -> (r: Worker)
        requires
            path_wf(path@),
            group.wf(),
        ensures
            r.wf(),
            r.path == path,
            r.label == label,
            r.group == group,
            r@.events.len() == 0,
            r@.next == 0,
            r@.rows == 0,
    {
        Worker { path, label, group, events: Vec::new(), next: 0, rows: 0 }
    }

    /// Sends a chunk along the path into the group (see [`worked`]). A question
    /// leaves everything as it was.
    pub fn feed(&mut self, chunk: Chunk, host: &Answers) -> (r: Result<(), Ask>)
        requires
            old(self).wf(),
            chunk@.wf(),
        ensures
            final(self).wf(),
            final(self).path == old(self).path,
            final(self).label == old(self).label,
            final(self).group.keys == old(self).group.keys,
            final(self).group.aggs == old(self).group.aggs,
            final(self).group.emitted == old(self).group.emitted,
            match (
                r,
                worked(
                    old(self).path@,
                    old(self).label@,
                    texts(old(self).group.keys@),
                    old(self).group.aggs_view(),
                    old(self)@,
                    chunk@,
                    host@,
                ),
            ) {
                (Ok(_), Ok(w)) => final(self)@ == w,
                (Err(a), Err(q)) => a@ == q && final(self)@ == old(self)@,
                _ => false,
            },
    {
        let ghost was = self@;
        let p: OnPath = match run_path(&self.path, chunk, self.next, host) {
            Err(a) => {
                return Err(a);
            },
            Ok(p) => p,
        };
        let ghost pv = p@;
        match p.chunk {
            None => {
                let mut more: Vec<ErrorEvent> = p.events;
                let ghost a = self.events@;
                let ghost b = more@;
                self.events.append(&mut more);
                self.next = p.next;
                assert(self.events@ =~= a + b);
                assert(events(self.events@) =~= events(a) + events(b));
                Ok(())
            },
            Some(x) => {
                let mut ctx = OpCtx {
                    label: self.label.clone(),
                    errors: p.events,
                    next_chunk_id: p.next,
                };
                assert(ctx@ == (CtxV {
                    label: self.label@,
                    errors: pv.events,
                    next_chunk_id: pv.next,
                }));
                match self.group.process(&x, &mut ctx, host) {
                    Err(a) => Err(a),
                    Ok(_) => {
                        let mut more: Vec<ErrorEvent> = ctx.errors;
                        let ghost a = self.events@;
                        let ghost b = more@;
                        self.events.append(&mut more);
                        self.next = ctx.next_chunk_id;
                        self.rows = add_to(self.rows, x.len);
                        assert(self.events@ =~= a + b);
                        assert(events(self.events@) =~= events(a) + events(b));
                        Ok(())
                    },
                }
            },
        }
    }

    /// Puts an event at the end of the report.
    pub fn report(&mut self, e: ErrorEvent)
        requires
            old(self).wf(),
        ensures
            final(self).wf(),
            final(self).path == old(self).path,
            final(self).label == old(self).label,
            final(self).group == old(self).group,
            final(self)@ == (WorkerV { events: old(self)@.events.push(e@), ..old(self)@ }),
    {
        let ghost a = events(self.events@);
        self.events.push(e);
        assert(events(self.events@) =~= a.push(e@));
    }

    /// Puts the worker of the next part behind this one: the groups merge, the
    /// reports follow one another, the rows add up. A question leaves
    /// everything as it was.
    pub fn join(&mut self, later: &Worker, host: &Answers) -> (r: Result<(), Ask>)
        requires
            old(self).wf(),
            later.wf(),
            old(self).group.like(&later.group),
        ensures
            final(self).wf(),
            final(self).path == old(self).path,
            final(self).label == old(self).label,
            final(self).group.keys == old(self).group.keys,
            final(self).group.aggs == old(self).group.aggs,
            final(self).group.emitted == old(self).group.emitted,
            match r {
                Ok(_) => final(self)@ == (WorkerV {
                    groups: merged(old(self)@.groups, later@.groups, host@),
                    events: old(self)@.events + later@.events,
                    next: old(self)@.next,
                    rows: tally(old(self)@.rows, later@.rows as nat),
                }) && forall|k: Seq<char>|
                    #[trigger] old(self)@.groups.dom().contains(k) && later@.groups.dom().contains(
                        k,
                    ) ==> mergeable(old(self)@.groups[k], later@.groups[k], host@),
                Err(a) => *final(self) == *old(self) && exists|k: Seq<char>|
                    #[trigger] old(self)@.groups.dom().contains(k) && later@.groups.dom().contains(
                        k,
                    ) && merge_asks(old(self)@.groups[k], later@.groups[k], a@, host@),
            },
    {
        match self.group.merge_from(&later.group, host) {
            Err(a) => {
                proof {
                    let g = old(self).group.groups();
                    let k = choose|k: Seq<char>|
                        #[trigger] g.dom().contains(k) && later.group.groups().dom().contains(k)
                            && merge_asks(g[k], later.group.groups()[k], a@, host@);
                    assert(old(self)@.groups.dom().contains(k));
                    assert(*self == *old(self));
                }
                Err(a)
            },
            Ok(_) => {
                let ghost before = events(self.events@);
                let ghost more = events(later.events@);
                for i in 0..later.events.len()
                    invariant
                        more == events(later.events@),
                        events(self.events@) == before + more.take(i as int),
                        self.path == old(self).path,
                        self.label == old(self).label,
                        self.group.wf(),
                        self.group.keys == old(self).group.keys,
                        self.group.aggs == old(self).group.aggs,
                        self.group.emitted == old(self).group.emitted,
                        self.group.groups() == merged(
                            old(self)@.groups,
                            later@.groups,
                            host@,
                        ),
                        self.next == old(self).next,
                        self.rows == old(self).rows,
                {
                    let ghost up = events(self.events@);
                    self.events.push(later.events[i].dup());
                    proof {
                        assert(more[i as int] == later.events@[i as int]@);
                        assert(more.take(i + 1) =~= more.take(i as int).push(more[i as int]));
                        assert(events(self.events@) =~= up.push(more[i as int]));
                        assert(up.push(more[i as int]) =~= before + more.take(i + 1));
                    }
                }
                assert(more.take(later.events@.len() as int) =~= more);
                self.rows = self.rows.saturating_add(later.rows);
                proof {
                    assert(self@.events =~= old(self)@.events + later@.events);
                    assert(self@.rows == tally(old(self)@.rows, later@.rows as nat));
                    assert(self@.groups == merged(old(self)@.groups, later@.groups, host@));
                    assert forall|k: Seq<char>|
                        #[trigger] old(self)@.groups.dom().contains(k)
                            && later@.groups.dom().contains(k) implies mergeable(
                        old(self)@.groups[k],
                        later@.groups[k],
                        host@,
                    ) by {
                        assert(old(self).group.groups().dom().contains(k));
                    }
                }
                Ok(())
            },
        }
    }
}

// -------------------------------------------------------------- segments

/// The lines of chunks, one after the other.
pub open spec fn bodies(bs: Seq<Batch>, sep: char, log: Log) -> Result<Seq<char>, Query>
    decreases bs.len(),
{
    if bs.len() == 0 {
        Ok(Seq::empty())
    } else {
        match bodies(bs.drop_last(), sep, log) {
            Err(q) => Err(q),
            Ok(s) => match csv_lines(bs.last(), bs.last().len, sep, log) {
                Err(q) => Err(q),
                Ok(t) => Ok(s + t),
            },
        }
    }
}

/// The header line that chunks call for: that of the first one.
pub open spec fn header_of(bs: Seq<Batch>, sep: char) -> Option<Seq<char>> {
    if bs.len() == 0 {
        None
    } else {
        Some(csv_names(bs[0], bs[0].fields.len(), sep).push('\n'))
    }
}

/// The text of a whole CSV file: the header of the first chunk, and the lines
/// of all.
pub open spec fn csv_file(bs: Seq<Batch>, sep: char, log: Log) -> Result<Seq<char>, Query> {
    match (header_of(bs, sep), bodies(bs, sep, log)) {
        (_, Err(q)) => Err(q),
        (None, Ok(s)) => Ok(s),
        (Some(h), Ok(s)) => Ok(h + s),
    }
}

/// The rows of one part as CSV lines, with the header that they call for kept
/// apart.
pub struct Segment {
    pub header: Option<String>,
    pub body: String,
    pub rows: u64,
}

/// What a [`Segment`] is.
#[verifier::ext_equal]
pub struct SegmentV {
    pub header: Option<Seq<char>>,
    pub body: Seq<char>,
    pub rows: u64,
}

/// How many rows the chunks have, up to the largest count.
pub open spec fn rows_counted(bs: Seq<Batch>) -> u64
    decreases bs.len(),
{
    if bs.len() == 0 {
        0
    } else {
        tally(rows_counted(bs.drop_last()), bs.last().len)
    }
}

/// The segment of some chunks.
pub open spec fn segment_of(bs: Seq<Batch>, sep: char, log: Log) -> Result<SegmentV, Query> {
    match bodies(bs, sep, log) {
        Err(q) => Err(q),
        Ok(body) => Ok(SegmentV { header: header_of(bs, sep), body, rows: rows_counted(bs) }),
    }
}

impl Segment {
    /// The segment.
    pub open spec fn view(&self) -> SegmentV {
        SegmentV {
            header: crate::chunk::opt_text(self.header),
            body: self.body@,
            rows: self.rows,
        }
    }

    /// The segment of no chunk.
    pub fn new() -> (r: Segment)
        ensures
            r@ == (SegmentV { header: None, body: Seq::empty(), rows: 0 }),
    {
        let r = Segment { header: None, body: String::new(), rows: 0 };
        assert(r@.body =~= Seq::empty());
        r
    }

    /// The segment with a further chunk. A question leaves it as it was.
    pub fn put(&mut self, chunk: &Chunk, sep: char, host: &Answers) -> (r: Result<(), Ask>)
        requires
            chunk@.wf(),
        ensures
            match (r, csv_lines(chunk@, chunk@.len, sep, host@)) {
                (Ok(_), Ok(t)) => final(self)@ == (SegmentV {
                    header: if old(self)@.header is Some {
                        old(self)@.header
                    } else {
                        header_of(seq![chunk@], sep)
                    },
                    body: old(self)@.body + t,
                    rows: tally(old(self)@.rows, chunk@.len),
                }),
                (Err(a), Err(q)) => a@ == q && final(self)@ == old(self)@,
                _ => false,
            },
    {
        let sink = SinkCsv { delim: sep, wrote_header: true, failed: false };
        match sink.chunk_text(chunk, host) {
            Err(a) => Err(a),
            Ok(t) => {
                if self.header.is_none() {
                    let mut h: String = csv_header(chunk, sep);
                    h.push('\n');
                    self.header = Some(h);
                }
                self.body.push_str(t.as_str());
                self.rows = add_to(self.rows, chunk.len);
                Ok(())
            },
        }
    }
}

/// Putting chunks one after the other makes the segment of all of them.
pub proof fn lemma_segment_grows(bs: Seq<Batch>, b: Batch, sep: char, log: Log)
    ensures
        segment_of(bs.push(b), sep, log) == match (
            segment_of(bs, sep, log),
            csv_lines(b, b.len, sep, log),
        ) {
            (Err(q), _) => Err(q),
            (Ok(_), Err(q)) => Err(q),
            (Ok(s), Ok(t)) => Ok(
                SegmentV {
                    header: if s.header is Some {
                        s.header
                    } else {
                        header_of(seq![b], sep)
                    },
                    body: s.body + t,
                    rows: tally(s.rows, b.len),
                },
            ),
        },
{
    assert(bs.push(b).drop_last() =~= bs);
    if bs.len() > 0 {
        assert(bs.push(b)[0] == bs[0]);
    } else {
        assert(bs.push(b) =~= seq![b]);
    }
}

/// The file made of segments: the first header there is, and the bodies in
/// order.
pub open spec fn assembled(s: Seq<SegmentV>) -> Seq<char>
    recommends
        s.len() > 0,
{
    match first_header(s) {
        Some(h) => h + all_bodies(s),
        None => all_bodies(s),
    }
}

/// The header of the first segment that has one.
pub open spec fn first_header(s: Seq<SegmentV>) -> Option<Seq<char>>
    decreases s.len(),
{
    if s.len() == 0 {
        None
    } else {
        match first_header(s.drop_last()) {
            Some(h) => Some(h),
            None => s.last().header,
        }
    }
}

/// The bodies of segments, one after the other.
pub open spec fn all_bodies(s: Seq<SegmentV>) -> Seq<char>
    decreases s.len(),
{
    if s.len() == 0 {
        Seq::empty()
    } else {
        all_bodies(s.drop_last()) + s.last().body
    }
}

/// The views of a list of segments.
pub open spec fn segment_views(s: Seq<Segment>) -> Seq<SegmentV> {
    Seq::new(s.len(), |i: int| s[i]@)
}

/// The header and the bodies of segments, in order.
pub fn assemble(segments: &Vec<Segment>) -> (r: String)
    ensures
        r@ == assembled(segment_views(segments@)),
{
    let ghost s = segment_views(segments@);
    let mut header: Option<String> = None;
    let mut body: String = String::new();
    assert(body@ =~= Seq::empty());
    for i in 0..segments.len()
        invariant
            s == segment_views(segments@),
            crate::chunk::opt_text(header) == first_header(s.take(i as int)),
            body@ == all_bodies(s.take(i as int)),
    {
        proof {
            assert(s.take(i + 1).drop_last() =~= s.take(i as int));
            assert(s[i as int] == segments@[i as int]@);
        }
        if header.is_none() {
            header = crate::chunk::dup_opt_text(&segments[i].header);
        }
        body.push_str(segments[i].body.as_str());
    }
    assert(s.take(segments@.len() as int) =~= s);
    match header {
        Some(mut h) => {
            h.push_str(body.as_str());
            h
        },
        None => body,
    }
}

/// The lines of chunks and then of more chunks.
pub proof fn lemma_bodies_append(x: Seq<Batch>, y: Seq<Batch>, sep: char, log: Log)
    ensures
        bodies(x + y, sep, log) == match (bodies(x, sep, log), bodies(y, sep, log)) {
            (Err(q), _) => Err(q),
            (Ok(_), Err(q)) => Err(q),
            (Ok(a), Ok(b)) => Ok(a + b),
        },
    decreases y.len(),
{
    if y.len() == 0 {
        assert(x + y =~= x);
        if bodies(x, sep, log) is Ok {
            assert(bodies(x, sep, log)->Ok_0 + Seq::<char>::empty() =~= bodies(x, sep, log)->Ok_0);
        }
    } else {
        assert((x + y).drop_last() =~= x + y.drop_last());
        lemma_bodies_append(x, y.drop_last(), sep, log);
        if let (Ok(a), Ok(b), Ok(t)) = (
            bodies(x, sep, log),
            bodies(y.drop_last(), sep, log),
            csv_lines(y.last(), y.last().len, sep, log),
        ) {
            assert((a + b) + t =~= a + (b + t));
        }
    }
}

/// All chunks of the parts, one part after the other.
pub open spec fn all_chunks(parts: Seq<Seq<Batch>>) -> Seq<Batch>
    decreases parts.len(),
{
    if parts.len() == 0 {
        Seq::empty()
    } else {
        all_chunks(parts.drop_last()) + parts.last()
    }
}

/// A file assembled from the segments of the parts is, character for character,
/// the file that one pass over all chunks writes.
pub proof fn lemma_segments_are_serial(parts: Seq<Seq<Batch>>, sep: char, log: Log)
    requires
        forall|i: int| 0 <= i < parts.len() ==> segment_of(#[trigger] parts[i], sep, log) is Ok,
    ensures
        csv_file(all_chunks(parts), sep, log) == Ok::<Seq<char>, Query>(
            assembled(
                Seq::new(parts.len(), |i: int| segment_of(parts[i], sep, log)->Ok_0),
            ),
        ),
{
    lemma_segments_so_far(parts, sep, log);
}

proof fn lemma_segments_so_far(parts: Seq<Seq<Batch>>, sep: char, log: Log)
    requires
        forall|i: int| 0 <= i < parts.len() ==> segment_of(#[trigger] parts[i], sep, log) is Ok,
    ensures
        ({
            let s = Seq::new(parts.len(), |i: int| segment_of(parts[i], sep, log)->Ok_0);
            &&& bodies(all_chunks(parts), sep, log) == Ok::<Seq<char>, Query>(all_bodies(s))
            &&& header_of(all_chunks(parts), sep) == first_header(s)
        }),
    decreases parts.len(),
{
    let s = Seq::new(parts.len(), |i: int| segment_of(parts[i], sep, log)->Ok_0);
    if parts.len() > 0 {
        let less = parts.drop_last();
        assert forall|i: int| 0 <= i < less.len() implies segment_of(
            #[trigger] less[i],
            sep,
            log,
        ) is Ok by {
            assert(segment_of(parts[i], sep, log) is Ok);
        }
        lemma_segments_so_far(less, sep, log);
        assert(s.drop_last() =~= Seq::new(
            less.len(),
            |i: int| segment_of(less[i], sep, log)->Ok_0,
        ));
        lemma_bodies_append(all_chunks(less), parts.last(), sep, log);
        assert(segment_of(parts[parts.len() - 1], sep, log) is Ok);
        let x = all_chunks(less);
        if x.len() > 0 {
            assert((x + parts.last())[0] == x[0]);
        } else {
            assert(x + parts.last() =~= parts.last());
        }
    }
}

// ------------------------------------------------------------------- groups

/// The group of an operator, with nothing in it yet; `None` where the operator is
/// no group. The keys are the roots of the paths that name plain columns.
pub fn new_group(op: &Op) -> (r: Option<GroupBy>)
    ensures
        match (r, *op) {
            (Some(g), Op::GroupBy { keys, aggs }) => {
                &&& texts(g.keys@) == bare_roots(keys@)
                &&& g.aggs_view() == agg_views(aggs@)
                &&& g.wf()
                &&& g.groups() == Groups::empty()
                &&& !g.emitted
            },
            (None, Op::GroupBy { .. }) => false,
            (None, _) => true,
            _ => false,
        },
{
    match op {
        Op::GroupBy { keys, aggs } => {
            let mut copy: Vec<AggSpec> = Vec::new();
            for i in 0..aggs.len()
                invariant
                    copy@.len() == i,
                    forall|k: int| 0 <= k < i ==> (#[trigger] copy@[k])@ == aggs@[k]@,
            {
                copy.push(aggs[i].dup());
            }
            assert(agg_views(copy@) =~= agg_views(aggs@));
            Some(GroupBy::new(bare_keys(keys), copy))
        },
        _ => None,
    }
}

/// The fields of the first chunk from `i` on that comes out of a path; `None`
/// where none does.
pub open spec fn sampled(path: Seq<Labelled>, bs: Seq<Batch>, i: int, next: u64, log: Log) -> Result<
    Option<Seq<FieldV>>,
    Query,
>
    decreases bs.len() - i,
{
    if i < 0 || i >= bs.len() {
        Ok(None)
    } else {
        match path_out(
            path,
            path.len(),
            PathV { chunk: Some(bs[i]), events: Seq::empty(), next },
            log,
        ) {
            Err(q) => Err(q),
            Ok(p) => match p.chunk {
                Some(b) => Ok(Some(b.fields)),
                None => sampled(path, bs, i + 1, p.next, log),
            },
        }
    }
}

/// The fields that the group at the end of a path will see: those of the first
/// chunk that comes out of it (see [`sampled`]).
pub fn sample_group_input_schema(path: &Vec<Labelled>, chunks: &Vec<Chunk>, host: &Answers) -> (r: Result<
    Option<Vec<Field>>,
    Ask,
>)
    requires
        path_wf(path@),
        forall|i: int| 0 <= i < chunks@.len() ==> (#[trigger] chunks@[i])@.wf(),
    ensures
        match (r, sampled(path@, batches(chunks@), 0, 0, host@)) {
            (Ok(Some(f)), Ok(Some(v))) => fields_view(f@) == v,
            (Ok(None), Ok(None)) => true,
            (Err(a), Err(q)) => a@ == q,
            _ => false,
        },
{
    let ghost bs = batches(chunks@);
    let mut next: u64 = 0;
    for i in 0..chunks.len()
        invariant
            path_wf(path@),
            forall|i: int| 0 <= i < chunks@.len() ==> (#[trigger] chunks@[i])@.wf(),
            bs == batches(chunks@),
            sampled(path@, bs, 0, 0, host@) == sampled(path@, bs, i as int, next, host@),
    {
        assert(bs[i as int] == chunks@[i as int]@);
        match run_path(path, chunks[i].dup(), next, host) {
            Err(a) => {
                return Err(a);
            },
            Ok(p) => {
                if let Some(c) = p.chunk {
                    return Ok(Some(c.fields));
                }
                next = p.next;
            },
        }
    }
    Ok(None)
}

} // verus!
