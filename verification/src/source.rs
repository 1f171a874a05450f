//! Sources: what they report, and how rows that were read leave in chunks.
use vstd::prelude::*;
use std::collections::VecDeque;
use crate::chunk::{batches, fields_view, gathered, lanes, Batch, Chunk, Column, Field, FieldV, Lane, Mode};
use crate::event::{message3, ErrorEvent, ErrorScope, EventV, CtxV, OpCtx, Severity};
use crate::host::{Answers, Ask, Log};
use crate::infer::{type_views, JType};
use crate::jcolumn::{lane_of, readable};
use crate::jsonl::{fields_of, global_plan, next_rows, parse, parsed, rows_from, schema_from, ChunkerV, JsonlChunker};
use crate::plan::{dash, is_dash};
use crate::strings::{ascii_lowered, ends_with, to_ascii_lower};
use crate::text::{nat_text, owned, u64_text};
use crate::value::texts;

verus! {

// ------------------------------------------------------------------ reports

/// Whether text ends so.
pub open spec fn ends_in(s: Seq<char>, e: Seq<char>) -> bool {
    e.len() <= s.len() && s.subrange(s.len() - e.len(), s.len() as int) == e
}

/// Whether a path names a compressed file, by its ending in any case.
pub open spec fn compressed(path: Seq<char>) -> bool {
    let l = ascii_lowered(path);
    !is_dash(path) && (ends_in(l, ".gz"@) || ends_in(l, ".zst"@) || ends_in(l, ".zstd"@))
}

/// Whether a path names a compressed file (see [`compressed`]).
pub fn is_compressed_path(path: &str) -> (r: bool)
    ensures
        r == compressed(path@),
{
    if dash(path) {
        return false;
    }
    let l: String = to_ascii_lower(path);
    ends_with(l.as_str(), ".gz") || ends_with(l.as_str(), ".zst") || ends_with(l.as_str(), ".zstd")
}

/// What a source reports.
pub enum Report<'a> {
    /// Rows of a table that could not be read.
    BadRows(u64),
    /// JSON lines that could not be read.
    BadLines(u64),
    /// Bytes after the last whole record.
    TrailingBytes(u64),
    /// Rows that were passed over without being built.
    Prefiltered(u64),
    /// A file that could not be opened, and why.
    CannotOpen(&'a str, &'a str),
    /// A compressed file that cannot be read.
    Compressed(&'a str),
    /// A document that could not be read, and why.
    Unreadable(&'a str),
    /// A stream without a history.
    NoHistory(&'a str),
}

/// The event of a report at a node.
pub open spec fn reported(r: Report, label: Seq<char>) -> EventV {
    let (severity, scope, message) = match r {
        Report::BadRows(n) => (
            Severity::Recoverable,
            ErrorScope::Item,
            nat_text(n as nat) + " malformed row(s) skipped"@,
        ),
        Report::BadLines(n) => (
            Severity::Recoverable,
            ErrorScope::Item,
            nat_text(n as nat) + " malformed JSONL line(s) skipped"@,
        ),
        Report::TrailingBytes(n) => (
            Severity::Recoverable,
            ErrorScope::Item,
            nat_text(n as nat) + " trailing byte(s) ignored (partial record)"@,
        ),
        Report::Prefiltered(n) => (
            Severity::Info,
            ErrorScope::Item,
            "prefilter skipped "@ + nat_text(n as nat) + " row(s) at the reader"@,
        ),
        Report::CannotOpen(path, cause) => (
            Severity::Fatal,
            ErrorScope::Graph,
            "cannot open '"@ + path@ + "': "@ + cause@,
        ),
        Report::Compressed(path) => (
            Severity::Fatal,
            ErrorScope::Graph,
            "'"@ + path@ + "' is compressed; rebuild with `--features "@ + (if ends_in(
                ascii_lowered(path@),
                ".gz"@,
            ) {
                "gzip"@
            } else {
                "zstd"@
            }) + "` to read it"@,
        ),
        Report::Unreadable(cause) => (Severity::Fatal, ErrorScope::Graph, cause@),
        Report::NoHistory(name) => (
            Severity::Info,
            ErrorScope::Graph,
            "stream replay '"@ + name@ + "' has no recorded history (MVP)"@,
        ),
    };
    EventV {
        severity,
        scope,
        message,
        node: if r is NoHistory {
            None
        } else {
            Some(label)
        },
        chunk: None,
    }
}

fn counted(n: u64, what: &str) -> (r: String)
    ensures
        r@ == nat_text(n as nat) + what@,
{
    let mut text: String = u64_text(n);
    text.push_str(what);
    text
}

/// The event of a report at a node (see [`reported`]).
pub fn report(r: Report, label: &str) -> (e: ErrorEvent)
    ensures
        e@ == reported(r, label@),
{
    match r {
        Report::BadRows(n) => ErrorEvent::new(
            Severity::Recoverable,
            ErrorScope::Item,
            counted(n, " malformed row(s) skipped"),
        ).at_node(owned(label)),
        Report::BadLines(n) => ErrorEvent::new(
            Severity::Recoverable,
            ErrorScope::Item,
            counted(n, " malformed JSONL line(s) skipped"),
        ).at_node(owned(label)),
        Report::TrailingBytes(n) => ErrorEvent::new(
            Severity::Recoverable,
            ErrorScope::Item,
            counted(n, " trailing byte(s) ignored (partial record)"),
        ).at_node(owned(label)),
        Report::Prefiltered(n) => {
            let text: String = message3(
                "prefilter skipped ",
                u64_text(n).as_str(),
                " row(s) at the reader",
            );
            ErrorEvent::new(Severity::Info, ErrorScope::Item, text).at_node(owned(label))
        },
        Report::CannotOpen(path, cause) => {
            let mut text: String = message3("cannot open '", path, "': ");
            text.push_str(cause);
            ErrorEvent::new(Severity::Fatal, ErrorScope::Graph, text).at_node(owned(label))
        },
        Report::Compressed(path) => {
            let mut text: String = message3(
                "'",
                path,
                "' is compressed; rebuild with `--features ",
            );
            let l: String = to_ascii_lower(path);
            text.push_str(
                if ends_with(l.as_str(), ".gz") {
                    "gzip"
                } else {
                    "zstd"
                },
            );
            text.push_str("` to read it");
            ErrorEvent::new(Severity::Fatal, ErrorScope::Graph, text).at_node(owned(label))
        },
        Report::Unreadable(cause) => ErrorEvent::new(
            Severity::Fatal,
            ErrorScope::Graph,
            owned(cause),
        ).at_node(owned(label)),
        Report::NoHistory(name) => ErrorEvent::new(
            Severity::Info,
            ErrorScope::Graph,
            message3("stream replay '", name, "' has no recorded history (MVP)"),
        ),
    }
}

// ------------------------------------------------------------------- chunks

/// The chunk of columns, with that number.
pub open spec fn chunk_made(fields: Seq<FieldV>, columns: Seq<Lane>, id: u64) -> Batch {
    Batch {
        fields,
        columns,
        len: if columns.len() == 0 {
            0
        } else {
            columns[0].cells.len()
        },
        id,
        mode: Mode::Normal,
        source: None,
    }
}

/// The chunk of columns, under a new number.
pub fn new_chunk(fields: Vec<Field>, columns: Vec<Column>, ctx: &mut OpCtx) -> (r: Chunk)
    ensures
        r@ == chunk_made(fields_view(fields@), lanes(columns@), old(ctx)@.next_chunk_id),
        final(ctx)@ == old(ctx)@.advanced(),
{
    let len: usize = if columns.len() == 0 {
        0
    } else {
        assert(lanes(columns@)[0] == columns@[0]@);
        columns[0].cells.len()
    };
    let id: u64 = ctx.fresh_id();
    Chunk { fields, columns, len, id, mode: Mode::Normal, source: None }
}

/// The rows from one up to another.
pub open spec fn run_of(from: int, to: int) -> Seq<usize> {
    Seq::new((to - from) as nat, |i: int| (from + i) as usize)
}

/// The rows from one up to another of a chunk, as a chunk with that number.
pub open spec fn sliced(b: Batch, from: int, to: int, id: u64) -> Batch {
    Batch { id, ..gathered(b, run_of(from, to)) }
}

/// A slice has the cells of its rows, in order: slices that follow one another
/// give back the whole.
pub proof fn lemma_slice_is_run(b: Batch, from: int, to: int, id: u64, c: int)
    requires
        b.wf(),
        0 <= from <= to <= b.len <= usize::MAX,
        0 <= c < b.columns.len(),
    ensures
        sliced(b, from, to, id).columns[c].cells == b.columns[c].cells.subrange(from, to),
{
    assert(b.columns[c].cells.len() == b.len);
    assert(sliced(b, from, to, id).columns[c].cells =~= b.columns[c].cells.subrange(from, to));
}

/// Rows that were read at once and leave in chunks.
#[derive(Debug)]
pub struct Buffered {
    pub all: Chunk,
    pub cursor: usize,
    pub chunk_size: usize,
}

impl Buffered {
    /// A chunk holds at least one row.
    pub open spec fn wf(&self) -> bool {
        self.all@.wf() && self.cursor <= self.all.len && self.chunk_size >= 1
    }

    /// Where the next chunk ends.
    pub open spec fn end(&self) -> int {
        if self.all.len - self.cursor <= self.chunk_size {
            self.all.len as int
        } else {
            self.cursor + self.chunk_size
        }
    }

    /// The next rows; `None` where none is left.
    pub fn pull(&mut self, ctx: &mut OpCtx) -> (r: Option<Chunk>)
        requires
            old(self).wf(),
        ensures
            final(self).wf(),
            final(self).all == old(self).all,
            final(self).chunk_size == old(self).chunk_size,
            final(self).cursor == old(self).end(),
            if old(self).cursor < old(self).all.len {
                r matches Some(c) && c@ == sliced(
                    old(self).all@,
                    old(self).cursor as int,
                    old(self).end(),
                    old(ctx)@.next_chunk_id,
                ) && c@.wf() && final(ctx)@ == old(ctx)@.advanced()
            } else {
                r is None && final(ctx)@ == old(ctx)@
            },
    {
        if self.cursor >= self.all.len {
            return None;
        }
        let start: usize = self.cursor;
        let end: usize = if self.all.len - start <= self.chunk_size {
            self.all.len
        } else {
            start + self.chunk_size
        };
        let mut rows: Vec<usize> = Vec::new();
        for i in start..end
            invariant
                start <= end,
                rows@ == run_of(start as int, i as int),
        {
            rows.push(i);
            assert(rows@ =~= run_of(start as int, i + 1));
        }
        let mut c: Chunk = self.all.gather(&rows);
        c.id = ctx.fresh_id();
        self.cursor = end;
        Some(c)
    }
}

/// Chunks that are there already, given out one after the other.
#[derive(Debug)]
pub struct MemSource {
    chunks: VecDeque<Chunk>,
}

/// A source of chunks that are there already.
pub fn mem_source(chunks: VecDeque<Chunk>) -> (r: MemSource)
    ensures
        r@ == batches(chunks@),
{
    MemSource { chunks }
}

impl MemSource {
    /// The chunks that are left.
    pub closed spec fn view(&self) -> Seq<Batch> {
        batches(self.chunks@)
    }

    /// The next chunk; `None` where none is left.
    pub fn pull(&mut self) -> (r: Option<Chunk>)
        ensures
            if old(self)@.len() == 0 {
                r is None && final(self)@ == old(self)@
            } else {
                r matches Some(c) && c@ == old(self)@[0] && final(self)@ == old(
                    self,
                )@.drop_first()
            },
    {
        let ghost was = self.chunks@;
        let r: Option<Chunk> = self.chunks.pop_front();
        proof {
            if was.len() > 0 {
                assert(batches(was)[0] == was[0]@);
                assert(batches(self.chunks@) =~= batches(was).drop_first());
            }
        }
        r
    }
}

// --------------------------------------------------------------- JSON lines

/// A source of JSON lines, or of an array of objects.
#[derive(Debug)]
pub enum SourceJsonl {
    /// Read line by line.
    Lines(Vec<Field>, JsonlChunker),
    /// Read at once.
    Whole(Buffered),
    /// Nothing could be read.
    Nothing,
}

/// The context after the malformed lines of a source were reported.
pub open spec fn bad_reported(c: CtxV, bad: nat) -> CtxV {
    if bad > 0 {
        c.raised(
            EventV {
                severity: Severity::Recoverable,
                scope: ErrorScope::Item,
                message: nat_text(bad) + " malformed JSONL line(s) skipped"@,
                node: Some(c.label),
                chunk: None,
            },
        )
    } else {
        c
    }
}

/// The context after a document without an object was reported.
pub open spec fn empty_reported(c: CtxV) -> CtxV {
    c.raised(c.event(Severity::Fatal, ErrorScope::Graph, "JSON has no valid objects"@))
}

fn report_bad(bad: usize, ctx: &mut OpCtx)
    ensures
        final(ctx)@ == bad_reported(old(ctx)@, bad as nat),
{
    if bad > 0 {
        let e: ErrorEvent = report(Report::BadLines(bad as u64), ctx.label.as_str());
        ctx.raise(e);
    }
}

impl SourceJsonl {
    /// Every chunk will fit the fields.
    pub open spec fn wf(&self) -> bool {
        match self {
            SourceJsonl::Lines(fields, c) => c.wf() && c@.names.len() == c@.jtypes.len()
                && fields_view(fields@) == fields_of(c@.names, c@.jtypes),
            SourceJsonl::Whole(b) => b.wf(),
            SourceJsonl::Nothing => true,
        }
    }

    /// Loads lines: the malformed ones are reported, and a file without an object
    /// is fatal. A question leaves the context as it was.
    pub fn load_lines(
        lines: Vec<String>,
        chunk_size: usize,
        ctx: &mut OpCtx,
        host: &Answers,
    ) -> (r: Result<SourceJsonl, Ask>)
        ensures
            match (r, rows_from(texts(lines@), 0, host@)) {
                (Ok(s), Ok((rows, bad))) => match global_plan(rows) {
                    Some(p) => s matches SourceJsonl::Lines(fields, c) && s.wf() && c@ == (
                    ChunkerV {
                        names: p.0,
                        jtypes: p.1,
                        chunk_size: if chunk_size == 0 {
                            1
                        } else {
                            chunk_size as nat
                        },
                        lines: texts(lines@),
                        pos: 0,
                        counting: false,
                        bad_rows: bad,
                    }) && final(ctx)@ == bad_reported(old(ctx)@, bad),
                    None => s is Nothing && final(ctx)@ == empty_reported(old(ctx)@),
                },
                (Err(a), Err(q)) => a@ == q && final(ctx)@ == old(ctx)@,
                _ => false,
            },
    {
        match JsonlChunker::open(lines, chunk_size, host) {
            Err(a) => Err(a),
            Ok(Ok((fields, c))) => {
                report_bad(c.bad_rows(), ctx);
                Ok(SourceJsonl::Lines(fields, c))
            },
            Ok(Err(e)) => {
                let e: ErrorEvent = report(Report::Unreadable(e.as_str()), ctx.label.as_str());
                ctx.raise(e);
                Ok(SourceJsonl::Nothing)
            },
        }
    }

    /// Loads a document at once, as an array of objects must be: malformed
    /// elements are reported, and a document without an object is fatal. A
    /// question leaves the context as it was.
    pub fn load_whole(text: &str, chunk_size: usize, ctx: &mut OpCtx, host: &Answers) -> (r: Result<
        SourceJsonl,
        Ask,
    >)
        ensures
            match (r, parsed(text@, host@)) {
                (Ok(s), Ok(Some(d))) => s matches SourceJsonl::Whole(b) && b.wf() && b.all@
                    == chunk_made(d.fields, d.columns, 0) && b.cursor == 0 && b.chunk_size == (
                if chunk_size == 0 {
                    1
                } else {
                    chunk_size
                }) && final(ctx)@ == bad_reported(old(ctx)@, d.bad_rows),
                (Ok(s), Ok(None)) => s is Nothing && final(ctx)@ == empty_reported(old(ctx)@),
                (Err(a), Err(q)) => a@ == q && final(ctx)@ == old(ctx)@,
                _ => false,
            },
    {
        match parse(text, host) {
            Err(a) => Err(a),
            Ok(Err(e)) => {
                let e: ErrorEvent = report(Report::Unreadable(e.as_str()), ctx.label.as_str());
                ctx.raise(e);
                Ok(SourceJsonl::Nothing)
            },
            Ok(Ok(d)) => {
                report_bad(d.bad_rows, ctx);
                let len: usize = if d.columns.len() == 0 {
                    0
                } else {
                    d.columns[0].cells.len()
                };
                let all = Chunk {
                    fields: d.fields,
                    columns: d.columns,
                    len,
                    id: 0,
                    mode: Mode::Normal,
                    source: None,
                };
                proof {
                    assert forall|j: int| 0 <= j < all@.columns.len() implies {
                        &&& (#[trigger] all@.columns[j]).cells.len() == all@.len
                        &&& all@.columns[j].typed()
                        &&& all@.columns[j].dtype == all@.fields[j].dtype
                    } by {
                        assert(all@.columns[j] == d.columns@[j]@);
                        assert(all@.columns[0] == d.columns@[0]@);
                        assert(all@.fields[j] == d.fields@[j]@);
                    }
                    if all@.columns.len() > 0 {
                        assert(all@.columns[0] == d.columns@[0]@);
                    }
                }
                Ok(
                    SourceJsonl::Whole(
                        Buffered {
                            all,
                            cursor: 0,
                            chunk_size: if chunk_size == 0 {
                                1
                            } else {
                                chunk_size
                            },
                        },
                    ),
                )
            },
        }
    }

    /// The next chunk; `None` where no row is left. A question leaves everything
    /// as it was.
    pub fn pull(&mut self, ctx: &mut OpCtx, host: &Answers) -> (r: Result<Option<Chunk>, Ask>)
        requires
            old(self).wf(),
        ensures
            final(self).wf(),
            match *old(self) {
                SourceJsonl::Nothing => r matches Ok(None) && final(ctx)@ == old(ctx)@,
                SourceJsonl::Whole(b) => *final(self) matches SourceJsonl::Whole(n) && n.all
                    == b.all && n.chunk_size == b.chunk_size && n.cursor == b.end() && if b.cursor
                    < b.all.len {
                    r matches Ok(Some(c)) && c@ == sliced(
                        b.all@,
                        b.cursor as int,
                        b.end(),
                        old(ctx)@.next_chunk_id,
                    ) && c@.wf() && final(ctx)@ == old(ctx)@.advanced()
                } else {
                    r matches Ok(None) && final(ctx)@ == old(ctx)@
                },
                SourceJsonl::Lines(fields, c) => *final(self) matches SourceJsonl::Lines(g, n)
                    && fields_view(g@) == fields_view(fields@) && match (r, c@.next(host@)) {
                    (Ok(Some(x)), Ok((Some(s), after))) => x@ == chunk_made(
                        fields_view(fields@),
                        s,
                        old(ctx)@.next_chunk_id,
                    ) && x@.wf() && n@ == after && final(ctx)@ == old(ctx)@.advanced(),
                    (Ok(None), Ok((None, after))) => n@ == after && final(ctx)@ == old(ctx)@,
                    (Err(a), Err(q)) => a@ == q && n@ == c@ && final(ctx)@ == old(ctx)@,
                    _ => false,
                },
            },
    {
        match self {
            SourceJsonl::Nothing => Ok(None),
            SourceJsonl::Whole(b) => Ok(b.pull(ctx)),
            SourceJsonl::Lines(fields, c) => {
                let ghost was = c@;
                match c.next_columns(host) {
                    Err(a) => Err(a),
                    Ok(None) => Ok(None),
                    Ok(Some(columns)) => {
                        let ghost cs = columns@;
                        let x: Chunk = new_chunk(crate::chunk::dup_fields(fields), columns, ctx);
                        proof {
                            lemma_chunk_fits(was, lanes(cs), host@);
                            assert forall|j: int| 0 <= j < x@.columns.len() implies {
                                &&& (#[trigger] x@.columns[j]).cells.len() == x@.len
                                &&& x@.columns[j].typed()
                            } by {
                                assert(x@.columns[j] == cs[j]@);
                                assert(x@.columns[0] == cs[0]@);
                            }
                        }
                        Ok(Some(x))
                    },
                }
            },
        }
    }
}

/// The lines of one range, read into columns that are fixed already.
pub fn jsonl_range_source(
    lines: Vec<String>,
    names: Vec<String>,
    jtypes: Vec<JType>,
    chunk_size: usize,
) -> (r: SourceJsonl)
    requires
        jtypes@.len() == names@.len(),
        forall|j: int| 0 <= j < jtypes@.len() ==> readable((#[trigger] jtypes@[j])@),
    ensures
        r.wf(),
        r matches SourceJsonl::Lines(fields, c) && fields_view(fields@) == fields_of(
            texts(names@),
            type_views(jtypes@),
        ) && c@ == (ChunkerV {
            names: texts(names@),
            jtypes: type_views(jtypes@),
            chunk_size: if chunk_size == 0 {
                1
            } else {
                chunk_size as nat
            },
            lines: texts(lines@),
            pos: 0,
            counting: false,
            bad_rows: 0,
        }),
{
    let fields: Vec<Field> = schema_from(&names, &jtypes);
    SourceJsonl::Lines(fields, JsonlChunker::for_range(lines, names, jtypes, chunk_size))
}

proof fn lemma_chunk_fits(c: ChunkerV, s: Seq<Lane>, log: Log)
    requires
        c.next(log) matches Ok((Some(x), _)) && x == s,
        c.names.len() == c.jtypes.len(),
    ensures
        s.len() == c.names.len(),
        forall|j: int|
            0 <= j < s.len() ==> (#[trigger] s[j]).dtype == fields_of(c.names, c.jtypes)[j].dtype,
{
    let rows = next_rows(c.lines, c.pos as int, c.chunk_size, log)->Ok_0.0;
    crate::jsonl::lemma_columns_shape(rows, c.names, c.jtypes, c.names.len(), log);
    assert forall|j: int| 0 <= j < s.len() implies (#[trigger] s[j]).dtype == fields_of(
        c.names,
        c.jtypes,
    )[j].dtype by {
        assert(s[j].dtype == lane_of(c.jtypes[j]));
    }
}

} // verus!
