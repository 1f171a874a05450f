//! A one-pass summary of a stream: per column its type, the number of rows and,
//! for numbers, the least, the greatest and the mean.
use vstd::prelude::*;
use crate::agg::{Acc, AggAcc, AggFunc, Moments};
use crate::cast::agree_text;
use crate::chunk::{fields_view, flat_field, lanes, Batch, Chunk, Column, Field, Lane, Mode};
use crate::event::OpCtx;
use crate::fill::{is_plain_integer, plain_integer};
use crate::float::{truncate, truncated, F64};
use crate::host::{ask1, get_text, text_answer, Answers, Ask, HostOp, Log, Query};
use crate::text::{i64_text, int_text, owned};
use crate::value::{data, DataType, Datum, Value};

verus! {

/// A number as the summary shows it: an integer without a point, any other
/// number in its shortest form.
pub open spec fn shown(x: F64, log: Log) -> Result<Seq<char>, Query> {
    if plain_integer(x) {
        Ok(
            if x.negative() && truncated(x) == 0 {
                seq!['-', '0']
            } else {
                int_text(truncated(x))
            },
        )
    } else {
        text_answer(log, Query { op: HostOp::FloatText, args: seq![Datum::F64(x)] })
    }
}

/// A number as the summary shows it (see [`shown`]).
pub fn show(x: F64, host: &Answers) -> (r: Result<String, Ask>)
    ensures
        agree_text(r, shown(x, host@)),
{
    if is_plain_integer(x) {
        let n: i64 = truncate(x);
        if n == 0 && x.bits >= 0x8000_0000_0000_0000 {
            proof {
                reveal_strlit("-0");
                assert("-0"@ =~= seq!['-', '0']);
            }
            return Ok(owned("-0"));
        }
        Ok(i64_text(n))
    } else {
        get_text(host, ask1(HostOp::FloatText, Value::F64(x)))
    }
}

/// What has been seen of one column.
pub struct Summary {
    pub name: String,
    pub dtype: DataType,
    pub acc: AggAcc,
}

/// What a [`Summary`] is.
pub struct SummaryV {
    pub name: Seq<char>,
    pub dtype: DataType,
    pub acc: Acc,
}

impl Summary {
    /// What has been seen.
    pub open spec fn view(&self) -> SummaryV {
        SummaryV { name: self.name@, dtype: self.dtype, acc: self.acc@ }
    }
}

/// The views of a list of summaries.
pub open spec fn summaries(s: Seq<Summary>) -> Seq<SummaryV> {
    Seq::new(s.len(), |i: int| s[i]@)
}

/// The summaries before the first row: one for each named column.
pub open spec fn fresh(b: Batch) -> Seq<SummaryV> {
    Seq::new(
        b.fields.len(),
        |i: int|
            SummaryV {
                name: b.fields[i].name,
                dtype: b.columns[i].dtype,
                acc: Acc::empty(AggFunc::Avg),
            },
    )
}

/// The aggregate of the first `n` cells of a column, after what it held. Only
/// integers and doubles count.
pub open spec fn noted(a: Acc, c: Lane, n: nat) -> Acc
    decreases n,
{
    if n == 0 {
        a
    } else {
        let up = noted(a, c, (n - 1) as nat);
        match c.cells[n - 1] {
            Datum::I64(_) => up.with(c.cells[n - 1], Seq::empty()),
            Datum::F64(_) => up.with(c.cells[n - 1], Seq::empty()),
            _ => up,
        }
    }
}

/// The summaries with a chunk's rows.
pub open spec fn with_rows(s: Seq<SummaryV>, b: Batch) -> Seq<SummaryV> {
    Seq::new(
        s.len(),
        |i: int|
            if i < b.columns.len() {
                SummaryV { acc: noted(s[i].acc, b.columns[i], b.columns[i].cells.len()), ..s[i] }
            } else {
                s[i]
            },
    )
}

/// A count of rows that stays at the largest there is.
pub open spec fn more_rows(a: int, b: int) -> int {
    if a + b > i64::MAX {
        i64::MAX as int
    } else {
        a + b
    }
}

/// The row of one column in the summary: least, greatest and mean, as texts.
pub open spec fn extremes(s: SummaryV, log: Log) -> Result<(Seq<char>, Seq<char>, Seq<char>), Query> {
    if s.acc.n > 0 {
        match s.acc.settled(log) {
            Err(q) => Err(q),
            Ok(m) => match shown(m.min, log) {
                Err(q) => Err(q),
                Ok(lo) => match shown(m.max, log) {
                    Err(q) => Err(q),
                    Ok(hi) => match s.acc.number(log) {
                        Err(q) => Err(q),
                        Ok(x) => match shown(x, log) {
                            Err(q) => Err(q),
                            Ok(mean) => Ok((lo, hi, mean)),
                        },
                    },
                },
            },
        }
    } else {
        Ok((Seq::empty(), Seq::empty(), Seq::empty()))
    }
}

/// The question for a type's name.
pub open spec fn type_question(ty: DataType) -> Query {
    Query { op: HostOp::TypeName { ty }, args: Seq::empty() }
}

/// One row of the summary.
pub struct LineV {
    pub name: Seq<char>,
    pub dtype: Seq<char>,
    pub min: Seq<char>,
    pub max: Seq<char>,
    pub mean: Seq<char>,
}

/// One row of the summary, as strings.
pub struct Line {
    pub name: String,
    pub dtype: String,
    pub min: String,
    pub max: String,
    pub mean: String,
}

impl Line {
    /// The row.
    pub open spec fn view(&self) -> LineV {
        LineV {
            name: self.name@,
            dtype: self.dtype@,
            min: self.min@,
            max: self.max@,
            mean: self.mean@,
        }
    }
}

/// One column's row of the summary.
pub open spec fn line(s: SummaryV, log: Log) -> Result<LineV, Query> {
    match text_answer(log, type_question(s.dtype)) {
        Err(q) => Err(q),
        Ok(dtype) => match extremes(s, log) {
            Err(q) => Err(q),
            Ok((min, max, mean)) => Ok(LineV { name: s.name, dtype, min, max, mean }),
        },
    }
}

/// The first `n` rows of the summary.
pub open spec fn lines(s: Seq<SummaryV>, n: nat, log: Log) -> Result<Seq<LineV>, Query>
    decreases n,
{
    if n == 0 {
        Ok(Seq::empty())
    } else {
        match lines(s, (n - 1) as nat, log) {
            Err(q) => Err(q),
            Ok(v) => match line(s[n - 1], log) {
                Err(q) => Err(q),
                Ok(l) => Ok(v.push(l)),
            },
        }
    }
}

proof fn lemma_lines_stop(s: Seq<SummaryV>, n: nat, m: nat, log: Log)
    requires
        lines(s, n, log) is Err,
        n <= m,
    ensures
        lines(s, m, log) == lines(s, n, log),
    decreases m,
{
    if n < m {
        lemma_lines_stop(s, n, (m - 1) as nat, log);
    }
}

/// A text column of the summary.
pub open spec fn text_lane(l: Seq<LineV>, f: spec_fn(LineV) -> Seq<char>) -> Lane {
    Lane { dtype: DataType::Str, cells: Seq::new(l.len(), |i: int| Datum::Str(f(l[i]))) }
}

/// The summary as a chunk.
pub open spec fn summary_chunk(l: Seq<LineV>, count: i64, id: u64) -> Batch {
    Batch {
        fields: seq![
            flat_field("column"@, DataType::Str),
            flat_field("type"@, DataType::Str),
            flat_field("count"@, DataType::I64),
            flat_field("min"@, DataType::Str),
            flat_field("max"@, DataType::Str),
            flat_field("mean"@, DataType::Str),
        ],
        columns: seq![
            text_lane(l, |x: LineV| x.name),
            text_lane(l, |x: LineV| x.dtype),
            Lane { dtype: DataType::I64, cells: Seq::new(l.len(), |i: int| Datum::I64(count)) },
            text_lane(l, |x: LineV| x.min),
            text_lane(l, |x: LineV| x.max),
            text_lane(l, |x: LineV| x.mean),
        ],
        len: l.len(),
        id,
        mode: Mode::Normal,
        source: None,
    }
}

/// `describe`: the summary of a stream, put out at its end.
pub struct Describe {
    pub cols: Vec<Summary>,
    pub count: i64,
    pub inited: bool,
    pub emitted: bool,
}

impl Describe {
    /// Counts are not negative.
    pub open spec fn wf(&self) -> bool {
        &&& self.count >= 0
        &&& forall|i: int| 0 <= i < self.cols@.len() ==> (#[trigger] self.cols@[i]).acc.wf()
    }

    /// Nothing seen yet.
    pub fn new() -> (r: Describe)
        ensures
            r.wf(),
            r.cols@.len() == 0,
            r.count == 0,
            !r.inited,
            !r.emitted,
    {
        Describe { cols: Vec::new(), count: 0, inited: false, emitted: false }
    }

    fn init(&mut self, chunk: &Chunk)
        requires
            old(self).wf(),
            chunk@.wf(),
        ensures
            final(self).wf(),
            summaries(final(self).cols@) == fresh(chunk@),
            final(self).count == old(self).count,
            final(self).inited,
            final(self).emitted == old(self).emitted,
    {
        let mut cols: Vec<Summary> = Vec::new();
        let ghost want = fresh(chunk@);
        for i in 0..chunk.fields.len()
            invariant
                chunk@.wf(),
                want == fresh(chunk@),
                cols@.len() == i,
                forall|k: int| 0 <= k < i ==> (#[trigger] cols@[k])@ == want[k] && cols@[k].acc.wf(),
        {
            assert(chunk@.columns[i as int] == chunk.columns@[i as int]@);
            assert(chunk@.fields[i as int].name == chunk.fields@[i as int].name@);
            cols.push(
                Summary {
                    name: chunk.fields[i].name.clone(),
                    dtype: chunk.columns[i].dtype,
                    acc: AggAcc::new(AggFunc::Avg),
                },
            );
        }
        assert(summaries(cols@) =~= want);
        self.cols = cols;
        self.inited = true;
    }

    /// Notes the rows of a chunk.
    pub fn process(&mut self, chunk: &Chunk)
        requires
            old(self).wf(),
            chunk@.wf(),
        ensures
            final(self).wf(),
            final(self).inited,
            final(self).emitted == old(self).emitted,
            final(self).count == more_rows(old(self).count as int, chunk@.len as int),
            summaries(final(self).cols@) == with_rows(
                if old(self).inited {
                    summaries(old(self).cols@)
                } else {
                    fresh(chunk@)
                },
                chunk@,
            ),
    {
        if !self.inited {
            self.init(chunk);
        }
        let room: i64 = i64::MAX - self.count;
        if chunk.len as u128 > room as u128 {
            self.count = i64::MAX;
        } else {
            self.count = self.count + chunk.len as i64;
        }
        let ghost start = summaries(self.cols@);
        let ghost want = with_rows(start, chunk@);
        let n: usize = self.cols.len();
        for i in 0..n
            invariant
                chunk@.wf(),
                want == with_rows(start, chunk@),
                n == self.cols@.len(),
                start.len() == n,
                self.wf(),
                self.inited,
                self.emitted == old(self).emitted,
                self.count == more_rows(old(self).count as int, chunk@.len as int),
                forall|k: int| 0 <= k < i ==> (#[trigger] self.cols@[k])@ == want[k],
                forall|k: int| i <= k < n ==> (#[trigger] self.cols@[k])@ == start[k],
        {
            if i < chunk.columns.len() {
                assert(chunk@.columns[i as int] == chunk.columns@[i as int]@);
                assert(self.cols@[i as int].acc.wf());
                note_column(&mut self.cols[i].acc, &chunk.columns[i]);
            }
            assert(self.cols@[i as int]@ == want[i as int]);
        }
        assert(summaries(self.cols@) =~= want);
    }

    fn lines(&self, host: &Answers) -> (r: Result<Vec<Line>, Ask>)
        ensures
            match (r, lines(summaries(self.cols@), self.cols@.len(), host@)) {
                (Ok(v), Ok(l)) => l.len() == v@.len() && forall|i: int|
                    0 <= i < v@.len() ==> (#[trigger] v@[i])@ == l[i],
                (Err(a), Err(q)) => a@ == q,
                _ => false,
            },
    {
        let ghost s = summaries(self.cols@);
        let mut out: Vec<Line> = Vec::new();
        let ghost mut sofar: Seq<LineV> = Seq::empty();
        for n in 0..self.cols.len()
            invariant
                s == summaries(self.cols@),
                lines(s, n as nat, host@) == Ok::<Seq<LineV>, Query>(sofar),
                out@.len() == n,
                sofar.len() == n,
                forall|i: int| 0 <= i < n ==> (#[trigger] out@[i])@ == sofar[i],
        {
            assert(s[n as int] == self.cols@[n as int]@);
            match line_of(&self.cols[n], host) {
                Err(a) => {
                    proof {
                        lemma_lines_stop(s, (n + 1) as nat, self.cols@.len(), host@);
                    }
                    return Err(a);
                },
                Ok(l) => {
                    proof {
                        sofar = sofar.push(l@);
                    }
                    out.push(l);
                },
            }
        }
        Ok(out)
    }

    /// Puts out the summary, once. A question leaves everything as it was.
    pub fn finish(&mut self, ctx: &mut OpCtx, host: &Answers) -> (r: Result<Option<Chunk>, Ask>)
        requires
            old(self).wf(),
        ensures
            final(self).wf(),
            if old(self).emitted || !old(self).inited {
                r matches Ok(None) && final(ctx)@ == old(ctx)@ && *final(self) == *old(self)
            } else {
                match (r, lines(summaries(old(self).cols@), old(self).cols@.len(), host@)) {
                    (Ok(Some(c)), Ok(l)) => {
                        &&& c@ == summary_chunk(l, old(self).count, old(ctx)@.next_chunk_id)
                        &&& c@.wf()
                        &&& final(ctx)@ == old(ctx)@.advanced()
                        &&& *final(self) == (Describe { emitted: true, ..*old(self) })
                    },
                    (Err(a), Err(q)) => a@ == q && final(ctx)@ == old(ctx)@ && *final(self)
                        == *old(self),
                    _ => false,
                }
            },
    {
        if self.emitted || !self.inited {
            return Ok(None);
        }
        let rows: Vec<Line> = match self.lines(host) {
            Err(a) => {
                return Err(a);
            },
            Ok(v) => v,
        };
        proof {
            let l = lines(summaries(self.cols@), self.cols@.len(), host@)->Ok_0;
            assert(Seq::new(rows@.len(), |i: int| rows@[i]@) =~= l);
        }
        self.emitted = true;
        let id: u64 = ctx.fresh_id();
        Ok(Some(build_summary(rows, self.count, id)))
    }
}

fn note_column(acc: &mut AggAcc, col: &Column)
    requires
        old(acc).wf(),
    ensures
        final(acc).wf(),
        final(acc)@ == noted(old(acc)@, col@, col@.cells.len()),
{
    let ghost start = acc@;
    for i in 0..col.cells.len()
        invariant
            acc.wf(),
            start == old(acc)@,
            acc@ == noted(start, col@, i as nat),
    {
        assert(col@.cells[i as int] == col.cells@[i as int]@);
        match &col.cells[i] {
            Value::I64(_) | Value::F64(_) => {
                proof {
                    reveal_strlit("");
                    assert(""@ =~= Seq::empty());
                }
                acc.observe(&col.cells[i], "");
            },
            _ => {},
        }
    }
}

fn line_of(s: &Summary, host: &Answers) -> (r: Result<Line, Ask>)
    ensures
        match (r, line(s@, host@)) {
            (Ok(l), Ok(v)) => l@ == v,
            (Err(a), Err(q)) => a@ == q,
            _ => false,
        },
{
    let args: Vec<Value> = Vec::new();
    assert(data(args@) =~= Seq::empty());
    let dtype: String = match get_text(host, Ask { op: HostOp::TypeName { ty: s.dtype }, args }) {
        Err(a) => {
            return Err(a);
        },
        Ok(t) => t,
    };
    assert(s@.acc.n == s.acc.n);
    if s.acc.n <= 0 {
        let l = Line {
            name: s.name.clone(),
            dtype,
            min: String::new(),
            max: String::new(),
            mean: String::new(),
        };
        return Ok(l);
    }
    let m: Moments = match s.acc.settle(host) {
        Err(a) => {
            return Err(a);
        },
        Ok(m) => m,
    };
    let min: String = match show(m.min, host) {
        Err(a) => {
            return Err(a);
        },
        Ok(t) => t,
    };
    let max: String = match show(m.max, host) {
        Err(a) => {
            return Err(a);
        },
        Ok(t) => t,
    };
    match s.acc.num_value(host) {
        Err(a) => Err(a),
        Ok(x) => match show(x, host) {
            Err(a) => Err(a),
            Ok(mean) => Ok(Line { name: s.name.clone(), dtype, min, max, mean }),
        },
    }
}

fn str_field(name: &str) -> (r: Field)
    ensures
        r@ == flat_field(name@, DataType::Str),
{
    Field::flat(owned(name), DataType::Str)
}

fn build_summary(rows: Vec<Line>, count: i64, id: u64) -> (r: Chunk)
    ensures
        r@ == summary_chunk(Seq::new(rows@.len(), |i: int| rows@[i]@), count, id),
        r@.wf(),
{
    let ghost l = Seq::new(rows@.len(), |i: int| rows@[i]@);
    let mut names: Vec<Value> = Vec::new();
    let mut types: Vec<Value> = Vec::new();
    let mut counts: Vec<Value> = Vec::new();
    let mut mins: Vec<Value> = Vec::new();
    let mut maxs: Vec<Value> = Vec::new();
    let mut means: Vec<Value> = Vec::new();
    for i in 0..rows.len()
        invariant
            names@.len() == i && types@.len() == i && counts@.len() == i && mins@.len() == i
                && maxs@.len() == i && means@.len() == i,
            forall|k: int| 0 <= k < i ==> (#[trigger] names@[k])@ == Datum::Str(rows@[k].name@),
            forall|k: int| 0 <= k < i ==> (#[trigger] types@[k])@ == Datum::Str(rows@[k].dtype@),
            forall|k: int| 0 <= k < i ==> (#[trigger] counts@[k])@ == Datum::I64(count),
            forall|k: int| 0 <= k < i ==> (#[trigger] mins@[k])@ == Datum::Str(rows@[k].min@),
            forall|k: int| 0 <= k < i ==> (#[trigger] maxs@[k])@ == Datum::Str(rows@[k].max@),
            forall|k: int| 0 <= k < i ==> (#[trigger] means@[k])@ == Datum::Str(rows@[k].mean@),
    {
        names.push(Value::Str(rows[i].name.clone()));
        types.push(Value::Str(rows[i].dtype.clone()));
        counts.push(Value::I64(count));
        mins.push(Value::Str(rows[i].min.clone()));
        maxs.push(Value::Str(rows[i].max.clone()));
        means.push(Value::Str(rows[i].mean.clone()));
    }
    let ghost want = summary_chunk(l, count, id);
    assert(data(names@) =~= want.columns[0].cells);
    assert(data(types@) =~= want.columns[1].cells);
    assert(data(counts@) =~= want.columns[2].cells);
    assert(data(mins@) =~= want.columns[3].cells);
    assert(data(maxs@) =~= want.columns[4].cells);
    assert(data(means@) =~= want.columns[5].cells);
    let mut fields: Vec<Field> = Vec::new();
    fields.push(str_field("column"));
    fields.push(str_field("type"));
    fields.push(Field::flat(owned("count"), DataType::I64));
    fields.push(str_field("min"));
    fields.push(str_field("max"));
    fields.push(str_field("mean"));
    let mut columns: Vec<Column> = Vec::new();
    columns.push(Column { dtype: DataType::Str, cells: names });
    columns.push(Column { dtype: DataType::Str, cells: types });
    columns.push(Column { dtype: DataType::I64, cells: counts });
    columns.push(Column { dtype: DataType::Str, cells: mins });
    columns.push(Column { dtype: DataType::Str, cells: maxs });
    columns.push(Column { dtype: DataType::Str, cells: means });
    assert(fields_view(fields@) =~= want.fields);
    assert(lanes(columns@) =~= want.columns);
    let len: usize = rows.len();
    let r = Chunk { fields, columns, len, id, mode: Mode::Normal, source: None };
    assert(r@.wf()) by {
        assert forall|i: int| 0 <= i < r@.columns.len() implies {
            &&& (#[trigger] r@.columns[i]).cells.len() == r@.len
            &&& r@.columns[i].typed()
        } by {}
    }
    r
}

} // verus!
