//! Operators that fill blank cells of a text column: by a value, by the nearest
//! value before or after, or by a statistic of the column.
use vstd::prelude::*;
use crate::agg::{Acc, AggAcc, AggFunc};
use crate::cast::agree_text;
use crate::chunk::{batches, index_in, index_of, lanes, Batch, Chunk, Column, Lane};
use crate::compare::agree;
use crate::event::{message3, CtxV, ErrorScope, OpCtx, Severity};
use crate::float::{is_small_integer, small_integer, truncate, truncated, F64};
use crate::host::{ask1, get_maybe_float, get_text, maybe_float_answer, text_answer, Answers, Ask, HostOp, Log, Query};
use crate::rows::all_wf;
use crate::select::is_blank;
use crate::strings::{trim, trimmed};
use crate::text::{i64_text, int_text, owned};
use crate::value::{data, fits, DataType, Datum, Value};

verus! {

/// Is the cell of a text column blank: missing or empty?
pub open spec fn blank(d: Datum) -> bool {
    d is Null || d == Datum::Str(Seq::empty())
}

/// Is the cell blank (see [`blank`])?
pub fn cell_blank(v: &Value) -> (r: bool)
    ensures
        r == blank(v@),
{
    match v {
        Value::Null => true,
        Value::Str(s) => {
            assert(s@.len() == 0 ==> s@ =~= Seq::empty());
            is_blank(s.as_str())
        },
        _ => false,
    }
}

/// The place of a named text column.
pub open spec fn text_column(b: Batch, name: Seq<char>) -> Option<int> {
    match index_in(b.fields, name) {
        Some(i) => if b.columns[i].dtype is Str {
            Some(i)
        } else {
            None
        },
        None => None,
    }
}

/// A chunk with the cells of one column replaced.
pub open spec fn with_cells(b: Batch, col: int, cells: Seq<Datum>) -> Batch {
    Batch { columns: b.columns.update(col, Lane { cells, ..b.columns[col] }), ..b }
}

/// As many cells that fit leave a chunk well formed.
proof fn lemma_with_cells_wf(b: Batch, col: int, cells: Seq<Datum>)
    requires
        b.wf(),
        0 <= col < b.columns.len(),
        cells.len() == b.len,
        forall|i: int| 0 <= i < cells.len() ==> fits(#[trigger] cells[i], b.columns[col].dtype),
    ensures
        with_cells(b, col, cells).wf(),
{
    let r = with_cells(b, col, cells);
    assert forall|i: int| 0 <= i < r.columns.len() implies {
        &&& (#[trigger] r.columns[i]).cells.len() == r.len
        &&& r.columns[i].typed()
    } by {
        assert(b.columns[i].typed());
    }
    assert forall|i: int| 0 <= i < r.fields.len() implies (#[trigger] r.columns[i]).dtype
        == r.fields[i].dtype by {
        assert(b.columns[i].dtype == b.fields[i].dtype);
    }
}

fn replace_cells(chunk: &Chunk, col: usize, cells: Vec<Value>) -> (r: Chunk)
    requires
        chunk@.wf(),
        col < chunk@.columns.len(),
        cells@.len() == chunk.len,
        forall|i: int|
            0 <= i < cells@.len() ==> fits((#[trigger] cells@[i])@, chunk@.columns[col as int].dtype),
    ensures
        r@ == with_cells(chunk@, col as int, data(cells@)),
        r@.wf(),
{
    let mut r: Chunk = chunk.dup();
    let dtype: DataType = chunk.columns[col].dtype;
    assert(chunk@.columns[col as int] == chunk.columns@[col as int]@);
    let ghost before = lanes(r.columns@);
    assert(before == chunk@.columns);
    let c = Column { dtype, cells };
    let ghost lane = c@;
    r.columns.set(col, c);
    assert(lanes(r.columns@) =~= before.update(col as int, lane));
    proof {
        lemma_with_cells_wf(chunk@, col as int, data(cells@));
    }
    r
}

// ------------------------------------------------------------------ fill

/// The cells with the blank ones replaced by a text.
pub open spec fn filled(cells: Seq<Datum>, value: Seq<char>) -> Seq<Datum> {
    Seq::new(
        cells.len(),
        |i: int|
            if blank(cells[i]) {
                Datum::Str(value)
            } else {
                cells[i]
            },
    )
}

/// What `fill` makes of a chunk: of a column that is there and holds text.
pub open spec fn filled_chunk(b: Batch, name: Seq<char>, value: Seq<char>) -> Batch {
    match text_column(b, name) {
        Some(i) => with_cells(b, i, filled(b.columns[i].cells, value)),
        None => b,
    }
}

/// The warning of an unknown column.
pub open spec fn fill_warned(c: CtxV, name: Seq<char>) -> CtxV {
    c.raised(
        c.event(
            Severity::Warn,
            ErrorScope::Chunk,
            "fill: unknown column '"@ + name + seq!['\''],
        ),
    )
}

fn warn_unknown(ctx: &mut OpCtx, name: &str)
    ensures
        final(ctx)@ == fill_warned(old(ctx)@, name@),
{
    proof {
        reveal_strlit("'");
        assert("'"@ =~= seq!['\'']);
    }
    ctx.warn(message3("fill: unknown column '", name, "'"));
}

/// `fill col VALUE`: blank cells of a text column become the value. A column of
/// another type passes as it is.
pub struct Fill {
    pub col: String,
    pub value: String,
}

impl Fill {
    /// The filled chunk.
    pub fn process(&self, chunk: &Chunk, ctx: &mut OpCtx) -> (r: Chunk)
        requires
            chunk@.wf(),
        ensures
            r@ == filled_chunk(chunk@, self.col@, self.value@),
            r@.wf(),
            final(ctx)@ == if index_in(chunk@.fields, self.col@) is None {
                fill_warned(old(ctx)@, self.col@)
            } else {
                old(ctx)@
            },
    {
        let ci: usize = match index_of(&chunk.fields, self.col.as_str()) {
            None => {
                warn_unknown(ctx, self.col.as_str());
                return chunk.dup();
            },
            Some(i) => i,
        };
        let col: &Column = &chunk.columns[ci];
        assert(chunk@.columns[ci as int] == col@);
        if !matches!(col.dtype, DataType::Str) {
            return chunk.dup();
        }
        let mut cells: Vec<Value> = Vec::new();
        for r in 0..chunk.len
            invariant
                chunk@.wf(),
                ci < chunk@.columns.len(),
                chunk@.columns[ci as int] == col@,
                col.dtype is Str,
                cells@.len() == r,
                forall|k: int|
                    0 <= k < r ==> (#[trigger] cells@[k])@ == filled(col@.cells, self.value@)[k],
                forall|k: int| 0 <= k < r ==> fits((#[trigger] cells@[k])@, col.dtype),
        {
            assert(col@.typed() && col@.cells.len() == chunk.len);
            assert(fits(col@.cells[r as int], col.dtype));
            if cell_blank(&col.cells[r]) {
                cells.push(Value::Str(self.value.clone()));
            } else {
                cells.push(col.cells[r].dup());
            }
        }
        assert(col@.cells.len() == chunk.len);
        assert(data(cells@) =~= filled(col@.cells, self.value@));
        replace_cells(chunk, ci, cells)
    }
}

// ---------------------------------------------------- ffill and bfill

/// The last text among the first `n` cells, else what was carried in.
pub open spec fn carried(cells: Seq<Datum>, n: nat, carry: Option<Seq<char>>) -> Option<Seq<char>>
    decreases n,
{
    if n == 0 {
        carry
    } else {
        match cells[n - 1] {
            Datum::Str(t) => if t.len() > 0 {
                Some(t)
            } else {
                carried(cells, (n - 1) as nat, carry)
            },
            _ => carried(cells, (n - 1) as nat, carry),
        }
    }
}

/// The first text at or after `i`, else what comes after the cells.
pub open spec fn upcoming(cells: Seq<Datum>, i: nat, next: Option<Seq<char>>) -> Option<Seq<char>>
    decreases cells.len() - i,
{
    if i >= cells.len() {
        next
    } else {
        match cells[i as int] {
            Datum::Str(t) => if t.len() > 0 {
                Some(t)
            } else {
                upcoming(cells, i + 1, next)
            },
            _ => upcoming(cells, i + 1, next),
        }
    }
}

/// A blank cell with the text that was found for it; without one it stays blank.
pub open spec fn borrowed(d: Datum, t: Option<Seq<char>>) -> Datum {
    if blank(d) && t is Some {
        Datum::Str(t->0)
    } else {
        d
    }
}

/// The cells, each blank one filled from before.
pub open spec fn forward(cells: Seq<Datum>, carry: Option<Seq<char>>) -> Seq<Datum> {
    Seq::new(cells.len(), |i: int| borrowed(cells[i], carried(cells, i as nat, carry)))
}

/// The cells, each blank one filled from after.
pub open spec fn backward(cells: Seq<Datum>, next: Option<Seq<char>>) -> Seq<Datum> {
    Seq::new(cells.len(), |i: int| borrowed(cells[i], upcoming(cells, i as nat, next)))
}

proof fn lemma_carried_cut(a: Seq<Datum>, b: Seq<Datum>, i: nat, carry: Option<Seq<char>>)
    requires
        i <= b.len(),
    ensures
        carried(a + b, a.len() + i, carry) == carried(b, i, carried(a, a.len(), carry)),
    decreases i,
{
    if i > 0 {
        lemma_carried_cut(a, b, (i - 1) as nat, carry);
        assert((a + b)[a.len() + i - 1] == b[i - 1]);
    } else {
        lemma_carried_prefix(a, b, a.len(), carry);
    }
}

proof fn lemma_carried_prefix(a: Seq<Datum>, b: Seq<Datum>, i: nat, carry: Option<Seq<char>>)
    requires
        i <= a.len(),
    ensures
        carried(a + b, i, carry) == carried(a, i, carry),
    decreases i,
{
    if i > 0 {
        lemma_carried_prefix(a, b, (i - 1) as nat, carry);
        assert((a + b)[i - 1] == a[i - 1]);
    }
}

/// Filling forward does not depend on how the rows are cut into chunks.
pub proof fn lemma_forward_any_cut(a: Seq<Datum>, b: Seq<Datum>, carry: Option<Seq<char>>)
    ensures
        forward(a + b, carry) == forward(a, carry) + forward(b, carried(a, a.len(), carry)),
{
    let whole = forward(a + b, carry);
    let parts = forward(a, carry) + forward(b, carried(a, a.len(), carry));
    assert forall|i: int| 0 <= i < whole.len() implies whole[i] == parts[i] by {
        if i < a.len() {
            lemma_carried_prefix(a, b, i as nat, carry);
        } else {
            lemma_carried_cut(a, b, (i - a.len()) as nat, carry);
        }
    }
    assert(whole =~= parts);
}

proof fn lemma_upcoming_cut(a: Seq<Datum>, b: Seq<Datum>, i: nat, next: Option<Seq<char>>)
    requires
        i <= a.len() + b.len(),
    ensures
        upcoming(a + b, i, next) == if i < a.len() {
            upcoming(a, i, upcoming(b, 0, next))
        } else {
            upcoming(b, (i - a.len()) as nat, next)
        },
    decreases a.len() + b.len() - i,
{
    if i < a.len() + b.len() {
        lemma_upcoming_cut(a, b, i + 1, next);
        if i < a.len() {
            assert((a + b)[i as int] == a[i as int]);
        } else {
            assert((a + b)[i as int] == b[i - a.len()]);
        }
    }
}

/// Filling backward does not depend on how the rows are cut into chunks.
pub proof fn lemma_backward_any_cut(a: Seq<Datum>, b: Seq<Datum>, next: Option<Seq<char>>)
    ensures
        backward(a + b, next) == backward(a, upcoming(b, 0, next)) + backward(b, next),
{
    let whole = backward(a + b, next);
    let parts = backward(a, upcoming(b, 0, next)) + backward(b, next);
    assert forall|i: int| 0 <= i < whole.len() implies whole[i] == parts[i] by {
        lemma_upcoming_cut(a, b, i as nat, next);
    }
    assert(whole =~= parts);
}

/// The text view of an optional string.
pub open spec fn carry_view(c: Option<String>) -> Option<Seq<char>> {
    match c {
        Some(s) => Some(s@),
        None => None,
    }
}

/// A chunk filled forward, and what is carried on.
pub open spec fn forward_chunk(b: Batch, name: Seq<char>, carry: Option<Seq<char>>) -> (Batch, Option<Seq<char>>) {
    match text_column(b, name) {
        Some(i) => (
            with_cells(b, i, forward(b.columns[i].cells, carry)),
            carried(b.columns[i].cells, b.columns[i].cells.len(), carry),
        ),
        None => (b, carry),
    }
}

/// A chunk filled backward in a column, where that holds text.
pub open spec fn backward_chunk(b: Batch, col: int, next: Option<Seq<char>>) -> Batch {
    if col < b.columns.len() && b.columns[col].dtype is Str {
        with_cells(b, col, backward(b.columns[col].cells, next))
    } else {
        b
    }
}

/// What comes next in a column from chunk `k` on.
pub open spec fn next_from(bs: Seq<Batch>, col: int, k: nat) -> Option<Seq<char>>
    decreases bs.len() - k,
{
    if k >= bs.len() {
        None
    } else if col < bs[k as int].columns.len() && bs[k as int].columns[col].dtype is Str {
        upcoming(bs[k as int].columns[col].cells, 0, next_from(bs, col, k + 1))
    } else {
        next_from(bs, col, k + 1)
    }
}

/// `fill col ffill|bfill`: blank cells of a text column take the nearest text
/// before or after them, over all chunks.
pub struct FillDirectional {
    pub col: String,
    pub forward: bool,
    /// The last text seen so far.
    pub carry: Option<String>,
    /// The chunks held back for filling backward.
    pub buf: Vec<Chunk>,
    pub warned: bool,
}

impl FillDirectional {
    /// Every chunk held back is well formed.
    pub open spec fn wf(&self) -> bool {
        all_wf(batches(self.buf@))
    }

    /// Filling from before.
    pub fn ffill(col: String) -> (r: FillDirectional)
        ensures
            r.wf(),
            r.col == col,
            r.forward,
            r.carry is None,
            r.buf@.len() == 0,
            !r.warned,
    {
        FillDirectional { col, forward: true, carry: None, buf: Vec::new(), warned: false }
    }

    /// Filling from after.
    pub fn bfill(col: String) -> (r: FillDirectional)
        ensures
            r.wf(),
            r.col == col,
            !r.forward,
            r.carry is None,
            r.buf@.len() == 0,
            !r.warned,
    {
        FillDirectional { col, forward: false, carry: None, buf: Vec::new(), warned: false }
    }

    /// The context after looking for the column: an unknown one is warned of
    /// once.
    pub open spec fn looked(&self, b: Batch, c: CtxV) -> CtxV {
        if index_in(b.fields, self.col@) is None && !self.warned {
            fill_warned(c, self.col@)
        } else {
            c
        }
    }

    /// The column to fill, where it is there and holds text.
    fn target(&mut self, chunk: &Chunk, ctx: &mut OpCtx) -> (r: Option<usize>)
        requires
            chunk@.wf(),
        ensures
            match r {
                Some(i) => text_column(chunk@, old(self).col@) == Some(i as int) && i
                    < chunk@.fields.len(),
                None => text_column(chunk@, old(self).col@) is None,
            },
            final(ctx)@ == old(self).looked(chunk@, old(ctx)@),
            final(self).warned == (old(self).warned || index_in(
                chunk@.fields,
                old(self).col@,
            ) is None),
            final(self).col == old(self).col,
            final(self).forward == old(self).forward,
            final(self).carry == old(self).carry,
            final(self).buf == old(self).buf,
    {
        match index_of(&chunk.fields, self.col.as_str()) {
            None => {
                if !self.warned {
                    self.warned = true;
                    warn_unknown(ctx, self.col.as_str());
                }
                None
            },
            Some(i) => {
                assert(chunk@.columns[i as int] == chunk.columns@[i as int]@);
                if matches!(chunk.columns[i].dtype, DataType::Str) {
                    Some(i)
                } else {
                    None
                }
            },
        }
    }

    /// Filling forward: the filled chunk. Filling backward: the chunk is held
    /// back.
    pub fn process(&mut self, chunk: Chunk, ctx: &mut OpCtx) -> (r: Vec<Chunk>)
        requires
            old(self).wf(),
            chunk@.wf(),
        ensures
            final(self).wf(),
            final(self).col == old(self).col,
            final(self).forward == old(self).forward,
            all_wf(batches(r@)),
            if old(self).forward {
                let (out, carry) = forward_chunk(
                    chunk@,
                    old(self).col@,
                    carry_view(old(self).carry),
                );
                &&& batches(r@) == seq![out]
                &&& carry_view(final(self).carry) == carry
                &&& final(ctx)@ == old(self).looked(chunk@, old(ctx)@)
                &&& final(self).warned == (old(self).warned || index_in(
                    chunk@.fields,
                    old(self).col@,
                ) is None)
                &&& final(self).buf == old(self).buf
            } else {
                &&& r@.len() == 0
                &&& batches(final(self).buf@) == batches(old(self).buf@).push(chunk@)
                &&& final(ctx)@ == old(ctx)@
                &&& final(self).warned == old(self).warned
                &&& final(self).carry == old(self).carry
            },
    {
        let mut out: Vec<Chunk> = Vec::new();
        if !self.forward {
            let ghost before = batches(self.buf@);
            self.buf.push(chunk);
            proof {
                let after = batches(self.buf@);
                assert(after =~= before.push(chunk@));
                assert forall|i: int| 0 <= i < after.len() implies (#[trigger] after[i]).wf() by {
                    if i < before.len() {
                        assert(before[i].wf());
                    }
                }
            }
            return out;
        }
        let ci: usize = match self.target(&chunk, ctx) {
            None => {
                let ghost b = chunk@;
                out.push(chunk);
                assert(batches(out@) =~= seq![b]);
                return out;
            },
            Some(i) => i,
        };
        let col: &Column = &chunk.columns[ci];
        assert(chunk@.columns[ci as int] == col@);
        let ghost cells_in = col@.cells;
        let ghost carry0 = carry_view(self.carry);
        let mut cells: Vec<Value> = Vec::new();
        for r in 0..chunk.len
            invariant
                chunk@.wf(),
                ci < chunk@.columns.len(),
                chunk@.columns[ci as int] == col@,
                col.dtype is Str,
                cells_in == col@.cells,
                self.col == old(self).col,
                self.forward == old(self).forward,
                self.buf == old(self).buf,
                self.warned == (old(self).warned || index_in(chunk@.fields, old(self).col@) is None),
                carry_view(self.carry) == carried(cells_in, r as nat, carry0),
                cells@.len() == r,
                forall|k: int|
                    0 <= k < r ==> (#[trigger] cells@[k])@ == forward(cells_in, carry0)[k],
                forall|k: int| 0 <= k < r ==> fits((#[trigger] cells@[k])@, col.dtype),
        {
            assert(col@.typed() && col@.cells.len() == chunk.len);
            assert(fits(cells_in[r as int], col.dtype));
            assert(cells_in[r as int] == col.cells@[r as int]@);
            if cell_blank(&col.cells[r]) {
                match &self.carry {
                    Some(t) => {
                        cells.push(Value::Str(t.clone()));
                    },
                    None => {
                        cells.push(col.cells[r].dup());
                    },
                }
            } else {
                match &col.cells[r] {
                    Value::Str(t) => {
                        proof {
                            if t@.len() == 0 {
                                assert(t@ =~= Seq::empty());
                            }
                        }
                        self.carry = Some(t.clone());
                    },
                    _ => {},
                }
                cells.push(col.cells[r].dup());
            }
        }
        assert(cells_in.len() == chunk.len);
        assert(data(cells@) =~= forward(cells_in, carry0));
        let c = replace_cells(&chunk, ci, cells);
        let ghost b = c@;
        out.push(c);
        assert(batches(out@) =~= seq![b]);
        out
    }

    /// Filling backward: the chunks held back, filled.
    pub fn finish(&mut self, ctx: &mut OpCtx) -> (r: Vec<Chunk>)
        requires
            old(self).wf(),
        ensures
            final(self).wf(),
            all_wf(batches(r@)),
            final(self).col == old(self).col,
            final(self).forward == old(self).forward,
            final(self).carry == old(self).carry,
            if old(self).forward || old(self).buf@.len() == 0 {
                r@.len() == 0 && final(ctx)@ == old(ctx)@ && *final(self) == *old(self)
            } else {
                let bs = batches(old(self).buf@);
                &&& final(self).buf@.len() == 0
                &&& final(self).warned == (old(self).warned || index_in(
                    bs[0].fields,
                    old(self).col@,
                ) is None)
                &&& final(ctx)@ == old(self).looked(bs[0], old(ctx)@)
                &&& r@.len() == bs.len()
                &&& match text_column(bs[0], old(self).col@) {
                    None => batches(r@) == bs,
                    Some(ci) => forall|k: int|
                        0 <= k < bs.len() ==> (#[trigger] r@[k])@ == backward_chunk(
                            bs[k],
                            ci,
                            next_from(bs, ci, (k + 1) as nat),
                        ),
                }
            },
    {
        if self.forward || self.buf.len() == 0 {
            return Vec::new();
        }
        let ghost bs = batches(self.buf@);
        assert(bs[0] == self.buf@[0]@);
        let first: Chunk = self.buf[0].dup();
        assert(first@.wf());
        let target: Option<usize> = self.target(&first, ctx);
        let mut chunks: Vec<Chunk> = Vec::new();
        std::mem::swap(&mut chunks, &mut self.buf);
        let ci: usize = match target {
            None => {
                return chunks;
            },
            Some(i) => i,
        };
        let mut next: Option<String> = None;
        let mut k: usize = chunks.len();
        while k > 0
            invariant
                k <= chunks@.len(),
                chunks@.len() == bs.len(),
                all_wf(bs),
                carry_view(next) == next_from(bs, ci as int, k as nat),
                forall|j: int| 0 <= j < k ==> (#[trigger] chunks@[j])@ == bs[j],
                forall|j: int|
                    k <= j < bs.len() ==> (#[trigger] chunks@[j])@ == backward_chunk(
                        bs[j],
                        ci as int,
                        next_from(bs, ci as int, (j + 1) as nat),
                    ) && chunks@[j]@.wf(),
            decreases k,
        {
            k = k - 1;
            assert(bs[k as int].wf());
            let c = fill_back(&chunks[k], ci, &mut next);
            chunks.set(k, c);
        }
        proof {
            assert forall|j: int| 0 <= j < batches(chunks@).len() implies (#[trigger] batches(
                chunks@,
            )[j]).wf() by {
                assert(chunks@[j]@.wf());
            }
        }
        chunks
    }
}

/// Fills one chunk backward; what comes before it then follows in `next`.
fn fill_back(chunk: &Chunk, ci: usize, next: &mut Option<String>) -> (r: Chunk)
    requires
        chunk@.wf(),
    ensures
        r@ == backward_chunk(chunk@, ci as int, carry_view(*old(next))),
        r@.wf(),
        carry_view(*final(next)) == if ci < chunk@.columns.len()
            && chunk@.columns[ci as int].dtype is Str {
            upcoming(chunk@.columns[ci as int].cells, 0, carry_view(*old(next)))
        } else {
            carry_view(*old(next))
        },
{
    if ci >= chunk.columns.len() {
        return chunk.dup();
    }
    let col: &Column = &chunk.columns[ci];
    assert(chunk@.columns[ci as int] == col@);
    if !matches!(col.dtype, DataType::Str) {
        return chunk.dup();
    }
    let ghost cells_in = col@.cells;
    let ghost last = carry_view(*next);
    let mut cells: Vec<Value> = crate::value::dup_values(&col.cells);
    let mut r: usize = col.cells.len();
    assert(col@.typed() && col@.cells.len() == chunk.len);
    assert(data(cells@) == cells_in);
    assert forall|j: int| 0 <= j < cells@.len() implies (#[trigger] cells@[j])@ == cells_in[j] by {
        assert(data(cells@)[j] == cells@[j]@);
    }
    while r > 0
        invariant
            col@.typed(),
            col.dtype is Str,
            cells_in == col@.cells,
            r <= cells_in.len(),
            cells@.len() == cells_in.len(),
            carry_view(*next) == upcoming(cells_in, r as nat, last),
            forall|j: int| 0 <= j < r ==> (#[trigger] cells@[j])@ == cells_in[j],
            forall|j: int|
                r <= j < cells@.len() ==> (#[trigger] cells@[j])@ == backward(cells_in, last)[j]
                    && fits(cells@[j]@, col.dtype),
        decreases r,
    {
        r = r - 1;
        assert(fits(cells_in[r as int], col.dtype));
        assert(cells_in[r as int] == col.cells@[r as int]@);
        if cell_blank(&col.cells[r]) {
            match &*next {
                Some(t) => {
                    cells.set(r, Value::Str(t.clone()));
                },
                None => {},
            }
        } else {
            match &col.cells[r] {
                Value::Str(t) => {
                    proof {
                        if t@.len() == 0 {
                            assert(t@ =~= Seq::empty());
                        }
                    }
                    *next = Some(t.clone());
                },
                _ => {},
            }
        }
    }
    assert(data(cells@) =~= backward(cells_in, last));
    replace_cells(chunk, ci, cells)
}

// ------------------------------------------------- fill by a statistic

/// Is the number integral and below 10^15 in size?
pub open spec fn plain_integer(x: F64) -> bool {
    small_integer(x) && -1_000_000_000_000_000 < truncated(x) < 1_000_000_000_000_000
}

/// Is the number integral and below 10^15 in size?
pub fn is_plain_integer(x: F64) -> (r: bool)
    ensures
        r == plain_integer(x),
{
    if !is_small_integer(x) {
        return false;
    }
    let n: i64 = truncate(x);
    -1_000_000_000_000_000 < n && n < 1_000_000_000_000_000
}

/// A statistic's text: an integer without a point, any other number in its
/// shortest form.
pub open spec fn stat_text(x: F64, log: Log) -> Result<Seq<char>, Query> {
    if plain_integer(x) {
        Ok(int_text(truncated(x)))
    } else {
        text_answer(log, Query { op: HostOp::FloatText, args: seq![Datum::F64(x)] })
    }
}

/// A statistic's text (see [`stat_text`]).
pub fn format_stat(x: F64, host: &Answers) -> (r: Result<String, Ask>)
    ensures
        agree_text(r, stat_text(x, host@)),
{
    if is_plain_integer(x) {
        Ok(i64_text(truncate(x)))
    } else {
        get_text(host, ask1(HostOp::FloatText, Value::F64(x)))
    }
}

/// The number that a cell of a text column holds, if it holds one.
pub open spec fn cell_number(d: Datum, log: Log) -> Result<Option<F64>, Query> {
    match d {
        Datum::Str(t) => if trimmed(t).len() == 0 {
            Ok(None)
        } else {
            maybe_float_answer(
                log,
                Query { op: HostOp::ParseFloat, args: seq![Datum::Str(trimmed(t))] },
            )
        },
        _ => Ok(None),
    }
}

fn number_of_cell(v: &Value, host: &Answers) -> (r: Result<Option<F64>, Ask>)
    ensures
        agree(r, cell_number(v@, host@), |a, b| a == b),
{
    match v {
        Value::Str(t) => {
            let s: String = trim(t.as_str());
            if is_blank(s.as_str()) {
                return Ok(None);
            }
            get_maybe_float(host, ask1(HostOp::ParseFloat, Value::Str(s)))
        },
        _ => Ok(None),
    }
}

/// The aggregate of the numbers among the first `n` cells, after what it held.
pub open spec fn noted(acc: Acc, cells: Seq<Datum>, n: nat, log: Log) -> Result<Acc, Query>
    decreases n,
{
    if n == 0 {
        Ok(acc)
    } else {
        match noted(acc, cells, (n - 1) as nat, log) {
            Err(q) => Err(q),
            Ok(a) => match cell_number(cells[n - 1], log) {
                Err(q) => Err(q),
                Ok(None) => Ok(a),
                Ok(Some(x)) => Ok(a.with(Datum::F64(x), Seq::empty())),
            },
        }
    }
}

/// The aggregate of the numbers in a column of the first `n` chunks.
pub open spec fn noted_all(acc: Acc, bs: Seq<Batch>, col: int, n: nat, log: Log) -> Result<Acc, Query>
    decreases n,
{
    if n == 0 {
        Ok(acc)
    } else {
        match noted_all(acc, bs, col, (n - 1) as nat, log) {
            Err(q) => Err(q),
            Ok(a) => if col < bs[n - 1].columns.len() && bs[n - 1].columns[col].dtype is Str {
                noted(a, bs[n - 1].columns[col].cells, bs[n - 1].columns[col].cells.len(), log)
            } else {
                Ok(a)
            },
        }
    }
}

proof fn lemma_noted_stops(acc: Acc, cells: Seq<Datum>, n: nat, m: nat, log: Log)
    requires
        noted(acc, cells, n, log) is Err,
        n <= m,
    ensures
        noted(acc, cells, m, log) == noted(acc, cells, n, log),
    decreases m,
{
    if n < m {
        lemma_noted_stops(acc, cells, n, (m - 1) as nat, log);
    }
}

proof fn lemma_noted_all_stops(acc: Acc, bs: Seq<Batch>, col: int, n: nat, m: nat, log: Log)
    requires
        noted_all(acc, bs, col, n, log) is Err,
        n <= m,
    ensures
        noted_all(acc, bs, col, m, log) == noted_all(acc, bs, col, n, log),
    decreases m,
{
    if n < m {
        lemma_noted_all_stops(acc, bs, col, n, (m - 1) as nat, log);
    }
}

/// The function that a statistic aggregates by.
pub open spec fn stat_func(median: bool) -> AggFunc {
    if median {
        AggFunc::Pct(50)
    } else {
        AggFunc::Avg
    }
}

fn note_cells(acc: &mut AggAcc, cells: &Vec<Value>, host: &Answers) -> (r: Result<(), Ask>)
    requires
        old(acc).wf(),
    ensures
        final(acc).wf(),
        match (r, noted(old(acc)@, data(cells@), cells@.len(), host@)) {
            (Ok(_), Ok(a)) => final(acc)@ == a,
            (Err(a), Err(q)) => a@ == q,
            _ => false,
        },
{
    let ghost start = acc@;
    for i in 0..cells.len()
        invariant
            acc.wf(),
            start == old(acc)@,
            noted(start, data(cells@), i as nat, host@) == Ok::<Acc, Query>(acc@),
    {
        match number_of_cell(&cells[i], host) {
            Err(a) => {
                proof {
                    lemma_noted_stops(start, data(cells@), (i + 1) as nat, cells@.len(), host@);
                }
                return Err(a);
            },
            Ok(None) => {},
            Ok(Some(x)) => {
                proof {
                    reveal_strlit("");
                    assert(""@ =~= Seq::empty());
                }
                acc.observe(&Value::F64(x), "");
            },
        }
    }
    Ok(())
}

fn note_chunks(chunks: &Vec<Chunk>, ci: usize, median: bool, host: &Answers) -> (r: Result<AggAcc, Ask>)
    ensures
        match (
            r,
            noted_all(
                Acc::empty(stat_func(median)),
                batches(chunks@),
                ci as int,
                chunks@.len(),
                host@,
            ),
        ) {
            (Ok(acc), Ok(a)) => acc@ == a && acc.wf(),
            (Err(a), Err(q)) => a@ == q,
            _ => false,
        },
{
    let ghost bs = batches(chunks@);
    let mut acc: AggAcc = AggAcc::new(
        if median {
            AggFunc::Pct(50)
        } else {
            AggFunc::Avg
        },
    );
    let ghost start = acc@;
    for n in 0..chunks.len()
        invariant
            bs == batches(chunks@),
            acc.wf(),
            start == Acc::empty(stat_func(median)),
            noted_all(start, bs, ci as int, n as nat, host@) == Ok::<Acc, Query>(acc@),
    {
        let c: &Chunk = &chunks[n];
        assert(bs[n as int] == c@);
        if ci < c.columns.len() {
            assert(c@.columns[ci as int] == c.columns@[ci as int]@);
            if matches!(c.columns[ci].dtype, DataType::Str) {
                match note_cells(&mut acc, &c.columns[ci].cells, host) {
                    Err(a) => {
                        proof {
                            lemma_noted_all_stops(
                                start,
                                bs,
                                ci as int,
                                (n + 1) as nat,
                                chunks@.len(),
                                host@,
                            );
                        }
                        return Err(a);
                    },
                    Ok(_) => {},
                }
            }
        }
    }
    Ok(acc)
}

/// Did the aggregate note a number?
pub open spec fn any_noted(a: Acc) -> bool {
    a.n > 0 || a.pending.len() > 0
}

/// The cells with those of no visible text replaced.
pub open spec fn refilled(cells: Seq<Datum>, value: Seq<char>) -> Seq<Datum> {
    Seq::new(
        cells.len(),
        |i: int|
            match cells[i] {
                Datum::Null => Datum::Str(value),
                Datum::Str(t) => if trimmed(t).len() == 0 {
                    Datum::Str(value)
                } else {
                    cells[i]
                },
                _ => cells[i],
            },
    )
}

/// A chunk with a column refilled, where that holds text.
pub open spec fn refilled_chunk(b: Batch, col: int, value: Seq<char>) -> Batch {
    if col < b.columns.len() && b.columns[col].dtype is Str {
        with_cells(b, col, refilled(b.columns[col].cells, value))
    } else {
        b
    }
}

fn refill(chunk: &Chunk, ci: usize, value: &str) -> (r: Chunk)
    requires
        chunk@.wf(),
    ensures
        r@ == refilled_chunk(chunk@, ci as int, value@),
        r@.wf(),
{
    if ci >= chunk.columns.len() {
        return chunk.dup();
    }
    let col: &Column = &chunk.columns[ci];
    assert(chunk@.columns[ci as int] == col@);
    if !matches!(col.dtype, DataType::Str) {
        return chunk.dup();
    }
    let mut cells: Vec<Value> = Vec::new();
    for r in 0..chunk.len
        invariant
            chunk@.wf(),
            ci < chunk@.columns.len(),
            chunk@.columns[ci as int] == col@,
            col.dtype is Str,
            cells@.len() == r,
            forall|k: int| 0 <= k < r ==> (#[trigger] cells@[k])@ == refilled(col@.cells, value@)[k],
            forall|k: int| 0 <= k < r ==> fits((#[trigger] cells@[k])@, col.dtype),
    {
        assert(col@.typed() && col@.cells.len() == chunk.len);
        assert(fits(col@.cells[r as int], col.dtype));
        let empty: bool = match &col.cells[r] {
            Value::Null => true,
            Value::Str(t) => {
                let s: String = trim(t.as_str());
                is_blank(s.as_str())
            },
            _ => false,
        };
        if empty {
            cells.push(Value::Str(owned(value)));
        } else {
            cells.push(col.cells[r].dup());
        }
    }
    assert(col@.cells.len() == chunk.len);
    assert(data(cells@) =~= refilled(col@.cells, value@));
    replace_cells(chunk, ci, cells)
}

/// The warning that there is nothing to learn a statistic from.
pub open spec fn no_numbers(c: CtxV, name: Seq<char>, median: bool) -> CtxV {
    c.raised(
        c.event(
            Severity::Warn,
            ErrorScope::Chunk,
            "fill "@ + name + if median {
                ": no numeric values to compute median"@
            } else {
                ": no numeric values to compute mean"@
            },
        ),
    )
}

/// `fill col mean|median`: blank cells of a text column become a statistic of
/// the numbers in the whole column.
pub struct FillStat {
    pub col: String,
    pub median: bool,
    pub buf: Vec<Chunk>,
    pub warned: bool,
}

/// The text that fills the blanks; `None` where there are no numbers.
pub open spec fn fill_value(bs: Seq<Batch>, col: int, median: bool, log: Log) -> Result<
    Option<Seq<char>>,
    Query,
> {
    match noted_all(Acc::empty(stat_func(median)), bs, col, bs.len(), log) {
        Err(q) => Err(q),
        Ok(a) => if !any_noted(a) {
            Ok(None)
        } else {
            match a.number(log) {
                Err(q) => Err(q),
                Ok(x) => match stat_text(x, log) {
                    Err(q) => Err(q),
                    Ok(t) => Ok(Some(t)),
                },
            }
        },
    }
}

impl FillStat {
    /// Every chunk held back is well formed.
    pub open spec fn wf(&self) -> bool {
        all_wf(batches(self.buf@))
    }

    /// Nothing held back.
    pub fn new(col: String, median: bool) -> (r: FillStat)
        ensures
            r.wf(),
            r.col == col,
            r.median == median,
            r.buf@.len() == 0,
            !r.warned,
    {
        FillStat { col, median, buf: Vec::new(), warned: false }
    }

    /// Holds a chunk back.
    pub fn process(&mut self, chunk: Chunk)
        requires
            old(self).wf(),
            chunk@.wf(),
        ensures
            final(self).wf(),
            batches(final(self).buf@) == batches(old(self).buf@).push(chunk@),
            final(self).col == old(self).col,
            final(self).median == old(self).median,
            final(self).warned == old(self).warned,
    {
        let ghost before = batches(self.buf@);
        self.buf.push(chunk);
        proof {
            let after = batches(self.buf@);
            assert(after =~= before.push(chunk@));
            assert forall|i: int| 0 <= i < after.len() implies (#[trigger] after[i]).wf() by {
                if i < before.len() {
                    assert(before[i].wf());
                }
            }
        }
    }

    fn value(&self, ci: usize, host: &Answers) -> (r: Result<Option<String>, Ask>)
        ensures
            agree(
                r,
                fill_value(batches(self.buf@), ci as int, self.median, host@),
                |a: Option<String>, b: Option<Seq<char>>| carry_view(a) == b,
            ),
    {
        match note_chunks(&self.buf, ci, self.median, host) {
            Err(a) => Err(a),
            Ok(acc) => {
                if acc.n <= 0 && acc.pending.len() == 0 {
                    assert(acc@.n == acc.n && acc@.pending.len() == acc.pending@.len());
                    return Ok(None);
                }
                assert(acc@.n == acc.n && acc@.pending.len() == acc.pending@.len());
                match acc.num_value(host) {
                    Err(a) => Err(a),
                    Ok(x) => match format_stat(x, host) {
                        Err(a) => Err(a),
                        Ok(t) => Ok(Some(t)),
                    },
                }
            },
        }
    }

    /// Puts out the chunks held back, with the blanks filled. A question leaves
    /// everything as it was.
    pub fn finish(&mut self, ctx: &mut OpCtx, host: &Answers) -> (r: Result<Vec<Chunk>, Ask>)
        requires
            old(self).wf(),
        ensures
            final(self).wf(),
            final(self).col == old(self).col,
            final(self).median == old(self).median,
            final(self).warned == (old(self).warned || (old(self).buf@.len() > 0 && index_in(
                old(self).buf@[0]@.fields,
                old(self).col@,
            ) is None)),
            ({
                let bs = batches(old(self).buf@);
                if bs.len() == 0 {
                    r matches Ok(v) && v@.len() == 0 && final(ctx)@ == old(ctx)@ && *final(self)
                        == *old(self)
                } else {
                    match index_in(bs[0].fields, old(self).col@) {
                        None => r matches Ok(v) && batches(v@) == bs && final(self).buf@.len() == 0
                            && final(ctx)@ == (if old(self).warned {
                            old(ctx)@
                        } else {
                            fill_warned(old(ctx)@, old(self).col@)
                        }),
                        Some(ci) => if !(bs[0].columns[ci].dtype is Str) {
                            r matches Ok(v) && batches(v@) == bs && final(self).buf@.len() == 0
                                && final(ctx)@ == old(ctx)@
                        } else {
                            match (r, fill_value(bs, ci, old(self).median, host@)) {
                                (Ok(v), Ok(None)) => batches(v@) == bs && final(self).buf@.len()
                                    == 0 && final(ctx)@ == no_numbers(
                                    old(ctx)@,
                                    old(self).col@,
                                    old(self).median,
                                ),
                                (Ok(v), Ok(Some(t))) => {
                                    &&& v@.len() == bs.len()
                                    &&& forall|k: int|
                                        0 <= k < bs.len() ==> (#[trigger] v@[k])@ == refilled_chunk(
                                            bs[k],
                                            ci,
                                            t,
                                        )
                                    &&& final(self).buf@.len() == 0
                                    &&& final(ctx)@ == old(ctx)@
                                },
                                (Err(a), Err(q)) => a@ == q && *final(self) == *old(self)
                                    && final(ctx)@ == old(ctx)@,
                                _ => false,
                            }
                        },
                    }
                }
            }),
            r matches Ok(v) ==> all_wf(batches(v@)),
    {
        let mut chunks: Vec<Chunk> = Vec::new();
        if self.buf.len() == 0 {
            return Ok(chunks);
        }
        let ghost bs = batches(self.buf@);
        assert(bs[0] == self.buf@[0]@);
        assert(bs[0].wf());
        let found: Option<usize> = index_of(&self.buf[0].fields, self.col.as_str());
        let ci: usize = match found {
            None => {
                if !self.warned {
                    self.warned = true;
                    warn_unknown(ctx, self.col.as_str());
                }
                std::mem::swap(&mut chunks, &mut self.buf);
                return Ok(chunks);
            },
            Some(i) => i,
        };
        assert(bs[0].columns[ci as int] == self.buf@[0].columns@[ci as int]@);
        if !matches!(self.buf[0].columns[ci].dtype, DataType::Str) {
            std::mem::swap(&mut chunks, &mut self.buf);
            return Ok(chunks);
        }
        match self.value(ci, host) {
            Err(a) => Err(a),
            Ok(None) => {
                let m: String = message3(
                    "fill ",
                    self.col.as_str(),
                    if self.median {
                        ": no numeric values to compute median"
                    } else {
                        ": no numeric values to compute mean"
                    },
                );
                ctx.warn(m);
                std::mem::swap(&mut chunks, &mut self.buf);
                Ok(chunks)
            },
            Ok(Some(t)) => {
                std::mem::swap(&mut chunks, &mut self.buf);
                let mut out: Vec<Chunk> = Vec::new();
                for k in 0..chunks.len()
                    invariant
                        bs == batches(chunks@),
                        all_wf(bs),
                        out@.len() == k,
                        forall|j: int|
                            0 <= j < k ==> (#[trigger] out@[j])@ == refilled_chunk(
                                bs[j],
                                ci as int,
                                t@,
                            ) && out@[j]@.wf(),
                {
                    assert(bs[k as int] == chunks@[k as int]@);
                    assert(bs[k as int].wf());
                    out.push(refill(&chunks[k], ci, t.as_str()));
                }
                Ok(out)
            },
        }
    }
}

} // verus!
