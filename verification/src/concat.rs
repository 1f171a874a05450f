//! Buffered chunks put together.
use vstd::prelude::*;
use crate::chunk::{batches, dup_fields, lanes, Batch, Chunk, Column, Lane, Mode};
use crate::rows::all_wf;
use crate::shape::row_count;
use crate::value::{data, DataType, Datum, Value};

verus! {

/// Do two chunks have columns of the same types?
pub open spec fn alike(a: Batch, b: Batch) -> bool {
    &&& a.fields.len() == b.fields.len()
    &&& a.columns.len() == b.columns.len()
    &&& forall|i: int|
        0 <= i < a.columns.len() ==> (#[trigger] a.columns[i]).dtype == b.columns[i].dtype
}

/// Do two chunks have columns of the same types?
pub fn are_alike(a: &Chunk, b: &Chunk) -> (r: bool)
    ensures
        r == alike(a@, b@),
{
    if a.fields.len() != b.fields.len() || a.columns.len() != b.columns.len() {
        return false;
    }
    for i in 0..a.columns.len()
        invariant
            a.columns@.len() == b.columns@.len(),
            forall|k: int| 0 <= k < i ==> (#[trigger] a@.columns[k]).dtype == b@.columns[k].dtype,
    {
        assert(a@.columns[i as int] == a.columns@[i as int]@);
        assert(b@.columns[i as int] == b.columns@[i as int]@);
        if a.columns[i].dtype != b.columns[i].dtype {
            return false;
        }
    }
    true
}

/// Well formed chunks that all have columns of the same types.
pub open spec fn stack(bs: Seq<Batch>) -> bool {
    &&& all_wf(bs)
    &&& forall|i: int| 0 <= i < bs.len() ==> alike(bs[0], #[trigger] bs[i])
}

/// The cells of a column over the first `n` chunks, in order.
pub open spec fn stacked_cells(bs: Seq<Batch>, col: int, n: nat) -> Seq<Datum>
    decreases n,
{
    if n == 0 {
        Seq::empty()
    } else {
        stacked_cells(bs, col, (n - 1) as nat) + bs[n - 1].columns[col].cells
    }
}

/// The number of rows of the first `n` chunks.
pub open spec fn stacked_len(bs: Seq<Batch>, n: nat) -> nat
    decreases n,
{
    if n == 0 {
        0
    } else {
        stacked_len(bs, (n - 1) as nat) + bs[n - 1].len
    }
}

/// The columns of all chunks, one below the other.
pub open spec fn stacked_columns(bs: Seq<Batch>) -> Seq<Lane> {
    Seq::new(
        bs[0].columns.len(),
        |i: int| Lane { dtype: bs[0].columns[i].dtype, cells: stacked_cells(bs, i, bs.len()) },
    )
}

/// All chunks in one, in the order in which they came.
pub open spec fn stacked(bs: Seq<Batch>) -> Batch {
    Batch {
        fields: bs[0].fields,
        columns: stacked_columns(bs),
        len: row_count(stacked_columns(bs)),
        id: 0,
        mode: Mode::Normal,
        source: None,
    }
}

/// A column of the stack has a row for each row of the chunks, of its type.
pub proof fn lemma_stacked_cells(bs: Seq<Batch>, col: int, n: nat)
    requires
        stack(bs),
        n <= bs.len(),
        0 <= col < bs[0].columns.len(),
    ensures
        stacked_cells(bs, col, n).len() == stacked_len(bs, n),
        forall|k: int|
            0 <= k < stacked_cells(bs, col, n).len() ==> crate::value::fits(
                #[trigger] stacked_cells(bs, col, n)[k],
                bs[0].columns[col].dtype,
            ),
    decreases n,
{
    if n > 0 {
        lemma_stacked_cells(bs, col, (n - 1) as nat);
        let b = bs[n - 1];
        assert(b.wf());
        assert(alike(bs[0], b));
        assert(bs[0].columns[col].dtype == b.columns[col].dtype);
        assert(b.columns[col].typed());
    }
}

/// Chunks put together make a well formed chunk.
pub proof fn lemma_stacked_wf(bs: Seq<Batch>)
    requires
        stack(bs),
        bs.len() > 0,
    ensures
        stacked(bs).wf(),
        bs[0].columns.len() > 0 ==> stacked(bs).len == stacked_len(bs, bs.len()),
{
    let s = stacked(bs);
    assert(bs[0].wf());
    assert forall|i: int| 0 <= i < s.columns.len() implies {
        &&& (#[trigger] s.columns[i]).cells.len() == s.len
        &&& s.columns[i].typed()
    } by {
        lemma_stacked_cells(bs, i, bs.len());
        lemma_stacked_cells(bs, 0, bs.len());
    }
    if bs[0].columns.len() > 0 {
        lemma_stacked_cells(bs, 0, bs.len());
    }
    assert forall|i: int| 0 <= i < s.fields.len() implies (#[trigger] s.columns[i]).dtype
        == s.fields[i].dtype by {
        assert(bs[0].columns[i].dtype == bs[0].fields[i].dtype);
    }
}

fn stack_column(bufs: &Vec<Chunk>, col: usize) -> (r: Column)
    requires
        stack(batches(bufs@)),
        bufs@.len() > 0,
        col < bufs@[0]@.columns.len(),
    ensures
        r@ == stacked_columns(batches(bufs@))[col as int],
{
    let ghost bs = batches(bufs@);
    let dtype: DataType = bufs[0].columns[col].dtype;
    assert(bs[0].columns[col as int] == bufs@[0].columns@[col as int]@);
    let mut cells: Vec<Value> = Vec::new();
    assert(data(cells@) =~= Seq::empty());
    for n in 0..bufs.len()
        invariant
            bs == batches(bufs@),
            stack(bs),
            bufs@.len() > 0,
            col < bs[0].columns.len(),
            data(cells@) == stacked_cells(bs, col as int, n as nat),
    {
        let c: &Chunk = &bufs[n];
        assert(bs[n as int] == c@);
        assert(alike(bs[0], bs[n as int]));
        let from: &Column = &c.columns[col];
        assert(c@.columns[col as int] == from@);
        let ghost before = data(cells@);
        for i in 0..from.cells.len()
            invariant
                data(cells@) == before + from@.cells.take(i as int),
        {
            let ghost sofar = data(cells@);
            cells.push(from.cells[i].dup());
            assert(data(cells@) =~= sofar.push(from.cells@[i as int]@));
            assert(from@.cells[i as int] == from.cells@[i as int]@);
            assert(from@.cells.take(i + 1) =~= from@.cells.take(i as int).push(
                from@.cells[i as int],
            ));
        }
        assert(from@.cells.take(from@.cells.len() as int) =~= from@.cells);
    }
    Column { dtype, cells }
}

/// Buffered chunks of the same columns in one chunk; nothing where there are
/// none.
pub fn concat_chunks(bufs: &Vec<Chunk>) -> (r: Option<Chunk>)
    requires
        stack(batches(bufs@)),
    ensures
        match r {
            None => bufs@.len() == 0,
            Some(c) => bufs@.len() > 0 && c@ == stacked(batches(bufs@)) && c@.wf(),
        },
{
    if bufs.len() == 0 {
        return None;
    }
    let ghost bs = batches(bufs@);
    assert(bs[0] == bufs@[0]@);
    let mut columns: Vec<Column> = Vec::new();
    let width: usize = bufs[0].columns.len();
    for i in 0..width
        invariant
            width == bs[0].columns.len(),
            bs == batches(bufs@),
            stack(bs),
            bufs@.len() > 0,
            bs[0] == bufs@[0]@,
            columns@.len() == i,
            forall|k: int| 0 <= k < i ==> (#[trigger] columns@[k])@ == stacked_columns(bs)[k],
    {
        columns.push(stack_column(bufs, i));
    }
    assert(lanes(columns@) =~= stacked_columns(bs));
    let len: usize = if columns.len() == 0 {
        0
    } else {
        assert(columns@[0]@ == stacked_columns(bs)[0]);
        columns[0].len()
    };
    proof {
        lemma_stacked_wf(bs);
    }
    Some(
        Chunk {
            fields: dup_fields(&bufs[0].fields),
            columns,
            len,
            id: 0,
            mode: Mode::Normal,
            source: None,
        },
    )
}

} // verus!
