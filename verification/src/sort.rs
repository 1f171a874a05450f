//! The blocking sort.
use vstd::prelude::*;
use vstd::seq_lib::*;
use vstd::multiset::Multiset;
use crate::chunk::{batches, gathered, index_in, index_of, Batch, Chunk, FieldV, Lane};
use crate::compare::{lemma_text_order_equal, lemma_text_order_less, lemma_text_order_reversed, rank_i64, rank_texts, reversed, text_order};
use crate::concat::{are_alike, alike, concat_chunks, stack, stacked};
use crate::event::{message3, CtxV, ErrorScope, OpCtx, Severity};
use crate::float::{rank_i128, rank_int, Rank, F64};
use crate::rows::all_wf;
use crate::value::{fits, DataType, Datum, Value};

verus! {

/// How two cells of one column rank. A missing cell ranks first; not-a-number
/// ranks equal to everything. The cells of a column share scale and unit, so
/// the integers rank as the values do.
pub open spec fn cell_rank(a: Datum, b: Datum) -> Rank {
    match (a, b) {
        (Datum::Null, Datum::Null) => Rank::Equal,
        (Datum::Null, _) => Rank::Less,
        (_, Datum::Null) => Rank::Greater,
        (Datum::Bool(x), Datum::Bool(y)) => rank_int(
            if x {
                1
            } else {
                0
            },
            if y {
                1
            } else {
                0
            },
        ),
        (Datum::I64(x), Datum::I64(y)) => rank_int(x as int, y as int),
        (Datum::F64(x), Datum::F64(y)) => match x.order(y) {
            Some(r) => r,
            None => Rank::Equal,
        },
        (Datum::Dec(x), Datum::Dec(y)) => rank_int(x.unscaled as int, y.unscaled as int),
        (Datum::DateTime(x), Datum::DateTime(y)) => rank_int(x.ticks as int, y.ticks as int),
        (Datum::Duration(x), Datum::Duration(y)) => rank_int(x.ticks as int, y.ticks as int),
        (Datum::Date(x), Datum::Date(y)) => rank_int(x.epoch_day as int, y.epoch_day as int),
        (Datum::Time(x), Datum::Time(y)) => rank_int(x.ticks as int, y.ticks as int),
        (Datum::Str(x), Datum::Str(y)) => text_order(x, y),
        _ => Rank::Equal,
    }
}

fn flag(b: bool) -> (r: i64)
    ensures
        r == if b {
            1int
        } else {
            0
        },
{
    if b {
        1
    } else {
        0
    }
}

/// How two cells of one column rank (see [`cell_rank`]).
pub fn rank_cells(a: &Value, b: &Value) -> (r: Rank)
    ensures
        r == cell_rank(a@, b@),
{
    match (a, b) {
        (Value::Null, Value::Null) => Rank::Equal,
        (Value::Null, _) => Rank::Less,
        (_, Value::Null) => Rank::Greater,
        (Value::Bool(x), Value::Bool(y)) => rank_i64(flag(*x), flag(*y)),
        (Value::I64(x), Value::I64(y)) => rank_i64(*x, *y),
        (Value::F64(x), Value::F64(y)) => match x.compare(*y) {
            Some(r) => r,
            None => Rank::Equal,
        },
        (Value::Dec(x), Value::Dec(y)) => rank_i128(x.unscaled, y.unscaled),
        (Value::DateTime(x), Value::DateTime(y)) => rank_i64(x.ticks, y.ticks),
        (Value::Duration(x), Value::Duration(y)) => rank_i64(x.ticks, y.ticks),
        (Value::Date(x), Value::Date(y)) => rank_i64(x.epoch_day as i64, y.epoch_day as i64),
        (Value::Time(x), Value::Time(y)) => rank_i64(x.ticks, y.ticks),
        (Value::Str(x), Value::Str(y)) => rank_texts(x.as_str(), y.as_str()),
        _ => Rank::Equal,
    }
}

/// A sort key: a column and whether it descends.
pub type Key = (usize, bool);

/// How two rows rank by the first `n` keys, the first key first.
pub open spec fn row_rank(columns: Seq<Lane>, keys: Seq<Key>, a: int, b: int) -> Rank
    decreases keys.len(),
{
    if keys.len() == 0 {
        Rank::Equal
    } else {
        let up = row_rank(columns, keys.drop_last(), a, b);
        if up == Rank::Equal {
            let (col, desc) = keys.last();
            let r = cell_rank(columns[col as int].cells[a], columns[col as int].cells[b]);
            if desc {
                reversed(r)
            } else {
                r
            }
        } else {
            up
        }
    }
}

fn turn(r: Rank) -> (o: Rank)
    ensures
        o == reversed(r),
{
    match r {
        Rank::Less => Rank::Greater,
        Rank::Equal => Rank::Equal,
        Rank::Greater => Rank::Less,
    }
}

/// The keys are columns of the chunk.
pub open spec fn keys_fit(b: Batch, keys: Seq<Key>) -> bool {
    forall|i: int| 0 <= i < keys.len() ==> (#[trigger] keys[i]).0 < b.columns.len()
}

/// How two rows rank (see [`row_rank`]).
pub fn rank_rows(chunk: &Chunk, keys: &Vec<Key>, a: usize, b: usize) -> (r: Rank)
    requires
        chunk@.wf(),
        keys_fit(chunk@, keys@),
        a < chunk.len,
        b < chunk.len,
    ensures
        r == row_rank(chunk@.columns, keys@, a as int, b as int),
{
    for n in 0..keys.len()
        invariant
            chunk@.wf(),
            keys_fit(chunk@, keys@),
            a < chunk.len,
            b < chunk.len,
            row_rank(chunk@.columns, keys@.take(n as int), a as int, b as int) == Rank::Equal,
    {
        let (col, desc): (usize, bool) = keys[n];
        assert(keys@[n as int].0 < chunk@.columns.len());
        assert(chunk@.columns[col as int] == chunk.columns@[col as int]@);
        let o: Rank = rank_cells(&chunk.columns[col].cells[a], &chunk.columns[col].cells[b]);
        let o: Rank = if desc {
            turn(o)
        } else {
            o
        };
        proof {
            assert(keys@.take(n + 1).drop_last() =~= keys@.take(n as int));
            assert(keys@.take(n + 1).last() == keys@[n as int]);
        }
        if o != Rank::Equal {
            proof {
                lemma_rank_decided(chunk@.columns, keys@, a as int, b as int, n + 1);
            }
            return o;
        }
    }
    assert(keys@.take(keys@.len() as int) =~= keys@);
    Rank::Equal
}

proof fn lemma_rank_decided(columns: Seq<Lane>, keys: Seq<Key>, a: int, b: int, n: int)
    requires
        0 <= n <= keys.len(),
        row_rank(columns, keys.take(n), a, b) != Rank::Equal,
    ensures
        row_rank(columns, keys, a, b) == row_rank(columns, keys.take(n), a, b),
    decreases keys.len(),
{
    if n < keys.len() {
        assert(keys.drop_last().take(n) =~= keys.take(n));
        lemma_rank_decided(columns, keys.drop_last(), a, b, n);
    } else {
        assert(keys.take(n) =~= keys);
    }
}

// ------------------------------------------------------ the order of rows

/// No key column holds not-a-number in the first `n` rows, so that the rows can
/// be ordered.
pub open spec fn orderable(columns: Seq<Lane>, keys: Seq<Key>, n: int) -> bool {
    forall|k: int, i: int|
        0 <= k < keys.len() && 0 <= i < n ==> !(#[trigger] columns[keys[k].0 as int].cells[i]
            matches Datum::F64(x) && x.is_nan())
}

/// Three ranks that go together: of a and b, of b and c, of a and c.
pub open spec fn chained(ab: Rank, bc: Rank, ac: Rank) -> bool {
    &&& ab == Rank::Equal ==> ac == bc
    &&& bc == Rank::Equal ==> ac == ab
    &&& ab == bc ==> ac == ab
}

proof fn lemma_cells_chain(a: Datum, b: Datum, c: Datum, ty: DataType)
    requires
        fits(a, ty),
        fits(b, ty),
        fits(c, ty),
        !(a matches Datum::F64(x) && x.is_nan()),
        !(b matches Datum::F64(x) && x.is_nan()),
        !(c matches Datum::F64(x) && x.is_nan()),
    ensures
        chained(cell_rank(a, b), cell_rank(b, c), cell_rank(a, c)),
        cell_rank(b, a) == reversed(cell_rank(a, b)),
{
    if let (Datum::Str(x), Datum::Str(y)) = (a, b) {
        lemma_text_order_reversed(x, y);
        lemma_text_order_equal(x, y);
        if let Datum::Str(z) = c {
            lemma_text_order_equal(y, z);
            lemma_text_order_equal(x, z);
            lemma_text_order_reversed(y, z);
            lemma_text_order_reversed(x, z);
            if text_order(x, y) == Rank::Less && text_order(y, z) == Rank::Less {
                lemma_text_order_less(x, y, z);
            }
            if text_order(x, y) == Rank::Greater && text_order(y, z) == Rank::Greater {
                lemma_text_order_less(z, y, x);
            }
        }
    }
}

proof fn lemma_rows_chain(b: Batch, keys: Seq<Key>, x: int, y: int, z: int)
    requires
        b.wf(),
        keys_fit(b, keys),
        orderable(b.columns, keys, b.len as int),
        0 <= x < b.len,
        0 <= y < b.len,
        0 <= z < b.len,
    ensures
        chained(
            row_rank(b.columns, keys, x, y),
            row_rank(b.columns, keys, y, z),
            row_rank(b.columns, keys, x, z),
        ),
        row_rank(b.columns, keys, y, x) == reversed(row_rank(b.columns, keys, x, y)),
    decreases keys.len(),
{
    if keys.len() > 0 {
        let front = keys.drop_last();
        assert(keys_fit(b, front)) by {
            assert forall|i: int| 0 <= i < front.len() implies (#[trigger] front[i]).0
                < b.columns.len() by {
                assert(front[i] == keys[i]);
            }
        }
        assert(orderable(b.columns, front, b.len as int)) by {
            assert forall|k: int, i: int| 0 <= k < front.len() && 0 <= i < b.len implies !(
            #[trigger] b.columns[front[k].0 as int].cells[i] matches Datum::F64(v) && v.is_nan()) by {
                assert(front[k] == keys[k]);
                assert(!(b.columns[keys[k].0 as int].cells[i] matches Datum::F64(v) && v.is_nan()));
            }
        }
        lemma_rows_chain(b, front, x, y, z);
        let k = keys.len() - 1;
        assert(keys[k].0 < b.columns.len());
        let lane = b.columns[keys[k].0 as int];
        assert(lane.typed());
        assert(!(b.columns[keys[k].0 as int].cells[x] matches Datum::F64(v) && v.is_nan()));
        assert(!(b.columns[keys[k].0 as int].cells[y] matches Datum::F64(v) && v.is_nan()));
        assert(!(b.columns[keys[k].0 as int].cells[z] matches Datum::F64(v) && v.is_nan()));
        assert(fits(lane.cells[x], lane.dtype));
        assert(fits(lane.cells[y], lane.dtype));
        assert(fits(lane.cells[z], lane.dtype));
        lemma_cells_chain(lane.cells[x], lane.cells[y], lane.cells[z], lane.dtype);
        lemma_cells_chain(lane.cells[y], lane.cells[z], lane.cells[x], lane.dtype);
        lemma_cells_chain(lane.cells[z], lane.cells[x], lane.cells[y], lane.dtype);
    }
}

/// Does row `a` come before row `b`: it ranks before it, or equal and came first?
pub open spec fn before(columns: Seq<Lane>, keys: Seq<Key>, a: int, b: int) -> bool {
    let r = row_rank(columns, keys, a, b);
    r == Rank::Less || (r == Rank::Equal && a < b)
}

/// The rows stand in their order.
pub open spec fn in_order(columns: Seq<Lane>, keys: Seq<Key>, rows: Seq<usize>) -> bool {
    forall|i: int, j: int|
        0 <= i < j < rows.len() ==> before(columns, keys, #[trigger] rows[i] as int, #[trigger] rows[j] as int)
}

/// The numbers from `lo` to `hi`.
pub open spec fn span(lo: usize, hi: usize) -> Seq<usize> {
    Seq::new((hi - lo) as nat, |i: int| (lo + i) as usize)
}

proof fn lemma_before_chains(b: Batch, keys: Seq<Key>, x: int, y: int, z: int)
    requires
        b.wf(),
        keys_fit(b, keys),
        orderable(b.columns, keys, b.len as int),
        0 <= x < b.len,
        0 <= y < b.len,
        0 <= z < b.len,
        before(b.columns, keys, x, y),
        before(b.columns, keys, y, z),
    ensures
        before(b.columns, keys, x, z),
{
    lemma_rows_chain(b, keys, x, y, z);
}

/// Every number is below the bound.
spec fn below(rows: Seq<usize>, lo: int, hi: int) -> bool {
    forall|i: int| 0 <= i < rows.len() ==> lo <= #[trigger] rows[i] < hi
}

/// What a merge has put out so far, and what is left of both parts.
spec fn merging(b: Batch, keys: Seq<Key>, x: Seq<usize>, y: Seq<usize>, out: Seq<usize>, i: int, j: int) -> bool {
    &&& in_order(b.columns, keys, out)
    &&& forall|p: int, q: int|
        0 <= p < out.len() && i <= q < x.len() ==> before(
            b.columns,
            keys,
            #[trigger] out[p] as int,
            #[trigger] x[q] as int,
        )
    &&& forall|p: int, q: int|
        0 <= p < out.len() && j <= q < y.len() ==> before(
            b.columns,
            keys,
            #[trigger] out[p] as int,
            #[trigger] y[q] as int,
        )
}

proof fn lemma_merge_left(
    b: Batch,
    keys: Seq<Key>,
    x: Seq<usize>,
    y: Seq<usize>,
    out: Seq<usize>,
    i: int,
    j: int,
    lo: int,
    mid: int,
    hi: int,
)
    requires
        b.wf(),
        keys_fit(b, keys),
        orderable(b.columns, keys, b.len as int),
        0 <= lo <= mid <= hi <= b.len,
        below(x, lo, mid),
        below(y, mid, hi),
        in_order(b.columns, keys, x),
        in_order(b.columns, keys, y),
        merging(b, keys, x, y, out, i, j),
        0 <= i < x.len(),
        0 <= j <= y.len(),
        j < y.len() ==> row_rank(b.columns, keys, y[j] as int, x[i] as int) != Rank::Less,
    ensures
        merging(b, keys, x, y, out.push(x[i]), i + 1, j),
{
    let o = out.push(x[i]);
    assert forall|p: int, q: int| 0 <= p < q < o.len() implies before(
        b.columns,
        keys,
        #[trigger] o[p] as int,
        #[trigger] o[q] as int,
    ) by {
        if q < out.len() {
            assert(before(b.columns, keys, out[p] as int, out[q] as int));
        } else {
            assert(before(b.columns, keys, out[p] as int, x[i] as int));
        }
    }
    assert forall|p: int, q: int| 0 <= p < o.len() && i + 1 <= q < x.len() implies before(
        b.columns,
        keys,
        #[trigger] o[p] as int,
        #[trigger] x[q] as int,
    ) by {
        if p < out.len() {
            assert(before(b.columns, keys, out[p] as int, x[q] as int));
        } else {
            assert(before(b.columns, keys, x[i] as int, x[q] as int));
        }
    }
    assert forall|p: int, q: int| 0 <= p < o.len() && j <= q < y.len() implies before(
        b.columns,
        keys,
        #[trigger] o[p] as int,
        #[trigger] y[q] as int,
    ) by {
        if p < out.len() {
            assert(before(b.columns, keys, out[p] as int, y[q] as int));
        } else {
            assert(lo <= x[i] < mid);
            assert(mid <= y[j] < hi);
            assert(mid <= y[q] < hi);
            lemma_rows_chain(b, keys, y[j] as int, x[i] as int, x[i] as int);
            assert(before(b.columns, keys, x[i] as int, y[j] as int));
            if q > j {
                assert(before(b.columns, keys, y[j] as int, y[q] as int));
                lemma_before_chains(b, keys, x[i] as int, y[j] as int, y[q] as int);
            }
        }
    }
}

proof fn lemma_merge_right(
    b: Batch,
    keys: Seq<Key>,
    x: Seq<usize>,
    y: Seq<usize>,
    out: Seq<usize>,
    i: int,
    j: int,
    lo: int,
    mid: int,
    hi: int,
)
    requires
        b.wf(),
        keys_fit(b, keys),
        orderable(b.columns, keys, b.len as int),
        0 <= lo <= mid <= hi <= b.len,
        below(x, lo, mid),
        below(y, mid, hi),
        in_order(b.columns, keys, x),
        in_order(b.columns, keys, y),
        merging(b, keys, x, y, out, i, j),
        0 <= i <= x.len(),
        0 <= j < y.len(),
        i < x.len() ==> row_rank(b.columns, keys, y[j] as int, x[i] as int) == Rank::Less,
    ensures
        merging(b, keys, x, y, out.push(y[j]), i, j + 1),
{
    let o = out.push(y[j]);
    assert forall|p: int, q: int| 0 <= p < q < o.len() implies before(
        b.columns,
        keys,
        #[trigger] o[p] as int,
        #[trigger] o[q] as int,
    ) by {
        if q < out.len() {
            assert(before(b.columns, keys, out[p] as int, out[q] as int));
        } else {
            assert(before(b.columns, keys, out[p] as int, y[j] as int));
        }
    }
    assert forall|p: int, q: int| 0 <= p < o.len() && i <= q < x.len() implies before(
        b.columns,
        keys,
        #[trigger] o[p] as int,
        #[trigger] x[q] as int,
    ) by {
        if p < out.len() {
            assert(before(b.columns, keys, out[p] as int, x[q] as int));
        } else {
            assert(lo <= x[i] < mid);
            assert(lo <= x[q] < mid);
            assert(mid <= y[j] < hi);
            if q > i {
                assert(before(b.columns, keys, x[i] as int, x[q] as int));
                lemma_before_chains(b, keys, y[j] as int, x[i] as int, x[q] as int);
            }
        }
    }
    assert forall|p: int, q: int| 0 <= p < o.len() && j + 1 <= q < y.len() implies before(
        b.columns,
        keys,
        #[trigger] o[p] as int,
        #[trigger] y[q] as int,
    ) by {
        if p < out.len() {
            assert(before(b.columns, keys, out[p] as int, y[q] as int));
        } else {
            assert(before(b.columns, keys, y[j] as int, y[q] as int));
        }
    }
}

/// Two ordered runs, the first of earlier rows, in one.
fn merge_runs(chunk: &Chunk, keys: &Vec<Key>, x: &Vec<usize>, y: &Vec<usize>, Ghost(lo): Ghost<int>, Ghost(mid): Ghost<int>, Ghost(hi): Ghost<int>) -> (out:
    Vec<usize>)
    requires
        chunk@.wf(),
        keys_fit(chunk@, keys@),
        0 <= lo <= mid <= hi <= chunk.len,
        below(x@, lo, mid),
        below(y@, mid, hi),
        orderable(chunk@.columns, keys@, chunk@.len as int) ==> in_order(
            chunk@.columns,
            keys@,
            x@,
        ) && in_order(chunk@.columns, keys@, y@),
    ensures
        out@.to_multiset() == x@.to_multiset().add(y@.to_multiset()),
        below(out@, lo, hi),
        orderable(chunk@.columns, keys@, chunk@.len as int) ==> in_order(
            chunk@.columns,
            keys@,
            out@,
        ),
{
    broadcast use group_to_multiset_ensures;

    let mut out: Vec<usize> = Vec::new();
    let mut i: usize = 0;
    let mut j: usize = 0;
    let ghost ok = orderable(chunk@.columns, keys@, chunk@.len as int);
    proof {
        assert(x@.take(0) =~= Seq::empty());
        assert(y@.take(0) =~= Seq::empty());
        assert(Seq::<usize>::empty().to_multiset() =~= Multiset::empty());
        assert(out@.to_multiset() =~= x@.take(0).to_multiset().add(y@.take(0).to_multiset()));
    }
    while i < x.len() || j < y.len()
        invariant
            chunk@.wf(),
            keys_fit(chunk@, keys@),
            ok == orderable(chunk@.columns, keys@, chunk@.len as int),
            0 <= lo <= mid <= hi <= chunk.len,
            below(x@, lo, mid),
            below(y@, mid, hi),
            below(out@, lo, hi),
            ok ==> in_order(chunk@.columns, keys@, x@) && in_order(chunk@.columns, keys@, y@),
            ok ==> merging(chunk@, keys@, x@, y@, out@, i as int, j as int),
            i <= x@.len(),
            j <= y@.len(),
            out@.to_multiset() == x@.take(i as int).to_multiset().add(
                y@.take(j as int).to_multiset(),
            ),
        decreases (x@.len() - i) + (y@.len() - j),
    {
        broadcast use group_to_multiset_ensures;

        let ghost sofar = out@;
        let left: bool = if i >= x.len() {
            false
        } else if j >= y.len() {
            true
        } else {
            assert(lo <= x@[i as int] < mid);
            assert(mid <= y@[j as int] < hi);
            rank_rows(chunk, keys, y[j], x[i]) != Rank::Less
        };
        if left {
            proof {
                if ok {
                    lemma_merge_left(
                        chunk@,
                        keys@,
                        x@,
                        y@,
                        sofar,
                        i as int,
                        j as int,
                        lo,
                        mid,
                        hi,
                    );
                }
                assert(x@.take(i + 1) =~= x@.take(i as int).push(x@[i as int]));
                assert(lo <= x@[i as int] < mid);
            }
            out.push(x[i]);
            i = i + 1;
            assert(out@.to_multiset() =~= x@.take(i as int).to_multiset().add(
                y@.take(j as int).to_multiset(),
            ));
        } else {
            proof {
                if ok {
                    lemma_merge_right(
                        chunk@,
                        keys@,
                        x@,
                        y@,
                        sofar,
                        i as int,
                        j as int,
                        lo,
                        mid,
                        hi,
                    );
                }
                assert(y@.take(j + 1) =~= y@.take(j as int).push(y@[j as int]));
                assert(mid <= y@[j as int] < hi);
            }
            out.push(y[j]);
            j = j + 1;
            assert(out@.to_multiset() =~= x@.take(i as int).to_multiset().add(
                y@.take(j as int).to_multiset(),
            ));
        }
    }
    assert(x@.take(x@.len() as int) =~= x@);
    assert(y@.take(y@.len() as int) =~= y@);
    out
}

/// The rows from `lo` to `hi` in their order.
fn sort_span(chunk: &Chunk, keys: &Vec<Key>, lo: usize, hi: usize) -> (out: Vec<usize>)
    requires
        chunk@.wf(),
        keys_fit(chunk@, keys@),
        lo <= hi <= chunk.len,
    ensures
        out@.to_multiset() == span(lo, hi).to_multiset(),
        below(out@, lo as int, hi as int),
        orderable(chunk@.columns, keys@, chunk@.len as int) ==> in_order(
            chunk@.columns,
            keys@,
            out@,
        ),
    decreases hi - lo,
{
    let mut out: Vec<usize> = Vec::new();
    if hi - lo == 0 {
        assert(out@ =~= span(lo, hi));
        return out;
    }
    if hi - lo == 1 {
        out.push(lo);
        assert(out@ =~= span(lo, hi));
        return out;
    }
    let mid: usize = lo + (hi - lo) / 2;
    let x = sort_span(chunk, keys, lo, mid);
    let y = sort_span(chunk, keys, mid, hi);
    let r = merge_runs(
        chunk,
        keys,
        &x,
        &y,
        Ghost(lo as int),
        Ghost(mid as int),
        Ghost(hi as int),
    );
    proof {
        assert(span(lo, hi) =~= span(lo, mid) + span(mid, hi));
        lemma_multiset_commutative(span(lo, mid), span(mid, hi));
    }
    r
}

/// The numbers of all rows, each once, in their order; in the order in which
/// they came where they rank equal. Where a key column holds not-a-number there
/// is no order to keep, and only the rows are the same.
pub open spec fn sorted_rows(b: Batch, keys: Seq<Key>, rows: Seq<usize>) -> bool {
    &&& rows.to_multiset() == span(0, b.len as usize).to_multiset()
    &&& orderable(b.columns, keys, b.len as int) ==> in_order(b.columns, keys, rows)
}

/// The numbers of all rows in their order (see [`sorted_rows`]).
pub fn sort_rows(chunk: &Chunk, keys: &Vec<Key>) -> (out: Vec<usize>)
    requires
        chunk@.wf(),
        keys_fit(chunk@, keys@),
    ensures
        sorted_rows(chunk@, keys@, out@),
        forall|i: int| 0 <= i < out@.len() ==> (#[trigger] out@[i]) < chunk.len,
{
    let len: usize = chunk.len;
    sort_span(chunk, keys, 0, len)
}

/// There is one way only to order the rows: the sort gives the same whatever
/// way it goes about it.
pub proof fn lemma_sorted_once(b: Batch, keys: Seq<Key>, x: Seq<usize>, y: Seq<usize>)
    requires
        b.wf(),
        keys_fit(b, keys),
        orderable(b.columns, keys, b.len as int),
        b.len <= usize::MAX,
        sorted_rows(b, keys, x),
        sorted_rows(b, keys, y),
    ensures
        x == y,
{
    lemma_span_below(b.len as usize, x);
    lemma_span_below(b.len as usize, y);
    lemma_unique(b, keys, x, y);
}

proof fn lemma_span_below(n: usize, x: Seq<usize>)
    requires
        x.to_multiset() == span(0, n).to_multiset(),
    ensures
        below(x, 0, n as int),
{
    broadcast use group_to_multiset_ensures;

    assert forall|i: int| 0 <= i < x.len() implies 0 <= #[trigger] x[i] < n by {
        assert(x.contains(x[i]));
        assert(x.to_multiset().count(x[i]) > 0);
        assert(span(0, n).contains(x[i]));
    }
}

proof fn lemma_unique(b: Batch, keys: Seq<Key>, x: Seq<usize>, y: Seq<usize>)
    requires
        b.wf(),
        keys_fit(b, keys),
        orderable(b.columns, keys, b.len as int),
        x.to_multiset() == y.to_multiset(),
        in_order(b.columns, keys, x),
        in_order(b.columns, keys, y),
        below(x, 0, b.len as int),
        below(y, 0, b.len as int),
    ensures
        x == y,
    decreases x.len(),
{
    broadcast use group_to_multiset_ensures;

    assert(x.len() == x.to_multiset().len());
    assert(y.len() == y.to_multiset().len());
    if x.len() == 0 {
        assert(x =~= y);
    } else {
        assert(x.contains(x[0]) && y.contains(y[0]));
        assert(x.to_multiset().count(x[0]) > 0 && y.to_multiset().count(y[0]) > 0);
        assert(y.contains(x[0]) && x.contains(y[0]));
        let j = choose|j: int| 0 <= j < y.len() && y[j] == x[0];
        let i = choose|i: int| 0 <= i < x.len() && x[i] == y[0];
        if x[0] != y[0] {
            assert(before(b.columns, keys, x[0] as int, x[i] as int));
            assert(before(b.columns, keys, y[0] as int, y[j] as int));
            lemma_rows_chain(b, keys, x[0] as int, y[0] as int, y[0] as int);
        }
        let (s, t) = (x.drop_first(), y.drop_first());
        assert(x =~= seq![x[0]] + s);
        assert(y =~= seq![y[0]] + t);
        lemma_multiset_commutative(seq![x[0]], s);
        lemma_multiset_commutative(seq![y[0]], t);
        assert(seq![x[0]].to_multiset().add(s.to_multiset()) == seq![x[0]].to_multiset().add(
            t.to_multiset(),
        ));
        assert(s.to_multiset() =~= t.to_multiset()) by {
            assert forall|v: usize| s.to_multiset().count(v) == t.to_multiset().count(v) by {
                assert(seq![x[0]].to_multiset().add(s.to_multiset()).count(v) == seq![
                    x[0],
                ].to_multiset().add(t.to_multiset()).count(v));
            }
        }
        assert forall|p: int, q: int| 0 <= p < q < s.len() implies before(
            b.columns,
            keys,
            #[trigger] s[p] as int,
            #[trigger] s[q] as int,
        ) by {
            assert(before(b.columns, keys, x[p + 1] as int, x[q + 1] as int));
        }
        assert forall|p: int, q: int| 0 <= p < q < t.len() implies before(
            b.columns,
            keys,
            #[trigger] t[p] as int,
            #[trigger] t[q] as int,
        ) by {
            assert(before(b.columns, keys, y[p + 1] as int, y[q + 1] as int));
        }
        assert forall|p: int| 0 <= p < s.len() implies 0 <= #[trigger] s[p] < b.len by {
            assert(0 <= x[p + 1] < b.len);
        }
        assert forall|p: int| 0 <= p < t.len() implies 0 <= #[trigger] t[p] < b.len by {
            assert(0 <= y[p + 1] < b.len);
        }
        lemma_unique(b, keys, s, t);
    }
}

// ------------------------------------------------------------ the operator

/// The views of a list of named keys.
pub open spec fn key_views(s: Seq<(String, bool)>) -> Seq<(Seq<char>, bool)> {
    Seq::new(s.len(), |i: int| (s[i].0@, s[i].1))
}

/// The keys that are columns.
pub open spec fn sort_keys(fields: Seq<FieldV>, keys: Seq<(Seq<char>, bool)>) -> Seq<Key>
    decreases keys.len(),
{
    if keys.len() == 0 {
        Seq::empty()
    } else {
        let up = sort_keys(fields, keys.drop_last());
        match index_in(fields, keys.last().0) {
            Some(i) => up.push((i as usize, keys.last().1)),
            None => up,
        }
    }
}

/// The context after warning of each key that is no column.
pub open spec fn sort_warned(c: CtxV, fields: Seq<FieldV>, keys: Seq<(Seq<char>, bool)>) -> CtxV
    decreases keys.len(),
{
    if keys.len() == 0 {
        c
    } else {
        let up = sort_warned(c, fields, keys.drop_last());
        match index_in(fields, keys.last().0) {
            Some(_) => up,
            None => up.raised(
                up.event(
                    Severity::Warn,
                    ErrorScope::Chunk,
                    "sort: unknown key '"@ + keys.last().0 + "' (ignored)"@,
                ),
            ),
        }
    }
}

/// `sort`: holds every chunk back and puts out one, ordered by the keys. Rows
/// that rank equal stay in the order in which they came.
pub struct Sort {
    pub keys: Vec<(String, bool)>,
    pub buf: Vec<Chunk>,
    pub emitted: bool,
}

/// How a sort ends: what it puts out, the sort after it, and the context after it.
pub open spec fn sort_ends(a: Sort, c: CtxV, out: Seq<Batch>, z: Sort, d: CtxV) -> bool {
    if a.emitted || a.buf@.len() == 0 {
        out.len() == 0 && d == c && z == a
    } else {
        let all = stacked(batches(a.buf@));
        let ks = sort_keys(all.fields, key_views(a.keys@));
        let warned = sort_warned(c, all.fields, key_views(a.keys@));
        &&& z.emitted
        &&& z.buf@.len() == 0
        &&& out.len() == 1
        &&& out[0].fields == all.fields
        &&& exists|rows: Seq<usize>|
            #![trigger sorted_rows(all, ks, rows)]
            sorted_rows(all, ks, rows) && out[0] == (Batch {
                id: warned.next_chunk_id,
                ..gathered(all, rows)
            })
        &&& d == warned.advanced()
    }
}

impl Sort {
    /// The chunks held back have the same columns.
    pub open spec fn wf(&self) -> bool {
        stack(batches(self.buf@))
    }

    /// Can the chunk be put with those held back?
    pub open spec fn takes(&self, b: Batch) -> bool {
        self.buf@.len() > 0 ==> alike(self.buf@[0]@, b)
    }

    /// Nothing held back.
    pub fn new(keys: Vec<(String, bool)>) -> (r: Sort)
        ensures
            r.wf(),
            r.keys == keys,
            r.buf@.len() == 0,
            !r.emitted,
    {
        Sort { keys, buf: Vec::new(), emitted: false }
    }

    /// Can the chunk be put with those held back (see [`Sort::takes`])?
    pub fn accepts(&self, chunk: &Chunk) -> (r: bool)
        ensures
            r == self.takes(chunk@),
    {
        self.buf.len() == 0 || are_alike(&self.buf[0], chunk)
    }

    /// Holds a chunk back; an empty one is let go.
    pub fn process(&mut self, chunk: Chunk)
        requires
            old(self).wf(),
            chunk@.wf(),
            old(self).takes(chunk@),
        ensures
            final(self).wf(),
            final(self).keys == old(self).keys,
            final(self).emitted == old(self).emitted,
            batches(final(self).buf@) == if chunk@.len == 0 {
                batches(old(self).buf@)
            } else {
                batches(old(self).buf@).push(chunk@)
            },
    {
        if chunk.len > 0 {
            hold(&mut self.buf, chunk);
        }
    }

    fn resolve(&self, chunk: &Chunk, ctx: &mut OpCtx) -> (r: Vec<Key>)
        ensures
            r@ == sort_keys(chunk@.fields, key_views(self.keys@)),
            forall|i: int| 0 <= i < r@.len() ==> (#[trigger] r@[i]).0 < chunk@.fields.len(),
            final(ctx)@ == sort_warned(old(ctx)@, chunk@.fields, key_views(self.keys@)),
    {
        let ghost ks = key_views(self.keys@);
        let ghost start = ctx@;
        let mut r: Vec<Key> = Vec::new();
        for n in 0..self.keys.len()
            invariant
                ks == key_views(self.keys@),
                r@ == sort_keys(chunk@.fields, ks.take(n as int)),
                forall|i: int| 0 <= i < r@.len() ==> (#[trigger] r@[i]).0 < chunk@.fields.len(),
                ctx@ == sort_warned(start, chunk@.fields, ks.take(n as int)),
        {
            proof {
                assert(ks.take(n + 1).drop_last() =~= ks.take(n as int));
                assert(ks.take(n + 1).last() == (self.keys@[n as int].0@, self.keys@[n as int].1));
            }
            match index_of(&chunk.fields, self.keys[n].0.as_str()) {
                Some(i) => {
                    r.push((i, self.keys[n].1));
                },
                None => {
                    ctx.warn(
                        message3("sort: unknown key '", self.keys[n].0.as_str(), "' (ignored)"),
                    );
                },
            }
        }
        assert(ks.take(ks.len() as int) =~= ks);
        r
    }

    /// Puts out the ordered rows, once.
    pub fn finish(&mut self, ctx: &mut OpCtx) -> (r: Vec<Chunk>)
        requires
            old(self).wf(),
        ensures
            final(self).wf(),
            final(self).keys == old(self).keys,
            all_wf(batches(r@)),
            sort_ends(*old(self), old(ctx)@, batches(r@), *final(self), final(ctx)@),
    {
        let mut out: Vec<Chunk> = Vec::new();
        if self.emitted || self.buf.len() == 0 {
            return out;
        }
        self.emitted = true;
        let all: Chunk = match concat_chunks(&self.buf) {
            None => {
                return out;
            },
            Some(c) => c,
        };
        self.buf = Vec::new();
        let keys: Vec<Key> = self.resolve(&all, ctx);
        assert(keys_fit(all@, keys@));
        let rows: Vec<usize> = sort_rows(&all, &keys);
        let mut c: Chunk = all.gather(&rows);
        let id: u64 = ctx.fresh_id();
        c.id = id;
        assert(c@ == (Batch { id, ..gathered(all@, rows@) }));
        assert(sorted_rows(all@, keys@, rows@));
        out.push(c);
        out
    }
}

/// Holds a chunk back.
pub fn hold(buf: &mut Vec<Chunk>, chunk: Chunk)
    requires
        stack(batches(old(buf)@)),
        chunk@.wf(),
        old(buf)@.len() > 0 ==> alike(old(buf)@[0]@, chunk@),
    ensures
        batches(final(buf)@) == batches(old(buf)@).push(chunk@),
        stack(batches(final(buf)@)),
{
    let ghost before = batches(buf@);
    buf.push(chunk);
    proof {
        let after = batches(buf@);
        assert(after =~= before.push(chunk@));
        assert forall|i: int| 0 <= i < after.len() implies alike(after[0], #[trigger] after[i])
            && after[i].wf() by {
            if i < before.len() {
                assert(alike(before[0], before[i]));
                assert(before[i].wf());
            } else if before.len() > 0 {
                assert(after[0] == old(buf)@[0]@);
            }
        }
    }
}

} // verus!
