//! Fixed-width binary records: their layout, their decoding, and their division
//! among workers.
use vstd::prelude::*;
use vstd::arithmetic::div_mod::{lemma_div_is_ordered, lemma_fundamental_div_mod, lemma_mod_multiples_basic, lemma_div_multiples_vanish};
use vstd::arithmetic::mul::{lemma_mul_inequality, lemma_mul_is_distributive_add_other_way, lemma_mul_is_commutative};
use crate::chunk::{fields_view, flat_field, lanes, Column, Field, FieldV, Lane};
use crate::float::F64;
use crate::host::{ask1, float_answer, get_float, Answers, Ask, HostOp, Log, Query};
use crate::value::{data, fits, DataType, Datum, Value};

verus! {

/// The type of a field of a record.
#[derive(Clone, Copy, Debug, PartialEq, Eq, Structural)]
pub enum BinType {
    I8,
    U8,
    I16,
    U16,
    I32,
    U32,
    I64,
    U64,
    F32,
    F64,
    Bool,
}

/// The order of the bytes of a number.
#[derive(Clone, Copy, Debug, PartialEq, Eq, Structural)]
pub enum Endian {
    Little,
    Big,
}

impl BinType {
    /// The number of bytes.
    pub open spec fn width(self) -> int {
        match self {
            BinType::I8 => 1,
            BinType::U8 => 1,
            BinType::Bool => 1,
            BinType::I16 => 2,
            BinType::U16 => 2,
            BinType::I32 => 4,
            BinType::U32 => 4,
            BinType::F32 => 4,
            BinType::I64 => 8,
            BinType::U64 => 8,
            BinType::F64 => 8,
        }
    }

    /// The number of bytes, which is also the natural alignment.
    pub fn size(self) -> (r: usize)
        ensures
            r == self.width(),
    {
        match self {
            BinType::I8 | BinType::U8 | BinType::Bool => 1,
            BinType::I16 | BinType::U16 => 2,
            BinType::I32 | BinType::U32 | BinType::F32 => 4,
            BinType::I64 | BinType::U64 | BinType::F64 => 8,
        }
    }

    /// The type of the column that the field decodes into.
    pub open spec fn lane_type(self) -> DataType {
        match self {
            BinType::Bool => DataType::Bool,
            BinType::F32 => DataType::F64,
            BinType::F64 => DataType::F64,
            _ => DataType::I64,
        }
    }

    /// The type of the column that the field decodes into.
    pub fn lane(self) -> (r: DataType)
        ensures
            r == self.lane_type(),
    {
        match self {
            BinType::Bool => DataType::Bool,
            BinType::F32 | BinType::F64 => DataType::F64,
            _ => DataType::I64,
        }
    }
}

// ---------------------------------------------------------------- layout

/// The least multiple of `align` that is not below `x`.
pub open spec fn rounded_up(x: int, align: int) -> int {
    (x + align - 1) / align * align
}

/// Rounding up gives a multiple, not below and less than one step above.
pub proof fn lemma_rounded_up(x: int, align: int)
    requires
        x >= 0,
        align > 0,
    ensures
        x <= rounded_up(x, align) < x + align,
        rounded_up(x, align) % align == 0,
{
    let y = x + align - 1;
    lemma_fundamental_div_mod(y, align);
    lemma_mul_is_commutative(align, y / align);
    lemma_mod_multiples_basic(y / align, align);
}

/// The least multiple of `align` that is not below `x`.
pub fn round_up(x: usize, align: usize) -> (r: usize)
    requires
        align > 0,
        x + align <= usize::MAX,
    ensures
        r == rounded_up(x as int, align as int),
{
    proof {
        lemma_rounded_up(x as int, align as int);
    }
    (x + align - 1) / align * align
}

/// The types of a list of fields.
pub open spec fn bin_types(s: Seq<(String, BinType)>) -> Seq<BinType> {
    Seq::new(s.len(), |i: int| s[i].1)
}

/// Where the first `n` fields of a record end.
pub open spec fn end_of(ts: Seq<BinType>, c_align: bool, n: nat) -> int
    decreases n, 0nat,
{
    if n == 0 {
        0
    } else {
        offset_of(ts, c_align, (n - 1) as nat) + ts[n - 1].width()
    }
}

/// Where field `n` starts: at the end of the one before, or at the next multiple
/// of its alignment.
pub open spec fn offset_of(ts: Seq<BinType>, c_align: bool, n: nat) -> int
    decreases n, 1nat,
{
    if c_align {
        rounded_up(end_of(ts, c_align, n), ts[n as int].width())
    } else {
        end_of(ts, c_align, n)
    }
}

/// The largest alignment of the first `n` fields.
pub open spec fn max_align(ts: Seq<BinType>, n: nat) -> int
    decreases n,
{
    if n == 0 {
        1
    } else {
        let up = max_align(ts, (n - 1) as nat);
        if ts[n - 1].width() > up {
            ts[n - 1].width()
        } else {
            up
        }
    }
}

/// The size of a record.
pub open spec fn stride(ts: Seq<BinType>, c_align: bool) -> int {
    if c_align {
        rounded_up(end_of(ts, c_align, ts.len()), max_align(ts, ts.len()))
    } else {
        end_of(ts, c_align, ts.len())
    }
}

proof fn lemma_ends(ts: Seq<BinType>, c_align: bool, n: nat)
    requires
        n <= ts.len(),
    ensures
        0 <= end_of(ts, c_align, n) <= 16 * n,
        n > 0 ==> end_of(ts, c_align, n) > 0,
        1 <= max_align(ts, n) <= 8,
        n < ts.len() ==> end_of(ts, c_align, n) <= offset_of(ts, c_align, n),
    decreases n,
{
    if n > 0 {
        lemma_ends(ts, c_align, (n - 1) as nat);
        lemma_rounded_up(end_of(ts, c_align, (n - 1) as nat), ts[n - 1].width());
    }
    if n < ts.len() {
        lemma_rounded_up(end_of(ts, c_align, n), ts[n as int].width());
    }
}

proof fn lemma_ends_mono(ts: Seq<BinType>, c_align: bool, n: nat, m: nat)
    requires
        n <= m <= ts.len(),
    ensures
        end_of(ts, c_align, n) <= end_of(ts, c_align, m),
    decreases m,
{
    if n < m {
        lemma_ends_mono(ts, c_align, n, (m - 1) as nat);
        lemma_ends(ts, c_align, (m - 1) as nat);
    }
}

/// The layout is sound: fields follow one another without overlap, each at a
/// multiple of its alignment where that is asked for, and all inside the record.
pub proof fn lemma_layout(ts: Seq<BinType>, c_align: bool, n: nat)
    requires
        n < ts.len(),
    ensures
        offset_of(ts, c_align, n) + ts[n as int].width() <= stride(ts, c_align),
        n + 1 < ts.len() ==> offset_of(ts, c_align, n) + ts[n as int].width() <= offset_of(
            ts,
            c_align,
            n + 1,
        ),
        c_align ==> offset_of(ts, c_align, n) % ts[n as int].width() == 0,
        0 <= offset_of(ts, c_align, n),
{
    lemma_ends(ts, c_align, n);
    lemma_ends(ts, c_align, n + 1);
    lemma_ends(ts, c_align, ts.len());
    lemma_ends_mono(ts, c_align, n + 1, ts.len());
    lemma_rounded_up(end_of(ts, c_align, n), ts[n as int].width());
    lemma_rounded_up(end_of(ts, c_align, ts.len()), max_align(ts, ts.len()));
}

/// The places of the fields in a record, and the record's size; `None` for a
/// record without fields.
pub fn bin_layout(fields: &Vec<(String, BinType)>, c_align: bool) -> (r: Option<(Vec<usize>, usize)>)
    requires
        16 * fields@.len() + 32 <= usize::MAX,
    ensures
        match r {
            None => fields@.len() == 0,
            Some((offsets, rec)) => {
                let ts = bin_types(fields@);
                &&& fields@.len() > 0
                &&& rec == stride(ts, c_align)
                &&& rec > 0
                &&& offsets@.len() == fields@.len()
                &&& forall|i: int|
                    0 <= i < offsets@.len() ==> (#[trigger] offsets@[i]) == offset_of(
                        ts,
                        c_align,
                        i as nat,
                    )
            },
        },
{
    let ghost ts = bin_types(fields@);
    let mut offsets: Vec<usize> = Vec::new();
    let mut acc: usize = 0;
    let mut widest: usize = 1;
    for i in 0..fields.len()
        invariant
            ts == bin_types(fields@),
            16 * fields@.len() + 32 <= usize::MAX,
            acc == end_of(ts, c_align, i as nat),
            c_align ==> widest == max_align(ts, i as nat),
            1 <= widest <= 8,
            offsets@.len() == i,
            forall|k: int|
                0 <= k < i ==> (#[trigger] offsets@[k]) == offset_of(ts, c_align, k as nat),
    {
        let t: BinType = fields[i].1;
        assert(ts[i as int] == t);
        proof {
            lemma_ends(ts, c_align, i as nat);
            lemma_ends(ts, c_align, (i + 1) as nat);
        }
        if c_align {
            let a: usize = t.size();
            if a > widest {
                widest = a;
            }
            acc = round_up(acc, a);
        }
        offsets.push(acc);
        acc = acc + t.size();
    }
    proof {
        lemma_ends(ts, c_align, ts.len());
        lemma_rounded_up(end_of(ts, c_align, ts.len()), max_align(ts, ts.len()));
    }
    let rec: usize = if c_align {
        round_up(acc, widest)
    } else {
        acc
    };
    if fields.len() == 0 {
        return None;
    }
    Some((offsets, rec))
}

/// The fields of a record as columns.
pub open spec fn bin_fields(s: Seq<(String, BinType)>) -> Seq<FieldV> {
    Seq::new(s.len(), |i: int| flat_field(s[i].0@, s[i].1.lane_type()))
}

/// The schema of a record: one column for each field, in order.
pub fn bin_schema(fields: &Vec<(String, BinType)>) -> (r: Vec<Field>)
    ensures
        fields_view(r@) == bin_fields(fields@),
{
    let mut out: Vec<Field> = Vec::new();
    let ghost want = bin_fields(fields@);
    for i in 0..fields.len()
        invariant
            want == bin_fields(fields@),
            out@.len() == i,
            forall|k: int| 0 <= k < i ==> (#[trigger] out@[k])@ == want[k],
    {
        out.push(Field::flat(fields[i].0.clone(), fields[i].1.lane()));
    }
    assert(fields_view(out@) =~= want);
    out
}

// -------------------------------------------------------------- decoding

/// The number that bytes stand for, the most significant first.
pub open spec fn big(b: Seq<u8>) -> nat
    decreases b.len(),
{
    if b.len() == 0 {
        0
    } else {
        256 * big(b.drop_last()) + b.last() as nat
    }
}

/// The number that bytes stand for.
pub open spec fn unsigned(b: Seq<u8>, e: Endian) -> nat {
    match e {
        Endian::Big => big(b),
        Endian::Little => big(b.reverse()),
    }
}

/// `2^(8 n)`.
pub open spec fn range(n: int) -> int {
    if n == 1 {
        0x100
    } else if n == 2 {
        0x1_0000
    } else if n == 4 {
        0x1_0000_0000
    } else {
        0x1_0000_0000_0000_0000
    }
}

/// A number of `n` bytes taken as a two's complement.
pub open spec fn signed(x: int, n: int) -> int {
    if 2 * x >= range(n) {
        x - range(n)
    } else {
        x
    }
}

/// The integer of a field. An unsigned one above the largest there is wraps.
pub open spec fn int_of(b: Seq<u8>, t: BinType, e: Endian) -> i64 {
    let x = unsigned(b, e) as int;
    match t {
        BinType::U8 => x as i64,
        BinType::Bool => x as i64,
        BinType::U16 => x as i64,
        BinType::U32 => x as i64,
        BinType::F32 => 0,
        BinType::F64 => 0,
        _ => signed(x, t.width()) as i64,
    }
}

/// The bytes of a record's field.
pub open spec fn cell_bytes(buf: Seq<u8>, at: int, t: BinType) -> Seq<u8> {
    buf.subrange(at, at + t.width())
}

proof fn lemma_big_bound(b: Seq<u8>)
    requires
        b.len() <= 8,
    ensures
        big(b) < 0x1_0000_0000_0000_0000,
        b.len() == 1 ==> big(b) < 0x100,
        b.len() == 2 ==> big(b) < 0x1_0000,
        b.len() == 4 ==> big(b) < 0x1_0000_0000,
{
    reveal_with_fuel(big, 9);
}

/// The number of a field's bytes.
fn read_uint(buf: &Vec<u8>, at: usize, n: usize, e: Endian) -> (r: u64)
    requires
        at + n <= buf@.len(),
        n == 1 || n == 2 || n == 4 || n == 8,
    ensures
        r == unsigned(buf@.subrange(at as int, at + n), e),
        r < range(n as int),
{
    let ghost b = buf@.subrange(at as int, at + n);
    let ghost s = match e {
        Endian::Big => b,
        Endian::Little => b.reverse(),
    };
    proof {
        lemma_big_bound(s);
    }
    let size: usize = buf.len();
    let mut x: u64 = 0;
    let mut i: usize = 0;
    while i < n
        invariant
            size == buf@.len(),
            at + n <= buf@.len(),
            n == 1 || n == 2 || n == 4 || n == 8,
            i <= n,
            b == buf@.subrange(at as int, at + n),
            s == (match e {
                Endian::Big => b,
                Endian::Little => b.reverse(),
            }),
            x == big(s.take(i as int)),
        decreases n - i,
    {
        let byte: u8 = match e {
            Endian::Big => buf[at + i],
            Endian::Little => buf[at + (n - 1 - i)],
        };
        proof {
            assert(byte == s[i as int]);
            assert(s.take(i + 1).drop_last() =~= s.take(i as int));
            lemma_big_bound(s.take(i + 1));
            assert(big(s.take(i + 1)) == 256 * big(s.take(i as int)) + byte as nat);
        }
        x = 256 * x + byte as u64;
        i = i + 1;
    }
    assert(s.take(n as int) =~= s);
    x
}

/// The integer of a field (see [`int_of`]).
pub fn decode_int(buf: &Vec<u8>, at: usize, t: BinType, e: Endian) -> (r: i64)
    requires
        at + t.width() <= buf@.len(),
    ensures
        r == int_of(cell_bytes(buf@, at as int, t), t, e),
{
    let x: u64 = read_uint(buf, at, t.size(), e);
    match t {
        BinType::F32 | BinType::F64 => 0,
        BinType::U8 | BinType::Bool | BinType::U16 | BinType::U32 => x as i64,
        BinType::I8 => if x >= 0x80 {
            x as i64 - 0x100
        } else {
            x as i64
        },
        BinType::I16 => if x >= 0x8000 {
            x as i64 - 0x1_0000
        } else {
            x as i64
        },
        BinType::I32 => if x >= 0x8000_0000 {
            x as i64 - 0x1_0000_0000
        } else {
            x as i64
        },
        BinType::I64 | BinType::U64 => if x >= 0x8000_0000_0000_0000 {
            (x as i128 - 0x1_0000_0000_0000_0000) as i64
        } else {
            x as i64
        },
    }
}

/// The double of a field: its bits, or those of a single-precision number
/// widened.
pub open spec fn float_of_field(b: Seq<u8>, t: BinType, e: Endian, log: Log) -> Result<F64, Query> {
    match t {
        BinType::F64 => Ok(F64 { bits: unsigned(b, e) as u64 }),
        BinType::F32 => float_answer(
            log,
            Query { op: HostOp::Widen, args: seq![Datum::I64(unsigned(b, e) as i64)] },
        ),
        _ => Ok(F64 { bits: 0 }),
    }
}

/// The double of a field (see [`float_of_field`]).
pub fn decode_f64(buf: &Vec<u8>, at: usize, t: BinType, e: Endian, host: &Answers) -> (r: Result<F64, Ask>)
    requires
        at + t.width() <= buf@.len(),
    ensures
        match (r, float_of_field(cell_bytes(buf@, at as int, t), t, e, host@)) {
            (Ok(x), Ok(y)) => x == y,
            (Err(a), Err(q)) => a@ == q,
            _ => false,
        },
{
    match t {
        BinType::F64 => Ok(F64 { bits: read_uint(buf, at, 8, e) }),
        BinType::F32 => {
            let x: u64 = read_uint(buf, at, 4, e);
            get_float(host, ask1(HostOp::Widen, Value::I64(x as i64)))
        },
        _ => Ok(F64 { bits: 0 }),
    }
}

/// A field of a record as a cell.
pub open spec fn bin_cell(b: Seq<u8>, t: BinType, e: Endian, log: Log) -> Result<Datum, Query> {
    match t {
        BinType::Bool => Ok(Datum::Bool(b[0] != 0)),
        BinType::F32 => match float_of_field(b, t, e, log) {
            Ok(x) => Ok(Datum::F64(x)),
            Err(q) => Err(q),
        },
        BinType::F64 => match float_of_field(b, t, e, log) {
            Ok(x) => Ok(Datum::F64(x)),
            Err(q) => Err(q),
        },
        _ => Ok(Datum::I64(int_of(b, t, e))),
    }
}

fn decode_cell(buf: &Vec<u8>, at: usize, t: BinType, e: Endian, host: &Answers) -> (r: Result<Value, Ask>)
    requires
        at + t.width() <= buf@.len(),
    ensures
        match (r, bin_cell(cell_bytes(buf@, at as int, t), t, e, host@)) {
            (Ok(v), Ok(d)) => v@ == d && fits(d, t.lane_type()),
            (Err(a), Err(q)) => a@ == q,
            _ => false,
        },
{
    match t {
        BinType::Bool => {
            assert(cell_bytes(buf@, at as int, t)[0] == buf@[at as int]);
            Ok(Value::Bool(buf[at] != 0))
        },
        BinType::F32 | BinType::F64 => match decode_f64(buf, at, t, e, host) {
            Ok(x) => Ok(Value::F64(x)),
            Err(a) => Err(a),
        },
        _ => Ok(Value::I64(decode_int(buf, at, t, e))),
    }
}

/// The cells of a field over the first `n` records of a buffer.
pub open spec fn bin_cells(buf: Seq<u8>, off: int, rec: int, t: BinType, e: Endian, n: nat, log: Log) -> Result<
    Seq<Datum>,
    Query,
>
    decreases n,
{
    if n == 0 {
        Ok(Seq::empty())
    } else {
        match bin_cells(buf, off, rec, t, e, (n - 1) as nat, log) {
            Err(q) => Err(q),
            Ok(s) => match bin_cell(cell_bytes(buf, (n - 1) * rec + off, t), t, e, log) {
                Err(q) => Err(q),
                Ok(d) => Ok(s.push(d)),
            },
        }
    }
}

proof fn lemma_bin_cells_stop(buf: Seq<u8>, off: int, rec: int, t: BinType, e: Endian, n: nat, m: nat, log: Log)
    requires
        bin_cells(buf, off, rec, t, e, n, log) is Err,
        n <= m,
    ensures
        bin_cells(buf, off, rec, t, e, m, log) == bin_cells(buf, off, rec, t, e, n, log),
    decreases m,
{
    if n < m {
        lemma_bin_cells_stop(buf, off, rec, t, e, n, (m - 1) as nat, log);
    }
}

fn decode_column(buf: &Vec<u8>, off: usize, rec: usize, t: BinType, e: Endian, n: usize, host: &Answers) -> (r: Result<
    Column,
    Ask,
>)
    requires
        off + t.width() <= rec,
        n * rec <= buf@.len(),
    ensures
        match (r, bin_cells(buf@, off as int, rec as int, t, e, n as nat, host@)) {
            (Ok(c), Ok(s)) => c@ == (Lane { dtype: t.lane_type(), cells: s }) && c@.typed()
                && s.len() == n,
            (Err(a), Err(q)) => a@ == q,
            _ => false,
        },
{
    let mut cells: Vec<Value> = Vec::new();
    assert(data(cells@) =~= Seq::empty());
    let size: usize = buf.len();
    let mut at: usize = off;
    assert(0 * rec == 0) by (nonlinear_arith);
    for i in 0..n
        invariant
            off + t.width() <= rec,
            n * rec <= buf@.len(),
            size == buf@.len(),
            i < n ==> at == i * rec + off,
            cells@.len() == i,
            bin_cells(buf@, off as int, rec as int, t, e, i as nat, host@) == Ok::<
                Seq<Datum>,
                Query,
            >(data(cells@)),
            forall|k: int| 0 <= k < i ==> fits((#[trigger] cells@[k])@, t.lane_type()),
    {
        let ghost before = data(cells@);
        proof {
            lemma_mul_inequality(i + 1, n as int, rec as int);
            lemma_mul_is_distributive_add_other_way(rec as int, i as int, 1);
        }
        match decode_cell(buf, at, t, e, host) {
            Err(a) => {
                proof {
                    lemma_bin_cells_stop(
                        buf@,
                        off as int,
                        rec as int,
                        t,
                        e,
                        (i + 1) as nat,
                        n as nat,
                        host@,
                    );
                }
                return Err(a);
            },
            Ok(v) => {
                let ghost d = v@;
                cells.push(v);
                assert(data(cells@) =~= before.push(d));
            },
        }
        if i + 1 < n {
            proof {
                lemma_mul_inequality(i + 2, n as int, rec as int);
                lemma_mul_is_distributive_add_other_way(rec as int, i + 1, 1);
            }
            at = at + rec;
        }
    }
    Ok(Column { dtype: t.lane(), cells })
}

/// The columns of the first `k` fields over the `n` records of a buffer.
pub open spec fn bin_columns(buf: Seq<u8>, ts: Seq<BinType>, offsets: Seq<usize>, rec: int, e: Endian, n: nat, k: nat, log: Log) -> Result<
    Seq<Lane>,
    Query,
>
    decreases k,
{
    if k == 0 {
        Ok(Seq::empty())
    } else {
        match bin_columns(buf, ts, offsets, rec, e, n, (k - 1) as nat, log) {
            Err(q) => Err(q),
            Ok(s) => match bin_cells(buf, offsets[k - 1] as int, rec, ts[k - 1], e, n, log) {
                Err(q) => Err(q),
                Ok(cells) => Ok(s.push(Lane { dtype: ts[k - 1].lane_type(), cells })),
            },
        }
    }
}

proof fn lemma_bin_columns_stop(buf: Seq<u8>, ts: Seq<BinType>, offsets: Seq<usize>, rec: int, e: Endian, n: nat, k: nat, m: nat, log: Log)
    requires
        bin_columns(buf, ts, offsets, rec, e, n, k, log) is Err,
        k <= m,
    ensures
        bin_columns(buf, ts, offsets, rec, e, n, m, log) == bin_columns(
            buf,
            ts,
            offsets,
            rec,
            e,
            n,
            k,
            log,
        ),
    decreases m,
{
    if k < m {
        lemma_bin_columns_stop(buf, ts, offsets, rec, e, n, k, (m - 1) as nat, log);
    }
}

/// The places of fields are inside the record.
pub open spec fn inside(ts: Seq<BinType>, offsets: Seq<usize>, rec: int) -> bool {
    &&& ts.len() == offsets.len()
    &&& forall|i: int| 0 <= i < offsets.len() ==> (#[trigger] offsets[i]) + ts[i].width() <= rec
}

/// The columns of `n` records of a buffer (see [`bin_columns`]).
pub fn decode_bin_batch(buf: &Vec<u8>, fields: &Vec<(String, BinType)>, offsets: &Vec<usize>, rec_size: usize, endian: Endian, n: usize, host: &Answers) -> (r:
    Result<Vec<Column>, Ask>)
    requires
        inside(bin_types(fields@), offsets@, rec_size as int),
        n * rec_size <= buf@.len(),
    ensures
        match (
            r,
            bin_columns(
                buf@,
                bin_types(fields@),
                offsets@,
                rec_size as int,
                endian,
                n as nat,
                fields@.len(),
                host@,
            ),
        ) {
            (Ok(v), Ok(ls)) => lanes(v@) == ls && ls.len() == fields@.len() && forall|i: int|
                0 <= i < ls.len() ==> (#[trigger] ls[i]).typed() && ls[i].cells.len() == n,
            (Err(a), Err(q)) => a@ == q,
            _ => false,
        },
{
    let ghost ts = bin_types(fields@);
    let mut out: Vec<Column> = Vec::new();
    assert(lanes(out@) =~= Seq::empty());
    for k in 0..fields.len()
        invariant
            ts == bin_types(fields@),
            inside(ts, offsets@, rec_size as int),
            n * rec_size <= buf@.len(),
            out@.len() == k,
            bin_columns(
                buf@,
                ts,
                offsets@,
                rec_size as int,
                endian,
                n as nat,
                k as nat,
                host@,
            ) == Ok::<Seq<Lane>, Query>(lanes(out@)),
            forall|i: int|
                0 <= i < k ==> (#[trigger] lanes(out@)[i]).typed() && lanes(out@)[i].cells.len() == n,
    {
        let ghost before = lanes(out@);
        let t: BinType = fields[k].1;
        assert(ts[k as int] == t);
        assert(offsets@[k as int] + ts[k as int].width() <= rec_size);
        match decode_column(buf, offsets[k], rec_size, t, endian, n, host) {
            Err(a) => {
                proof {
                    lemma_bin_columns_stop(
                        buf@,
                        ts,
                        offsets@,
                        rec_size as int,
                        endian,
                        n as nat,
                        (k + 1) as nat,
                        fields@.len(),
                        host@,
                    );
                }
                return Err(a);
            },
            Ok(c) => {
                let ghost l = c@;
                out.push(c);
                assert(lanes(out@) =~= before.push(l));
            },
        }
    }
    Ok(out)
}

// --------------------------------------------------------------- reading

/// The state of a streaming reader of records.
pub struct BinChunker {
    pub rec_size: usize,
    pub chunk_size: usize,
    pub recs_left: usize,
    /// The bytes after the last whole record.
    pub trailing: usize,
}

impl BinChunker {
    /// What is left to read fits in memory.
    pub open spec fn wf(&self) -> bool {
        &&& self.rec_size > 0
        &&& self.chunk_size > 0
        &&& self.recs_left * self.rec_size <= usize::MAX
    }

    /// A reader of a file of `len` bytes.
    pub fn open(len: usize, rec_size: usize, chunk_size: usize) -> (r: BinChunker)
        requires
            rec_size > 0,
        ensures
            r.wf(),
            r.rec_size == rec_size,
            r.chunk_size == if chunk_size == 0 {
                1
            } else {
                chunk_size
            },
            r.recs_left == len as int / rec_size as int,
            r.trailing == len as int % rec_size as int,
    {
        proof {
            lemma_fundamental_div_mod(len as int, rec_size as int);
            lemma_mul_is_commutative(rec_size as int, len as int / rec_size as int);
        }
        BinChunker {
            rec_size,
            chunk_size: if chunk_size == 0 {
                1
            } else {
                chunk_size
            },
            recs_left: len / rec_size,
            trailing: len % rec_size,
        }
    }

    /// The records of the next chunk, and its bytes; `None` at the end.
    pub fn next_batch(&self) -> (r: Option<(usize, usize)>)
        requires
            self.wf(),
        ensures
            match r {
                None => self.recs_left == 0,
                Some((take, bytes)) => {
                    &&& self.recs_left > 0
                    &&& take == if self.chunk_size < self.recs_left {
                        self.chunk_size
                    } else {
                        self.recs_left
                    }
                    &&& bytes == take * self.rec_size
                },
            },
    {
        if self.recs_left == 0 {
            return None;
        }
        let take: usize = if self.chunk_size < self.recs_left {
            self.chunk_size
        } else {
            self.recs_left
        };
        proof {
            lemma_mul_inequality(take as int, self.recs_left as int, self.rec_size as int);
        }
        Some((take, take * self.rec_size))
    }

    /// Notes that `take` records were read, or that reading failed.
    pub fn took(&mut self, take: usize, ok: bool)
        requires
            old(self).wf(),
            take <= old(self).recs_left,
        ensures
            final(self).wf(),
            final(self).rec_size == old(self).rec_size,
            final(self).chunk_size == old(self).chunk_size,
            final(self).trailing == old(self).trailing,
            final(self).recs_left == if ok {
                old(self).recs_left - take
            } else {
                0
            },
    {
        if ok {
            proof {
                lemma_mul_inequality(
                    self.recs_left - take,
                    self.recs_left as int,
                    self.rec_size as int,
                );
            }
            self.recs_left = self.recs_left - take;
        } else {
            assert(0 * self.rec_size == 0) by (nonlinear_arith);
            self.recs_left = 0;
        }
    }
}

/// The first record of part `i` of `n` when `recs` records are divided.
pub open spec fn part_start(recs: int, i: int, n: int) -> int {
    recs * i / n
}

/// The byte ranges of the parts of a file of records, each of whole records.
pub open spec fn part_ranges(recs: int, rec_size: int, n: nat) -> Seq<(u64, u64)> {
    Seq::new(
        n,
        |i: int|
            (
                (part_start(recs, i, n as int) * rec_size) as u64,
                (part_start(recs, i + 1, n as int) * rec_size) as u64,
            ),
    )
}

proof fn lemma_parts(recs: int, i: int, n: int)
    requires
        0 < n <= recs,
        0 <= i < n,
    ensures
        0 <= part_start(recs, i, n) < part_start(recs, i + 1, n) <= recs,
        part_start(recs, 0, n) == 0,
        part_start(recs, n, n) == recs,
{
    assert(recs * (i + 1) == recs * i + recs) by (nonlinear_arith);
    assert(recs * i >= 0) by (nonlinear_arith)
        requires
            recs >= 0,
            i >= 0,
    ;
    assert(recs * (i + 1) <= recs * n) by (nonlinear_arith)
        requires
            i + 1 <= n,
            recs >= 0,
    ;
    let a = recs * i;
    lemma_div_is_ordered(a + n, a + recs, n);
    assert((a + n) / n == a / n + 1) by {
        vstd::arithmetic::div_mod::lemma_div_plus_one(a, n);
    }
    lemma_div_is_ordered(a + recs, recs * n, n);
    lemma_mul_is_commutative(recs, n);
    lemma_div_multiples_vanish(recs, n);
    assert(recs * 0 == 0) by (nonlinear_arith);
    vstd::arithmetic::div_mod::lemma_div_basics(n);
    vstd::arithmetic::div_mod::lemma_div_pos_is_pos(a, n);
}

/// The division covers the file: the parts follow one another from the first
/// record to the last, none of them empty.
pub proof fn lemma_parts_cover(recs: int, n: int)
    requires
        0 < n <= recs,
    ensures
        part_start(recs, 0, n) == 0,
        part_start(recs, n, n) == recs,
        forall|i: int|
            0 <= i < n ==> part_start(recs, i, n) < #[trigger] part_start(recs, i + 1, n),
{
    lemma_parts(recs, 0, n);
    assert forall|i: int| 0 <= i < n implies part_start(recs, i, n) < #[trigger] part_start(
        recs,
        i + 1,
        n,
    ) by {
        lemma_parts(recs, i, n);
    }
}

/// Divides a file of `len` bytes of records among at most `threads` workers;
/// `None` where there would be fewer than two.
pub fn split_records(len: usize, rec_size: usize, threads: usize) -> (r: Option<Vec<(u64, u64)>>)
    requires
        rec_size > 0,
    ensures
        ({
            let recs = len as int / rec_size as int;
            let n = if threads < recs {
                threads as int
            } else {
                recs
            };
            match r {
                None => n < 2,
                Some(v) => n >= 2 && v@ == part_ranges(recs, rec_size as int, n as nat),
            }
        }),
{
    let recs: usize = len / rec_size;
    let n: usize = if threads < recs {
        threads
    } else {
        recs
    };
    if n < 2 {
        return None;
    }
    let mut out: Vec<(u64, u64)> = Vec::new();
    let ghost want = part_ranges(recs as int, rec_size as int, n as nat);
    proof {
        lemma_fundamental_div_mod(len as int, rec_size as int);
        lemma_mul_is_commutative(rec_size as int, recs as int);
    }
    for i in 0..n
        invariant
            2 <= n <= recs,
            rec_size > 0,
            recs * rec_size <= len,
            want == part_ranges(recs as int, rec_size as int, n as nat),
            out@.len() == i,
            forall|k: int| 0 <= k < i ==> (#[trigger] out@[k]) == want[k],
    {
        proof {
            lemma_parts(recs as int, i as int, n as int);
            let s = part_start(recs as int, i as int, n as int);
            let e = part_start(recs as int, i + 1, n as int);
            lemma_mul_inequality(s, recs as int, rec_size as int);
            lemma_mul_inequality(e, recs as int, rec_size as int);
            assert(recs * i >= 0 && recs * (i + 1) >= 0) by (nonlinear_arith)
                requires
                    recs >= 0,
                    i >= 0,
            ;
            assert(s * rec_size >= 0 && e * rec_size >= 0) by (nonlinear_arith)
                requires
                    s >= 0,
                    e >= 0,
                    rec_size >= 0,
            ;
            assert(recs * i <= recs * n && recs * (i + 1) <= recs * n) by (nonlinear_arith)
                requires
                    i + 1 <= n,
                    recs >= 0,
            ;
            assert(recs * n < 0x1_0000_0000_0000_0000_0000_0000_0000_0000) by (nonlinear_arith)
                requires
                    0 <= recs < 0x1_0000_0000_0000_0000,
                    0 <= n < 0x1_0000_0000_0000_0000,
            ;
        }
        let s: u128 = recs as u128 * i as u128 / n as u128;
        let e: u128 = recs as u128 * (i as u128 + 1) / n as u128;
        let a: u64 = (s as usize * rec_size) as u64;
        let b: u64 = (e as usize * rec_size) as u64;
        out.push((a, b));
    }
    assert(out@ =~= want);
    Some(out)
}

} // verus!
