//! A source of records of fixed width. The caller reads the bytes; the source
//! says how many it wants and makes chunks of them.
use vstd::prelude::*;
use crate::binary::{bin_columns, bin_fields, bin_layout, bin_schema, bin_types, decode_bin_batch, inside, lemma_layout, offset_of, stride, BinChunker, BinType, Endian};
use crate::chunk::{dup_fields, fields_view, lanes, Chunk, Field};
use crate::event::{CtxV, OpCtx};
use crate::host::{Answers, Ask, Log};
use crate::source::{chunk_made, new_chunk, report, reported, Report};
use crate::text::owned;

verus! {

/// A source of records.
pub struct SourceBinary {
    pub layout: Vec<(String, BinType)>,
    /// Where the fields start in a record.
    pub offsets: Vec<usize>,
    pub endian: Endian,
    pub chunker: BinChunker,
    pub fields: Vec<Field>,
}

/// The bytes after the last whole record are reported.
pub open spec fn trailing_told(c: CtxV, n: usize) -> CtxV {
    if n > 0 {
        c.raised(reported(Report::TrailingBytes(n as u64), c.label))
    } else {
        c
    }
}

/// The records that the next chunk takes.
pub open spec fn next_take(c: BinChunker) -> int {
    if c.chunk_size < c.recs_left {
        c.chunk_size as int
    } else {
        c.recs_left as int
    }
}

proof fn lemma_types(
    buf: Seq<u8>,
    ts: Seq<BinType>,
    offsets: Seq<usize>,
    rec: int,
    e: Endian,
    n: nat,
    k: nat,
    log: Log,
)
    ensures
        bin_columns(buf, ts, offsets, rec, e, n, k, log) matches Ok(s) ==> s.len() == k && (
        forall|i: int| 0 <= i < k ==> (#[trigger] s[i]).dtype == ts[i].lane_type()),
    decreases k,
{
    if k > 0 {
        lemma_types(buf, ts, offsets, rec, e, n, (k - 1) as nat, log);
    }
}

impl SourceBinary {
    /// The fields lie inside the record and are the columns.
    pub open spec fn wf(&self) -> bool {
        &&& self.chunker.wf()
        &&& self.layout@.len() > 0
        &&& inside(bin_types(self.layout@), self.offsets@, self.chunker.rec_size as int)
        &&& fields_view(self.fields@) == bin_fields(self.layout@)
    }

    /// The source of a file of `len` bytes; the reason where the records have no
    /// fields. Bytes after the last whole record are reported.
    pub fn open(
        layout: Vec<(String, BinType)>,
        len: usize,
        endian: Endian,
        c_align: bool,
        chunk_size: usize,
        ctx: &mut OpCtx,
    ) -> (r: Result<SourceBinary, String>)
        requires
            16 * layout@.len() + 32 <= usize::MAX,
        ensures
            match r {
                Err(why) => layout@.len() == 0 && why@ == "empty binary layout"@ && final(ctx)@
                    == old(ctx)@,
                Ok(s) => {
                    let rec = stride(bin_types(layout@), c_align);
                    &&& layout@.len() > 0
                    &&& s.wf()
                    &&& s.layout == layout
                    &&& s.endian == endian
                    &&& forall|i: int|
                        0 <= i < s.offsets@.len() ==> (#[trigger] s.offsets@[i]) == offset_of(
                            bin_types(layout@),
                            c_align,
                            i as nat,
                        )
                    &&& s.chunker.rec_size == rec
                    &&& s.chunker.chunk_size == if chunk_size == 0 {
                        1
                    } else {
                        chunk_size
                    }
                    &&& s.chunker.recs_left == len as int / rec
                    &&& s.chunker.trailing == len as int % rec
                    &&& final(ctx)@ == trailing_told(old(ctx)@, s.chunker.trailing)
                },
            },
    {
        match bin_layout(&layout, c_align) {
            None => Err(owned("empty binary layout")),
            Some((offsets, rec_size)) => {
                let chunker: BinChunker = BinChunker::open(len, rec_size, chunk_size);
                if chunker.trailing > 0 {
                    let e = report(Report::TrailingBytes(chunker.trailing as u64), ctx.label.as_str());
                    ctx.raise(e);
                }
                proof {
                    let ts = bin_types(layout@);
                    assert forall|i: int| 0 <= i < offsets@.len() implies (#[trigger] offsets@[i])
                        + ts[i].width() <= rec_size by {
                        lemma_layout(ts, c_align, i as nat);
                    }
                }
                let fields: Vec<Field> = bin_schema(&layout);
                Ok(SourceBinary { layout, offsets, endian, chunker, fields })
            },
        }
    }

    /// How many bytes the next chunk is made of; `None` at the end.
    pub fn wants(&self) -> (r: Option<usize>)
        requires
            self.wf(),
        ensures
            match r {
                None => self.chunker.recs_left == 0,
                Some(n) => self.chunker.recs_left > 0 && n == next_take(self.chunker)
                    * self.chunker.rec_size,
            },
    {
        match self.chunker.next_batch() {
            None => None,
            Some((_, bytes)) => Some(bytes),
        }
    }

    /// The next chunk, made of the bytes that were wanted; `None` at the end, and
    /// where they could not be read, which ends the source. A question leaves
    /// everything as it was.
    pub fn pull(&mut self, read: &Option<Vec<u8>>, ctx: &mut OpCtx, host: &Answers) -> (r: Result<
        Option<Chunk>,
        Ask,
    >)
        requires
            old(self).wf(),
            read matches Some(buf) ==> next_take(old(self).chunker) * old(self).chunker.rec_size
                <= buf@.len(),
        ensures
            final(self).wf(),
            final(self).layout == old(self).layout,
            final(self).offsets == old(self).offsets,
            final(self).endian == old(self).endian,
            final(self).fields == old(self).fields,
            final(self).chunker.rec_size == old(self).chunker.rec_size,
            final(self).chunker.chunk_size == old(self).chunker.chunk_size,
            final(self).chunker.trailing == old(self).chunker.trailing,
            if old(self).chunker.recs_left == 0 || read is None {
                r matches Ok(None) && final(self).chunker.recs_left == 0 && final(ctx)@ == old(ctx)@
            } else {
                let take = next_take(old(self).chunker);
                match (
                    r,
                    bin_columns(
                        read->0@,
                        bin_types(old(self).layout@),
                        old(self).offsets@,
                        old(self).chunker.rec_size as int,
                        old(self).endian,
                        take as nat,
                        old(self).layout@.len(),
                        host@,
                    ),
                ) {
                    (Ok(Some(c)), Ok(columns)) => {
                        &&& c@ == chunk_made(
                            bin_fields(old(self).layout@),
                            columns,
                            old(ctx)@.next_chunk_id,
                        )
                        &&& c@.wf()
                        &&& c@.len == take
                        &&& final(self).chunker.recs_left == old(self).chunker.recs_left - take
                        &&& final(ctx)@ == old(ctx)@.advanced()
                    },
                    (Err(a), Err(q)) => a@ == q && final(self).chunker.recs_left == old(
                        self,
                    ).chunker.recs_left && final(ctx)@ == old(ctx)@,
                    _ => false,
                }
            },
    {
        let take: usize = match self.chunker.next_batch() {
            None => {
                return Ok(None);
            },
            Some((n, _)) => n,
        };
        match read {
            None => {
                self.chunker.took(take, false);
                Ok(None)
            },
            Some(buf) => match decode_bin_batch(
                buf,
                &self.layout,
                &self.offsets,
                self.chunker.rec_size,
                self.endian,
                take,
                host,
            ) {
                Err(a) => Err(a),
                Ok(columns) => {
                    let ghost ls = lanes(columns@);
                    self.chunker.took(take, true);
                    let c: Chunk = new_chunk(dup_fields(&self.fields), columns, ctx);
                    proof {
                        let ts = bin_types(self.layout@);
                        lemma_types(
                            buf@,
                            ts,
                            self.offsets@,
                            self.chunker.rec_size as int,
                            self.endian,
                            take as nat,
                            self.layout@.len(),
                            host@,
                        );
                        assert(ls[0].typed());
                        assert(c@.len == take);
                        assert forall|i: int| 0 <= i < c@.fields.len() implies (
                        #[trigger] c@.columns[i]).dtype == c@.fields[i].dtype by {
                            assert(ls[i].dtype == ts[i].lane_type());
                        }
                        assert forall|i: int| 0 <= i < c@.columns.len() implies {
                            &&& (#[trigger] c@.columns[i]).cells.len() == c@.len
                            &&& c@.columns[i].typed()
                        } by {
                            assert(ls[i].typed());
                        }
                    }
                    Ok(Some(c))
                },
            },
        }
    }
}

/// The source of `n_recs` records of a file whose records are known.
pub fn bin_range_source(
    layout: Vec<(String, BinType)>,
    offsets: Vec<usize>,
    rec_size: usize,
    endian: Endian,
    n_recs: usize,
    chunk_size: usize,
) -> (r: SourceBinary)
    requires
        layout@.len() > 0,
        rec_size > 0,
        n_recs * rec_size <= usize::MAX,
        inside(bin_types(layout@), offsets@, rec_size as int),
    ensures
        r.wf(),
        r.layout == layout,
        r.offsets == offsets,
        r.endian == endian,
        r.chunker == (BinChunker {
            rec_size,
            chunk_size: if chunk_size == 0 {
                1
            } else {
                chunk_size
            },
            recs_left: n_recs,
            trailing: 0,
        }),
{
    let chunker = BinChunker {
        rec_size,
        chunk_size: if chunk_size == 0 {
            1
        } else {
            chunk_size
        },
        recs_left: n_recs,
        trailing: 0,
    };
    let fields: Vec<Field> = bin_schema(&layout);
    SourceBinary { layout, offsets, endian, chunker, fields }
}

} // verus!
