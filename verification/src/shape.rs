//! Operators that shape the columns of a chunk: rename, drop, reorder, cast and
//! projections.
use vstd::prelude::*;
use crate::cast::{agree_text, cast_column, cast_lane, lemma_cast_lane_typed};
use crate::chunk::{dup_columns, dup_fields, dup_opt_text, fields_view, flat_field, index_in, index_of, lanes, lemma_index_in, Batch, Chunk, Column, Field, FieldV, Lane};
use crate::event::{message3, CtxV, ErrorScope, EventV, OpCtx, Severity};
use crate::expr::Expr;
use crate::host::{ask1, get_text, text_answer, Answers, Ask, HostOp, Log, Query};
use crate::lanes::{eval_column, lane_of};
use crate::rows::{kept, known, lemma_kept, resolve_names, unknown};
use crate::text::same_text;
use crate::value::{data, texts, DataType, Datum, Value};

verus! {

/// The number of rows of a list of columns.
pub open spec fn row_count(columns: Seq<Lane>) -> nat {
    if columns.len() == 0 {
        0
    } else {
        columns[0].cells.len()
    }
}

/// The chunk with other columns; what the runtime knows of it stays.
pub open spec fn rebuilt(b: Batch, fields: Seq<FieldV>, columns: Seq<Lane>) -> Batch {
    Batch { fields, columns, len: row_count(columns), ..b }
}

fn rebuild(chunk: &Chunk, fields: Vec<Field>, columns: Vec<Column>) -> (r: Chunk)
    ensures
        r@ == rebuilt(chunk@, fields_view(fields@), lanes(columns@)),
{
    let len: usize = if columns.len() == 0 {
        0
    } else {
        assert(lanes(columns@)[0] == columns@[0]@);
        columns[0].len()
    };
    Chunk {
        fields,
        columns,
        len,
        id: chunk.id,
        mode: chunk.mode,
        source: dup_opt_text(&chunk.source),
    }
}

/// The columns of a chunk at the given places, in that order.
pub open spec fn picked(b: Batch, at: Seq<usize>) -> Batch {
    rebuilt(
        b,
        Seq::new(at.len(), |i: int| b.fields[at[i] as int]),
        Seq::new(at.len(), |i: int| b.columns[at[i] as int]),
    )
}

/// Picking named columns keeps a chunk well formed.
pub proof fn lemma_picked_wf(b: Batch, at: Seq<usize>)
    requires
        b.wf(),
        forall|i: int| 0 <= i < at.len() ==> (#[trigger] at[i]) < b.fields.len(),
    ensures
        picked(b, at).wf(),
{
    let p = picked(b, at);
    assert forall|i: int| 0 <= i < p.columns.len() implies {
        &&& (#[trigger] p.columns[i]).cells.len() == p.len
        &&& p.columns[i].typed()
    } by {
        assert(at[i] < b.fields.len());
        assert(b.columns[at[i] as int].typed());
        assert(at[0] < b.fields.len());
        assert(b.columns[at[0] as int].typed());
    }
    assert forall|i: int| 0 <= i < p.fields.len() implies (#[trigger] p.columns[i]).dtype
        == p.fields[i].dtype by {
        assert(at[i] < b.fields.len());
        assert(b.columns[at[i] as int].dtype == b.fields[at[i] as int].dtype);
    }
}

/// The columns of a chunk at the given places, in that order.
pub fn pick(chunk: &Chunk, at: &Vec<usize>) -> (r: Chunk)
    requires
        chunk@.wf(),
        forall|i: int| 0 <= i < at@.len() ==> (#[trigger] at@[i]) < chunk@.fields.len(),
    ensures
        r@ == picked(chunk@, at@),
        r@.wf(),
{
    let mut fields: Vec<Field> = Vec::new();
    let mut columns: Vec<Column> = Vec::new();
    let ghost p = picked(chunk@, at@);
    for i in 0..at.len()
        invariant
            chunk@.wf(),
            p == picked(chunk@, at@),
            forall|i: int| 0 <= i < at@.len() ==> (#[trigger] at@[i]) < chunk@.fields.len(),
            fields@.len() == i,
            columns@.len() == i,
            forall|k: int| 0 <= k < i ==> (#[trigger] fields@[k])@ == p.fields[k],
            forall|k: int| 0 <= k < i ==> (#[trigger] columns@[k])@ == p.columns[k],
    {
        let j: usize = at[i];
        assert(chunk@.columns[j as int] == chunk.columns@[j as int]@);
        fields.push(chunk.fields[j].dup());
        columns.push(chunk.columns[j].dup());
    }
    assert(fields_view(fields@) =~= p.fields);
    assert(lanes(columns@) =~= p.columns);
    proof {
        lemma_picked_wf(chunk@, at@);
    }
    rebuild(chunk, fields, columns)
}

// ---------------------------------------------------------------- rename

/// The fields with the first `n` renamings applied. A renaming names a column
/// of the chunk as it came, also where an earlier one has renamed it.
pub open spec fn renamed(fields: Seq<FieldV>, pairs: Seq<(Seq<char>, Seq<char>)>, n: nat) -> Seq<FieldV>
    decreases n,
{
    if n == 0 {
        fields
    } else {
        let up = renamed(fields, pairs, (n - 1) as nat);
        match index_in(fields, pairs[n - 1].0) {
            Some(i) => up.update(i, flat_field(pairs[n - 1].1, up[i].dtype)),
            None => up,
        }
    }
}

/// The context after warning of each of the first `n` names that is no column.
pub open spec fn warned(
    c: CtxV,
    fields: Seq<FieldV>,
    names: Seq<Seq<char>>,
    n: nat,
    what: Seq<char>,
    id: u64,
) -> CtxV
    decreases n,
{
    if n == 0 {
        c
    } else {
        let up = warned(c, fields, names, (n - 1) as nat, what, id);
        match index_in(fields, names[n - 1]) {
            Some(_) => up,
            None => up.raised(
                EventV {
                    chunk: Some(id),
                    ..up.event(
                        Severity::Warn,
                        ErrorScope::Chunk,
                        what + names[n - 1] + seq!['\''],
                    )
                },
            ),
        }
    }
}

/// The views of a list of string pairs.
pub open spec fn pair_views(s: Seq<(String, String)>) -> Seq<(Seq<char>, Seq<char>)> {
    Seq::new(s.len(), |i: int| (s[i].0@, s[i].1@))
}

/// The first parts of a list of pairs.
pub open spec fn firsts<T>(s: Seq<(Seq<char>, T)>) -> Seq<Seq<char>> {
    Seq::new(s.len(), |i: int| s[i].0)
}

proof fn lemma_renamed_len(fields: Seq<FieldV>, pairs: Seq<(Seq<char>, Seq<char>)>, n: nat)
    ensures
        renamed(fields, pairs, n).len() == fields.len(),
        forall|i: int|
            0 <= i < fields.len() ==> (#[trigger] renamed(fields, pairs, n)[i]).dtype
                == fields[i].dtype,
    decreases n,
{
    if n > 0 {
        lemma_renamed_len(fields, pairs, (n - 1) as nat);
        lemma_index_in(fields, pairs[n - 1].0);
    }
}

/// `rename`: other names for some columns; position, type and values stay. A
/// name that is no column is warned of and passed over.
pub struct Rename {
    pub pairs: Vec<(String, String)>,
}

impl Rename {
    /// The chunk with renamed columns.
    pub fn process(&self, chunk: &Chunk, ctx: &mut OpCtx) -> (r: Chunk)
        requires
            chunk@.wf(),
        ensures
            ({
                let pairs = pair_views(self.pairs@);
                &&& r@ == rebuilt(
                    chunk@,
                    renamed(chunk@.fields, pairs, pairs.len()),
                    chunk@.columns,
                )
                &&& final(ctx)@ == warned(
                    old(ctx)@,
                    chunk@.fields,
                    firsts(pairs),
                    pairs.len(),
                    "rename: unknown column '"@,
                    chunk.id,
                )
                &&& r@.wf()
            }),
    {
        let ghost pairs = pair_views(self.pairs@);
        let ghost start = ctx@;
        let mut fields: Vec<Field> = dup_fields(&chunk.fields);
        for n in 0..self.pairs.len()
            invariant
                pairs == pair_views(self.pairs@),
                pairs.len() == self.pairs@.len(),
                chunk@.wf(),
                fields_view(fields@) == renamed(chunk@.fields, pairs, n as nat),
                ctx@ == warned(
                    start,
                    chunk@.fields,
                    firsts(pairs),
                    n as nat,
                    "rename: unknown column '"@,
                    chunk.id,
                ),
        {
            let ghost up = fields_view(fields@);
            proof {
                lemma_renamed_len(chunk@.fields, pairs, n as nat);
                assert(firsts(pairs)[n as int] == pairs[n as int].0);
            }
            let from: &String = &self.pairs[n].0;
            match index_of(&chunk.fields, from.as_str()) {
                Some(i) => {
                    assert(up[i as int] == fields@[i as int]@);
                    let dtype: DataType = fields[i].dtype;
                    fields.set(i, Field::flat(self.pairs[n].1.clone(), dtype));
                    assert(fields_view(fields@) =~= up.update(
                        i as int,
                        flat_field(pairs[n as int].1, dtype),
                    ));
                },
                None => {
                    proof {
                        reveal_strlit("'");
                        assert("'"@ =~= seq!['\'']);
                    }
                    ctx.warn_at(message3("rename: unknown column '", from.as_str(), "'"), chunk.id);
                },
            }
        }
        proof {
            lemma_renamed_len(chunk@.fields, pairs, pairs.len());
        }
        let r = rebuild(chunk, fields, dup_columns(&chunk.columns));
        proof {
            lemma_rebuilt_wf(chunk@, r@.fields);
        }
        r
    }
}

/// Other fields of the same types leave a chunk well formed.
proof fn lemma_rebuilt_wf(b: Batch, fields: Seq<FieldV>)
    requires
        b.wf(),
        fields.len() == b.fields.len(),
        forall|i: int| 0 <= i < fields.len() ==> (#[trigger] fields[i]).dtype == b.fields[i].dtype,
    ensures
        rebuilt(b, fields, b.columns).wf(),
{
    let r = rebuilt(b, fields, b.columns);
    assert forall|i: int| 0 <= i < r.columns.len() implies {
        &&& (#[trigger] r.columns[i]).cells.len() == r.len
        &&& r.columns[i].typed()
    } by {
        assert(b.columns[i].typed());
        assert(b.columns[0].typed());
    }
    assert forall|i: int| 0 <= i < r.fields.len() implies (#[trigger] r.columns[i]).dtype
        == r.fields[i].dtype by {
        assert(b.columns[i].dtype == b.fields[i].dtype);
        assert(fields[i].dtype == b.fields[i].dtype);
    }
}

// ------------------------------------------------------------------ drop

/// Is the text one of the names?
pub fn has_text(names: &Vec<String>, t: &str) -> (r: bool)
    ensures
        r == texts(names@).contains(t@),
{
    for i in 0..names.len()
        invariant
            forall|k: int| 0 <= k < i ==> (#[trigger] names@[k])@ != t@,
    {
        if same_text(names[i].as_str(), t) {
            assert(texts(names@)[i as int] == t@);
            return true;
        }
    }
    assert(!texts(names@).contains(t@)) by {
        if texts(names@).contains(t@) {
            let k = choose|k: int| 0 <= k < texts(names@).len() && texts(names@)[k] == t@;
            assert(names@[k]@ == t@);
        }
    }
    false
}

/// The places of the fields whose names are not dropped.
pub open spec fn undropped(fields: Seq<FieldV>, names: Seq<Seq<char>>) -> Result<Seq<usize>, Query> {
    kept(|i: int| Ok(!names.contains(fields[i].name)), fields.len())
}

/// What `drop` hands on: the chunk without the named columns, or the chunk as it
/// is where none of them is there.
pub open spec fn dropped(b: Batch, names: Seq<Seq<char>>) -> Batch {
    match undropped(b.fields, names) {
        Ok(keep) => if keep.len() == b.fields.len() {
            b
        } else {
            picked(b, keep)
        },
        Err(_) => b,
    }
}

/// `drop`: removes the named columns and keeps the rest in order. Dropping a
/// column that is not there does nothing.
pub struct Drop {
    pub cols: Vec<String>,
}

impl Drop {
    /// The chunk without the named columns.
    pub fn process(&self, chunk: &Chunk) -> (r: Chunk)
        requires
            chunk@.wf(),
        ensures
            undropped(chunk@.fields, texts(self.cols@)) is Ok,
            r@ == dropped(chunk@, texts(self.cols@)),
            r@.wf(),
    {
        let ghost names = texts(self.cols@);
        let ghost f = |i: int| Ok::<bool, Query>(!names.contains(chunk@.fields[i].name));
        let mut keep: Vec<usize> = Vec::new();
        for i in 0..chunk.fields.len()
            invariant
                names == texts(self.cols@),
                f == (|i: int| Ok::<bool, Query>(!names.contains(chunk@.fields[i].name))),
                kept(f, i as nat) == Ok::<Seq<usize>, Query>(keep@),
        {
            assert(chunk@.fields[i as int].name == chunk.fields@[i as int].name@);
            if !has_text(&self.cols, chunk.fields[i].name.as_str()) {
                keep.push(i);
            }
        }
        proof {
            lemma_kept(f, chunk@.fields.len());
        }
        if keep.len() == chunk.fields.len() {
            return chunk.dup();
        }
        pick(chunk, &keep)
    }
}

// --------------------------------------------------------------- reorder

/// The named columns that are there, in the order of the names, each once.
pub open spec fn front(fields: Seq<FieldV>, names: Seq<Seq<char>>) -> Seq<usize>
    decreases names.len(),
{
    if names.len() == 0 {
        Seq::empty()
    } else {
        let up = front(fields, names.drop_last());
        match index_in(fields, names.last()) {
            Some(i) => if up.contains(i as usize) {
                up
            } else {
                up.push(i as usize)
            },
            None => up,
        }
    }
}

/// A list of places with the missing ones below `n` after it, in order.
pub open spec fn completed(first: Seq<usize>, n: nat) -> Seq<usize>
    decreases n,
{
    if n == 0 {
        first
    } else {
        let up = completed(first, (n - 1) as nat);
        if up.contains((n - 1) as usize) {
            up
        } else {
            up.push((n - 1) as usize)
        }
    }
}

/// The order that `reorder` brings the columns into.
pub open spec fn reordered(fields: Seq<FieldV>, names: Seq<Seq<char>>) -> Seq<usize> {
    completed(front(fields, names), fields.len())
}

/// The order is a permutation: every column is in it, exactly once.
pub proof fn lemma_reorder_permutes(fields: Seq<FieldV>, names: Seq<Seq<char>>)
    requires
        fields.len() <= usize::MAX,
    ensures
        reordered(fields, names).no_duplicates(),
        forall|i: usize| i < fields.len() ==> #[trigger] reordered(fields, names).contains(i),
        forall|k: int|
            0 <= k < reordered(fields, names).len() ==> (#[trigger] reordered(fields, names)[k])
                < fields.len(),
{
    lemma_front(fields, names);
    lemma_completed(front(fields, names), fields.len(), fields.len());
}

proof fn lemma_front(fields: Seq<FieldV>, names: Seq<Seq<char>>)
    requires
        fields.len() <= usize::MAX,
    ensures
        front(fields, names).no_duplicates(),
        forall|k: int|
            0 <= k < front(fields, names).len() ==> (#[trigger] front(fields, names)[k])
                < fields.len(),
    decreases names.len(),
{
    if names.len() > 0 {
        lemma_front(fields, names.drop_last());
        lemma_index_in(fields, names.last());
    }
}

proof fn lemma_completed(first: Seq<usize>, n: nat, m: nat)
    requires
        n <= m <= usize::MAX,
        first.no_duplicates(),
        forall|k: int| 0 <= k < first.len() ==> (#[trigger] first[k]) < m,
    ensures
        completed(first, n).no_duplicates(),
        forall|i: usize| i < n ==> #[trigger] completed(first, n).contains(i),
        forall|k: int|
            0 <= k < completed(first, n).len() ==> (#[trigger] completed(first, n)[k]) < m,
    decreases n,
{
    if n > 0 {
        lemma_completed(first, (n - 1) as nat, m);
        let up = completed(first, (n - 1) as nat);
        let all = completed(first, n);
        assert forall|i: usize| i < n implies #[trigger] all.contains(i) by {
            if i < n - 1 {
                assert(up.contains(i));
                let k = choose|k: int| 0 <= k < up.len() && up[k] == i;
                assert(all[k] == i);
            } else if !up.contains(i) {
                assert(all[up.len() as int] == i);
            }
        }
    }
}

/// Is the order the one that the columns have?
pub open spec fn in_place(order: Seq<usize>) -> bool {
    forall|k: int| 0 <= k < order.len() ==> (#[trigger] order[k]) == k
}

/// `reorder`: moves the named columns to the front, in the order of the names;
/// the others follow in theirs. Names that are no columns are passed over.
pub struct Reorder {
    pub cols: Vec<String>,
}

fn has_place(v: &Vec<usize>, x: usize) -> (r: bool)
    ensures
        r == v@.contains(x),
{
    for i in 0..v.len()
        invariant
            forall|k: int| 0 <= k < i ==> (#[trigger] v@[k]) != x,
    {
        if v[i] == x {
            return true;
        }
    }
    false
}

impl Reorder {
    /// The order of the columns.
    fn order(&self, chunk: &Chunk) -> (r: Vec<usize>)
        ensures
            r@ == reordered(chunk@.fields, texts(self.cols@)),
    {
        let mut order: Vec<usize> = Vec::new();
        let ghost t = texts(self.cols@);
        for n in 0..self.cols.len()
            invariant
                t == texts(self.cols@),
                order@ == front(chunk@.fields, t.take(n as int)),
        {
            proof {
                assert(t.take(n + 1).drop_last() =~= t.take(n as int));
                assert(t.take(n + 1).last() == self.cols@[n as int]@);
            }
            match index_of(&chunk.fields, self.cols[n].as_str()) {
                Some(i) => {
                    if !has_place(&order, i) {
                        order.push(i);
                    }
                },
                None => {},
            }
        }
        assert(t.take(t.len() as int) =~= t);
        let ghost first = order@;
        for i in 0..chunk.fields.len()
            invariant
                order@ == completed(first, i as nat),
        {
            if !has_place(&order, i) {
                order.push(i);
            }
        }
        order
    }

    /// The chunk with its columns in the new order.
    pub fn process(&self, chunk: &Chunk) -> (r: Chunk)
        requires
            chunk@.wf(),
        ensures
            ({
                let order = reordered(chunk@.fields, texts(self.cols@));
                r@ == if in_place(order) {
                    chunk@
                } else {
                    picked(chunk@, order)
                }
            }),
            r@.wf(),
    {
        let order: Vec<usize> = self.order(chunk);
        let limit: usize = chunk.fields.len();
        proof {
            lemma_reorder_permutes(chunk@.fields, texts(self.cols@));
        }
        for k in 0..order.len()
            invariant
                chunk@.wf(),
                order@ == reordered(chunk@.fields, texts(self.cols@)),
                forall|k: int| 0 <= k < order@.len() ==> (#[trigger] order@[k]) < chunk@.fields.len(),
                forall|j: int| 0 <= j < k ==> (#[trigger] order@[j]) == j,
        {
            if order[k] != k {
                assert(!in_place(order@));
                return pick(chunk, &order);
            }
        }
        chunk.dup()
    }
}

// ------------------------------------------------------------------ cast

/// The fields and columns with the first `n` casts applied.
pub open spec fn recast(b: Batch, casts: Seq<(Seq<char>, DataType)>, n: nat, log: Log) -> Result<
    (Seq<FieldV>, Seq<Lane>),
    Query,
>
    decreases n,
{
    if n == 0 {
        Ok((b.fields, b.columns))
    } else {
        match recast(b, casts, (n - 1) as nat, log) {
            Err(q) => Err(q),
            Ok((fields, columns)) => match index_in(b.fields, casts[n - 1].0) {
                None => Ok((fields, columns)),
                Some(i) => match cast_lane(columns[i], casts[n - 1].1, log) {
                    Err(q) => Err(q),
                    Ok((lane, _)) => Ok(
                        (
                            fields.update(i, flat_field(casts[n - 1].0, lane.dtype)),
                            columns.update(i, lane),
                        ),
                    ),
                },
            },
        }
    }
}

proof fn lemma_recast_stops(b: Batch, casts: Seq<(Seq<char>, DataType)>, n: nat, m: nat, log: Log)
    requires
        recast(b, casts, n, log) is Err,
        n <= m,
    ensures
        recast(b, casts, m, log) == recast(b, casts, n, log),
    decreases m,
{
    if n < m {
        lemma_recast_stops(b, casts, n, (m - 1) as nat, log);
    }
}

/// The fields and columns of a chunk with as many rows.
spec fn fitting(b: Batch, fields: Seq<FieldV>, columns: Seq<Lane>) -> bool {
    &&& fields.len() == b.fields.len()
    &&& columns.len() == b.columns.len()
    &&& forall|i: int|
        0 <= i < columns.len() ==> (#[trigger] columns[i]).typed() && columns[i].cells.len() == b.len
    &&& forall|i: int|
        0 <= i < fields.len() ==> (#[trigger] columns[i]).dtype == fields[i].dtype
}

/// The views of a list of casts.
pub open spec fn cast_views(s: Seq<(String, DataType)>) -> Seq<(Seq<char>, DataType)> {
    Seq::new(s.len(), |i: int| (s[i].0@, s[i].1))
}

/// `cast`: columns converted to other types in place. Names that are no columns
/// are warned of and passed over.
pub struct Cast {
    pub casts: Vec<(String, DataType)>,
}

impl Cast {
    fn recast(&self, chunk: &Chunk, host: &Answers) -> (r: Result<(Vec<Field>, Vec<Column>), Ask>)
        requires
            chunk@.wf(),
        ensures
            match (r, recast(chunk@, cast_views(self.casts@), self.casts@.len(), host@)) {
                (Ok((f, c)), Ok((fv, cv))) => fields_view(f@) == fv && lanes(c@) == cv && fitting(
                    chunk@,
                    fv,
                    cv,
                ),
                (Err(a), Err(q)) => a@ == q,
                _ => false,
            },
    {
        let ghost casts = cast_views(self.casts@);
        let mut fields: Vec<Field> = dup_fields(&chunk.fields);
        let mut columns: Vec<Column> = dup_columns(&chunk.columns);
        for n in 0..self.casts.len()
            invariant
                chunk@.wf(),
                casts == cast_views(self.casts@),
                casts.len() == self.casts@.len(),
                recast(chunk@, casts, n as nat, host@) == Ok::<(Seq<FieldV>, Seq<Lane>), Query>(
                    (fields_view(fields@), lanes(columns@)),
                ),
                fitting(chunk@, fields_view(fields@), lanes(columns@)),
        {
            let ghost fv = fields_view(fields@);
            let ghost cv = lanes(columns@);
            match index_of(&chunk.fields, self.casts[n].0.as_str()) {
                Some(i) => {
                    let mut fails: u64 = 0;
                    assert(cv[i as int] == columns@[i as int]@);
                    match cast_column(columns[i].dup(), self.casts[n].1, host, &mut fails) {
                        Err(a) => {
                            proof {
                                lemma_recast_stops(
                                    chunk@,
                                    casts,
                                    (n + 1) as nat,
                                    casts.len(),
                                    host@,
                                );
                            }
                            return Err(a);
                        },
                        Ok(c) => {
                            proof {
                                lemma_cast_lane_typed(cv[i as int], casts[n as int].1, host@);
                            }
                            let dtype: DataType = c.dtype;
                            let ghost lane = c@;
                            fields.set(i, Field::flat(self.casts[n].0.clone(), dtype));
                            columns.set(i, c);
                            assert(fields_view(fields@) =~= fv.update(
                                i as int,
                                flat_field(casts[n as int].0, dtype),
                            ));
                            assert(lanes(columns@) =~= cv.update(i as int, lane));
                        },
                    }
                },
                None => {},
            }
        }
        Ok((fields, columns))
    }

    /// The chunk with the named columns converted.
    pub fn process(&self, chunk: &Chunk, ctx: &mut OpCtx, host: &Answers) -> (r: Result<Chunk, Ask>)
        requires
            chunk@.wf(),
        ensures
            ({
                let casts = cast_views(self.casts@);
                match (r, recast(chunk@, casts, casts.len(), host@)) {
                    (Ok(c), Ok((fields, columns))) => {
                        &&& c@ == if known(chunk@.fields, firsts(casts)).len() == 0 {
                            chunk@
                        } else {
                            rebuilt(chunk@, fields, columns)
                        }
                        &&& final(ctx)@ == warned(
                            old(ctx)@,
                            chunk@.fields,
                            firsts(casts),
                            casts.len(),
                            "cast: unknown column '"@,
                            chunk.id,
                        )
                        &&& c@.wf()
                    },
                    (Err(a), Err(q)) => a@ == q && final(ctx)@ == old(ctx)@,
                    _ => false,
                }
            }),
    {
        let ghost casts = cast_views(self.casts@);
        let (fields, columns) = match self.recast(chunk, host) {
            Err(a) => {
                return Err(a);
            },
            Ok(p) => p,
        };
        let ghost start = ctx@;
        let mut changed: bool = false;
        let ghost names = firsts(casts);
        for n in 0..self.casts.len()
            invariant
                casts == cast_views(self.casts@),
                casts.len() == self.casts@.len(),
                names == firsts(casts),
                changed == (known(chunk@.fields, names.take(n as int)).len() > 0),
                ctx@ == warned(
                    start,
                    chunk@.fields,
                    names,
                    n as nat,
                    "cast: unknown column '"@,
                    chunk.id,
                ),
        {
            proof {
                assert(names.take(n + 1).drop_last() =~= names.take(n as int));
                assert(names.take(n + 1).last() == self.casts@[n as int].0@);
                assert(names[n as int] == self.casts@[n as int].0@);
                reveal_strlit("'");
                assert("'"@ =~= seq!['\'']);
            }
            let name: &String = &self.casts[n].0;
            match index_of(&chunk.fields, name.as_str()) {
                Some(_) => {
                    changed = true;
                },
                None => {
                    ctx.warn_at(message3("cast: unknown column '", name.as_str(), "'"), chunk.id);
                },
            }
        }
        assert(names.take(names.len() as int) =~= names);
        if !changed {
            return Ok(chunk.dup());
        }
        let r = rebuild(chunk, fields, columns);
        proof {
            lemma_fitting_wf(chunk@, r@.fields, r@.columns);
        }
        Ok(r)
    }
}

proof fn lemma_fitting_wf(b: Batch, fields: Seq<FieldV>, columns: Seq<Lane>)
    requires
        b.wf(),
        fitting(b, fields, columns),
    ensures
        rebuilt(b, fields, columns).wf(),
{
    let r = rebuilt(b, fields, columns);
    assert forall|i: int| 0 <= i < r.columns.len() implies {
        &&& (#[trigger] r.columns[i]).cells.len() == r.len
        &&& r.columns[i].typed()
    } by {
        assert(columns[0].cells.len() == b.len);
    }
}

// ------------------------------------------------------------ projections

/// The fields and columns of the first `n` items of a computed projection.
pub open spec fn computed(b: Batch, items: Seq<(Expr, String)>, n: nat, log: Log) -> Result<
    (Seq<FieldV>, Seq<Lane>),
    Query,
>
    decreases n,
{
    if n == 0 {
        Ok((Seq::empty(), Seq::empty()))
    } else {
        match computed(b, items, (n - 1) as nat, log) {
            Err(q) => Err(q),
            Ok((fields, columns)) => match lane_of(items[n - 1].0, b, log) {
                Err(q) => Err(q),
                Ok((lane, _)) => Ok(
                    (
                        fields.push(flat_field(items[n - 1].1@, lane.dtype)),
                        columns.push(lane),
                    ),
                ),
            },
        }
    }
}

proof fn lemma_computed_stops(b: Batch, items: Seq<(Expr, String)>, n: nat, m: nat, log: Log)
    requires
        computed(b, items, n, log) is Err,
        n <= m,
    ensures
        computed(b, items, m, log) == computed(b, items, n, log),
    decreases m,
{
    if n < m {
        lemma_computed_stops(b, items, n, (m - 1) as nat, log);
    }
}

/// Does the item refer to a column that is not there?
pub open spec fn missing_field(e: Expr, b: Batch) -> bool {
    e matches Expr::Field { name, access } && index_in(b.fields, name@) is None
}

/// The context after warning of each of the first `n` items that refers to a
/// column that is not there.
pub open spec fn item_warned(c: CtxV, b: Batch, items: Seq<(Expr, String)>, n: nat) -> CtxV
    decreases n,
{
    if n == 0 {
        c
    } else {
        let up = item_warned(c, b, items, (n - 1) as nat);
        if missing_field(items[n - 1].0, b) {
            up.raised(
                EventV {
                    chunk: Some(b.id),
                    ..up.event(
                        Severity::Warn,
                        ErrorScope::Chunk,
                        "project: unknown field '"@ + items[n - 1].0->Field_name@ + seq!['\''],
                    )
                },
            )
        } else {
            up
        }
    }
}

/// A projection that can compute columns: one column for each item, under its
/// name, with as many rows.
pub struct ProjectExpr {
    pub items: Vec<(Expr, String)>,
}

impl ProjectExpr {
    fn compute(&self, chunk: &Chunk, host: &Answers) -> (r: Result<(Vec<Field>, Vec<Column>), Ask>)
        requires
            chunk@.wf(),
        ensures
            match (r, computed(chunk@, self.items@, self.items@.len(), host@)) {
                (Ok((f, c)), Ok((fv, cv))) => fields_view(f@) == fv && lanes(c@) == cv && sized(
                    fv,
                    cv,
                    chunk@.len,
                ),
                (Err(a), Err(q)) => a@ == q,
                _ => false,
            },
    {
        let mut fields: Vec<Field> = Vec::new();
        let mut columns: Vec<Column> = Vec::new();
        assert(fields_view(fields@) =~= Seq::empty());
        assert(lanes(columns@) =~= Seq::empty());
        for n in 0..self.items.len()
            invariant
                chunk@.wf(),
                computed(chunk@, self.items@, n as nat, host@) == Ok::<
                    (Seq<FieldV>, Seq<Lane>),
                    Query,
                >((fields_view(fields@), lanes(columns@))),
                sized(fields_view(fields@), lanes(columns@), chunk@.len),
        {
            let ghost fv = fields_view(fields@);
            let ghost cv = lanes(columns@);
            let mut fails: u64 = 0;
            match eval_column(&self.items[n].0, chunk, host, &mut fails) {
                Err(a) => {
                    proof {
                        lemma_computed_stops(
                            chunk@,
                            self.items@,
                            (n + 1) as nat,
                            self.items@.len(),
                            host@,
                        );
                    }
                    return Err(a);
                },
                Ok(c) => {
                    let ghost lane = c@;
                    fields.push(Field::flat(self.items[n].1.clone(), c.dtype));
                    columns.push(c);
                    assert(fields_view(fields@) =~= fv.push(
                        flat_field(self.items@[n as int].1@, lane.dtype),
                    ));
                    assert(lanes(columns@) =~= cv.push(lane));
                },
            }
        }
        Ok((fields, columns))
    }

    /// The projected chunk.
    pub fn process(&self, chunk: &Chunk, ctx: &mut OpCtx, host: &Answers) -> (r: Result<Chunk, Ask>)
        requires
            chunk@.wf(),
        ensures
            match (r, computed(chunk@, self.items@, self.items@.len(), host@)) {
                (Ok(c), Ok((fields, columns))) => {
                    &&& c@ == rebuilt(chunk@, fields, columns)
                    &&& final(ctx)@ == item_warned(old(ctx)@, chunk@, self.items@, self.items@.len())
                    &&& c@.wf()
                },
                (Err(a), Err(q)) => a@ == q && final(ctx)@ == old(ctx)@,
                _ => false,
            },
    {
        let (fields, columns) = match self.compute(chunk, host) {
            Err(a) => {
                return Err(a);
            },
            Ok(p) => p,
        };
        let ghost start = ctx@;
        for n in 0..self.items.len()
            invariant
                ctx@ == item_warned(start, chunk@, self.items@, n as nat),
        {
            match &self.items[n].0 {
                Expr::Field { name, .. } => {
                    match index_of(&chunk.fields, name.as_str()) {
                        Some(_) => {},
                        None => {
                            proof {
                                reveal_strlit("'");
                                assert("'"@ =~= seq!['\'']);
                            }
                            ctx.warn_at(
                                message3("project: unknown field '", name.as_str(), "'"),
                                chunk.id,
                            );
                        },
                    }
                },
                _ => {},
            }
        }
        let r = rebuild(chunk, fields, columns);
        proof {
            lemma_sized_wf(chunk@, r@.fields, r@.columns);
        }
        Ok(r)
    }
}

/// Typed columns of `n` rows with their fields.
pub open spec fn sized(fields: Seq<FieldV>, columns: Seq<Lane>, n: nat) -> bool {
    &&& fields.len() == columns.len()
    &&& forall|i: int|
        0 <= i < columns.len() ==> (#[trigger] columns[i]).typed() && columns[i].cells.len() == n
            && columns[i].dtype == fields[i].dtype
}

/// Typed columns of as many rows make a well formed chunk.
pub proof fn lemma_sized_wf(b: Batch, fields: Seq<FieldV>, columns: Seq<Lane>)
    requires
        exists|n: nat| sized(fields, columns, n),
    ensures
        rebuilt(b, fields, columns).wf(),
{
    let n = choose|n: nat| sized(fields, columns, n);
    let r = rebuilt(b, fields, columns);
    assert forall|i: int| 0 <= i < r.columns.len() implies {
        &&& (#[trigger] r.columns[i]).cells.len() == r.len
        &&& r.columns[i].typed()
    } by {
        assert(columns[0].cells.len() == n);
        assert(columns[i].cells.len() == n);
    }
}

/// The question how a list of names is shown.
pub open spec fn listing(names: Seq<Seq<char>>) -> Query {
    Query {
        op: HostOp::Listed,
        args: seq![Datum::List(Seq::new(names.len(), |i: int| Datum::Str(names[i])))],
    }
}

/// The shown form of a list of names.
pub fn list_names(names: &Vec<String>, host: &Answers) -> (r: Result<String, Ask>)
    ensures
        agree_text(r, text_answer(host@, listing(texts(names@)))),
{
    let mut items: Vec<Value> = Vec::new();
    for i in 0..names.len()
        invariant
            items@.len() == i,
            forall|k: int| 0 <= k < i ==> (#[trigger] items@[k])@ == Datum::Str(names@[k]@),
    {
        items.push(Value::Str(names[i].clone()));
    }
    let ghost shown = Seq::new(names@.len(), |i: int| Datum::Str(texts(names@)[i]));
    assert(data(items@) =~= shown);
    let v = Value::List(items);
    assert(v@->List_0 =~= data(items@));
    get_text(host, ask1(HostOp::Listed, v))
}

/// `project`: the named columns, in the order of the names. Where a name is no
/// column the chunk passes as it is, with a warning.
pub struct Project {
    pub fields: Vec<String>,
}

impl Project {
    /// The projected chunk.
    pub fn process(&self, chunk: &Chunk, ctx: &mut OpCtx, host: &Answers) -> (r: Result<Chunk, Ask>)
        requires
            chunk@.wf(),
        ensures
            ({
                let names = texts(self.fields@);
                if unknown(chunk@.fields, names) is None {
                    r matches Ok(c) && c@ == picked(chunk@, known(chunk@.fields, names))
                        && final(ctx)@ == old(ctx)@ && c@.wf()
                } else {
                    match (r, text_answer(host@, listing(names))) {
                        (Ok(c), Ok(list)) => c@ == chunk@ && c@.wf() && final(ctx)@ == old(
                            ctx,
                        )@.raised(
                            (EventV {
                                chunk: Some(chunk.id),
                                ..old(ctx)@.event(
                                    Severity::Warn,
                                    ErrorScope::Chunk,
                                    "project: unknown field in "@ + list,
                                )
                            }),
                        ),
                        (Err(a), Err(q)) => a@ == q && final(ctx)@ == old(ctx)@,
                        _ => false,
                    }
                }
            }),
    {
        match resolve_names(chunk, &self.fields) {
            Ok(at) => Ok(pick(chunk, &at)),
            Err(_) => match list_names(&self.fields, host) {
                Err(a) => Err(a),
                Ok(list) => {
                    let m = message3("project: unknown field in ", list.as_str(), "");
                    proof {
                        reveal_strlit("");
                        assert(m@ =~= "project: unknown field in "@ + list@);
                    }
                    ctx.warn_at(m, chunk.id);
                    Ok(chunk.dup())
                },
            },
        }
    }
}

} // verus!
