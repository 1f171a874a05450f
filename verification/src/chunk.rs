//! Columns, schemas and chunks.
use vstd::prelude::*;
use crate::text::same_text;
use crate::value::{data, dup_values, fits, DataType, Datum, Value};

verus! {

/// The runtime mode stamped on every chunk.
#[derive(Clone, Copy, Debug, PartialEq, Eq, Structural)]
pub enum Mode {
    Normal,
    Degraded,
    Recovery,
    Isolation,
    Emergency,
    Halted,
}

// ---------------------------------------------------------------- schemas

/// The inner shape of a nested column.
#[derive(Debug)]
pub enum Nested {
    Flat,
    Struct(Vec<Field>),
    List(Box<Field>),
}

/// A named, typed column of a schema.
#[derive(Debug)]
pub struct Field {
    pub name: String,
    pub dtype: DataType,
    pub nested: Nested,
}

/// What a [`Nested`] shape is.
pub enum Shape {
    Flat,
    Struct(Seq<FieldV>),
    List(Box<FieldV>),
}

/// What a [`Field`] is.
pub struct FieldV {
    pub name: Seq<char>,
    pub dtype: DataType,
    pub nested: Shape,
}

impl Nested {
    /// The shape.
    pub open spec fn view(&self) -> Shape
        decreases *self,
    {
        match *self {
            Nested::Flat => Shape::Flat,
            Nested::Struct(v) => Shape::Struct(
                Seq::new(
                    v@.len(),
                    |i: int|
                        if 0 <= i < v@.len() {
                            v@[i].view()
                        } else {
                            arbitrary()
                        },
                ),
            ),
            Nested::List(f) => Shape::List(Box::new(f.view())),
        }
    }

    /// A copy of the shape.
    pub fn dup(&self) -> (r: Nested)
        ensures
            r@ == self@,
        decreases *self,
    {
        match self {
            Nested::Flat => Nested::Flat,
            Nested::Struct(v) => {
                let mut out: Vec<Field> = Vec::new();
                for i in 0..v.len()
                    invariant
                        *self == Nested::Struct(*v),
                        out@.len() == i,
                        forall|k: int| 0 <= k < i ==> (#[trigger] out@[k])@ == v@[k]@,
                {
                    proof {
                        assert(decreases_to!(*self => self->Struct_0));
                        assert(decreases_to!(self->Struct_0 => self->Struct_0@));
                        assert(decreases_to!(v@ => v@[i as int]));
                    }
                    let f: Field = v[i].dup();
                    out.push(f);
                }
                let r = Nested::Struct(out);
                assert(r@->Struct_0 =~= self@->Struct_0);
                r
            },
            Nested::List(f) => Nested::List(Box::new(f.dup())),
        }
    }
}

impl Field {
    /// The field.
    pub open spec fn view(&self) -> FieldV
        decreases *self,
    {
        FieldV { name: self.name@, dtype: self.dtype, nested: self.nested.view() }
    }

    /// A copy of the field.
    pub fn dup(&self) -> (r: Field)
        ensures
            r@ == self@,
        decreases *self,
    {
        Field { name: self.name.clone(), dtype: self.dtype, nested: self.nested.dup() }
    }

    /// A field without inner shape.
    pub fn flat(name: String, dtype: DataType) -> (r: Field)
        ensures
            r@ == flat_field(name@, dtype),
    {
        Field { name, dtype, nested: Nested::Flat }
    }
}

/// A field without inner shape.
pub open spec fn flat_field(name: Seq<char>, dtype: DataType) -> FieldV {
    FieldV { name, dtype, nested: Shape::Flat }
}

/// The views of a list of fields.
pub open spec fn fields_view(s: Seq<Field>) -> Seq<FieldV> {
    Seq::new(s.len(), |i: int| s[i]@)
}

/// A copy of a list of fields.
pub fn dup_fields(v: &Vec<Field>) -> (r: Vec<Field>)
    ensures
        fields_view(r@) == fields_view(v@),
{
    let mut r: Vec<Field> = Vec::new();
    for i in 0..v.len()
        invariant
            r@.len() == i,
            forall|k: int| 0 <= k < i ==> (#[trigger] r@[k])@ == v@[k]@,
    {
        r.push(v[i].dup());
    }
    assert(fields_view(r@) =~= fields_view(v@));
    r
}

/// The first field named `name`.
pub open spec fn index_in(fields: Seq<FieldV>, name: Seq<char>) -> Option<int>
    decreases fields.len(),
{
    if fields.len() == 0 {
        None
    } else if fields[0].name == name {
        Some(0)
    } else {
        match index_in(fields.drop_first(), name) {
            Some(i) => Some(i + 1),
            None => None,
        }
    }
}

/// The index found is the first field of that name; no index means that there
/// is none.
pub proof fn lemma_index_in(fields: Seq<FieldV>, name: Seq<char>)
    ensures
        match index_in(fields, name) {
            Some(i) => 0 <= i < fields.len() && fields[i].name == name && (forall|k: int|
                0 <= k < i ==> (#[trigger] fields[k]).name != name),
            None => forall|k: int| 0 <= k < fields.len() ==> (#[trigger] fields[k]).name != name,
        },
    decreases fields.len(),
{
    if fields.len() > 0 && fields[0].name != name {
        let rest = fields.drop_first();
        lemma_index_in(rest, name);
        match index_in(rest, name) {
            Some(i) => {
                assert(rest[i] == fields[i + 1]);
                assert forall|k: int| 0 <= k < i + 1 implies (#[trigger] fields[k]).name != name by {
                    if k > 0 {
                        assert(rest[k - 1] == fields[k]);
                    }
                }
            },
            None => {
                assert forall|k: int| 0 <= k < fields.len() implies (#[trigger] fields[k]).name
                    != name by {
                    if k > 0 {
                        assert(rest[k - 1] == fields[k]);
                    }
                }
            },
        }
    }
}

/// The field of that name is where no earlier field has it.
pub proof fn lemma_index_is(fields: Seq<FieldV>, name: Seq<char>, i: int)
    requires
        0 <= i < fields.len(),
        fields[i].name == name,
        forall|k: int| 0 <= k < i ==> (#[trigger] fields[k]).name != name,
    ensures
        index_in(fields, name) == Some(i),
{
    lemma_index_in(fields, name);
    match index_in(fields, name) {
        Some(j) => {
            if j < i {
                assert(fields[j].name != name);
            } else if i < j {
                assert(fields[i].name != name);
            }
        },
        None => {
            assert(fields[i].name != name);
        },
    }
}

/// The first field named `name`.
pub fn index_of(fields: &Vec<Field>, name: &str) -> (r: Option<usize>)
    ensures
        match r {
            Some(i) => i < fields@.len() && index_in(fields_view(fields@), name@) == Some(i as int),
            None => index_in(fields_view(fields@), name@) is None,
        },
{
    let ghost fv = fields_view(fields@);
    for i in 0..fields.len()
        invariant
            fv == fields_view(fields@),
            forall|k: int| 0 <= k < i ==> (#[trigger] fv[k]).name != name@,
    {
        if same_text(fields[i].name.as_str(), name) {
            proof {
                lemma_index_is(fv, name@, i as int);
            }
            return Some(i);
        }
    }
    proof {
        lemma_index_in(fv, name@);
        if let Some(j) = index_in(fv, name@) {
            assert(fv[j].name != name@);
        }
    }
    None
}

// ---------------------------------------------------------------- columns

/// A column: its type and one cell per row.
#[derive(Debug)]
pub struct Column {
    pub dtype: DataType,
    pub cells: Vec<Value>,
}

/// What a [`Column`] is.
#[verifier::ext_equal]
pub struct Lane {
    pub dtype: DataType,
    pub cells: Seq<Datum>,
}

impl Lane {
    /// Every cell is missing or of the column's type.
    pub open spec fn typed(self) -> bool {
        forall|i: int| 0 <= i < self.cells.len() ==> fits(#[trigger] self.cells[i], self.dtype)
    }
}

impl Column {
    /// The column.
    pub open spec fn view(&self) -> Lane {
        Lane { dtype: self.dtype, cells: data(self.cells@) }
    }

    /// A copy of the column.
    pub fn dup(&self) -> (r: Column)
        ensures
            r@ == self@,
    {
        Column { dtype: self.dtype, cells: dup_values(&self.cells) }
    }

    /// The number of rows.
    pub fn len(&self) -> (r: usize)
        ensures
            r == self@.cells.len(),
    {
        self.cells.len()
    }

    /// The cell of a row.
    pub fn value_at(&self, row: usize) -> (r: Value)
        requires
            row < self@.cells.len(),
        ensures
            r@ == self@.cells[row as int],
    {
        self.cells[row].dup()
    }

    /// Is the cell of a row missing?
    pub fn is_null(&self, row: usize) -> (r: bool)
        requires
            row < self@.cells.len(),
        ensures
            r == (self@.cells[row as int] is Null),
    {
        assert(self@.cells[row as int] == self.cells@[row as int]@);
        self.cells[row].is_null()
    }

    /// The cells of the given rows, in that order.
    pub fn gather(&self, rows: &Vec<usize>) -> (r: Column)
        requires
            forall|i: int| 0 <= i < rows@.len() ==> (#[trigger] rows@[i]) < self@.cells.len(),
        ensures
            r@ == gathered_lane(self@, rows@),
    {
        let mut cells: Vec<Value> = Vec::new();
        for i in 0..rows.len()
            invariant
                cells@.len() == i,
                forall|k: int| 0 <= k < rows@.len() ==> (#[trigger] rows@[k]) < self@.cells.len(),
                forall|k: int|
                    0 <= k < i ==> (#[trigger] cells@[k])@ == self@.cells[rows@[k] as int],
        {
            let row: usize = rows[i];
            cells.push(self.value_at(row));
        }
        let r = Column { dtype: self.dtype, cells };
        assert(r@.cells =~= gathered_lane(self@, rows@).cells);
        r
    }
}

/// The cells of the given rows, in that order.
pub open spec fn gathered_lane(c: Lane, rows: Seq<usize>) -> Lane {
    Lane { dtype: c.dtype, cells: Seq::new(rows.len(), |i: int| c.cells[rows[i] as int]) }
}

/// Gathering rows keeps a column typed.
pub proof fn lemma_gather_typed(c: Lane, rows: Seq<usize>)
    requires
        c.typed(),
        forall|i: int| 0 <= i < rows.len() ==> (#[trigger] rows[i]) < c.cells.len(),
    ensures
        gathered_lane(c, rows).typed(),
{
    assert forall|i: int| 0 <= i < rows.len() implies fits(
        #[trigger] gathered_lane(c, rows).cells[i],
        c.dtype,
    ) by {
        assert(rows[i] < c.cells.len());
    }
}

/// The views of a list of columns.
pub open spec fn lanes(s: Seq<Column>) -> Seq<Lane> {
    Seq::new(s.len(), |i: int| s[i]@)
}

/// A copy of a list of columns.
pub fn dup_columns(v: &Vec<Column>) -> (r: Vec<Column>)
    ensures
        lanes(r@) == lanes(v@),
{
    let mut r: Vec<Column> = Vec::new();
    for i in 0..v.len()
        invariant
            r@.len() == i,
            forall|k: int| 0 <= k < i ==> (#[trigger] r@[k])@ == v@[k]@,
    {
        r.push(v[i].dup());
    }
    assert(lanes(r@) =~= lanes(v@));
    r
}

// ---------------------------------------------------------------- chunks

/// A batch of rows: the schema, its columns, and what the runtime knows of it.
/// Columns beyond the schema are derived keys and have no name.
#[derive(Debug)]
pub struct Chunk {
    pub fields: Vec<Field>,
    pub columns: Vec<Column>,
    pub len: usize,
    pub id: u64,
    pub mode: Mode,
    /// The uri of the resource that the rows came from.
    pub source: Option<String>,
}

/// What a [`Chunk`] is.
#[verifier::ext_equal]
pub struct Batch {
    pub fields: Seq<FieldV>,
    pub columns: Seq<Lane>,
    pub len: nat,
    pub id: u64,
    pub mode: Mode,
    pub source: Option<Seq<char>>,
}

impl Batch {
    /// Every field has its column, and every column has one typed cell per row.
    pub open spec fn wf(self) -> bool {
        &&& self.fields.len() <= self.columns.len()
        &&& forall|i: int|
            0 <= i < self.columns.len() ==> {
                &&& (#[trigger] self.columns[i]).cells.len() == self.len
                &&& self.columns[i].typed()
            }
        &&& forall|i: int|
            0 <= i < self.fields.len() ==> (#[trigger] self.columns[i]).dtype
                == self.fields[i].dtype
    }

    /// The column of that name.
    pub open spec fn column(self, name: Seq<char>) -> Option<Lane> {
        match index_in(self.fields, name) {
            Some(i) => Some(self.columns[i]),
            None => None,
        }
    }

    /// The cell at a row and column.
    pub open spec fn cell(self, row: int, col: int) -> Datum {
        self.columns[col].cells[row]
    }
}

/// The view of an optional string.
pub open spec fn opt_text(s: Option<String>) -> Option<Seq<char>> {
    match s {
        Some(t) => Some(t@),
        None => None,
    }
}

/// A copy of an optional string.
pub fn dup_opt_text(s: &Option<String>) -> (r: Option<String>)
    ensures
        opt_text(r) == opt_text(*s),
{
    match s {
        Some(t) => Some(t.clone()),
        None => None,
    }
}

impl Chunk {
    /// The chunk.
    pub open spec fn view(&self) -> Batch {
        Batch {
            fields: fields_view(self.fields@),
            columns: lanes(self.columns@),
            len: self.len as nat,
            id: self.id,
            mode: self.mode,
            source: opt_text(self.source),
        }
    }

    /// A copy of the chunk.
    pub fn dup(&self) -> (r: Chunk)
        ensures
            r@ == self@,
    {
        Chunk {
            fields: dup_fields(&self.fields),
            columns: dup_columns(&self.columns),
            len: self.len,
            id: self.id,
            mode: self.mode,
            source: dup_opt_text(&self.source),
        }
    }

    /// The column of that name.
    pub fn column(&self, name: &str) -> (r: Option<&Column>)
        requires
            self@.wf(),
        ensures
            match r {
                Some(c) => self@.column(name@) == Some(c@) && c@.cells.len() == self.len
                    && c@.typed(),
                None => self@.column(name@) is None,
            },
    {
        match index_of(&self.fields, name) {
            Some(i) => {
                assert(self@.columns[i as int] == self.columns@[i as int]@);
                Some(&self.columns[i])
            },
            None => None,
        }
    }

    /// The cell at a row and column.
    pub fn value(&self, row: usize, col: usize) -> (r: Value)
        requires
            self@.wf(),
            row < self.len,
            col < self@.columns.len(),
        ensures
            r@ == self@.cell(row as int, col as int),
    {
        assert(self@.columns[col as int] == self.columns@[col as int]@);
        self.columns[col].value_at(row)
    }

    /// The chunk made of the given rows, in that order.
    pub fn gather(&self, rows: &Vec<usize>) -> (r: Chunk)
        requires
            self@.wf(),
            forall|i: int| 0 <= i < rows@.len() ==> (#[trigger] rows@[i]) < self.len,
        ensures
            r@ == gathered(self@, rows@),
            r@.wf(),
    {
        let mut columns: Vec<Column> = Vec::new();
        for i in 0..self.columns.len()
            invariant
                self@.wf(),
                forall|i: int| 0 <= i < rows@.len() ==> (#[trigger] rows@[i]) < self.len,
                columns@.len() == i,
                forall|k: int|
                    0 <= k < i ==> (#[trigger] columns@[k])@ == gathered_lane(
                        self@.columns[k],
                        rows@,
                    ),
        {
            assert(self@.columns[i as int] == self.columns@[i as int]@);
            columns.push(self.columns[i].gather(rows));
        }
        let r = Chunk {
            fields: dup_fields(&self.fields),
            columns,
            len: rows.len(),
            id: self.id,
            mode: self.mode,
            source: dup_opt_text(&self.source),
        };
        assert(r@.columns =~= gathered(self@, rows@).columns);
        proof {
            lemma_gathered_wf(self@, rows@);
        }
        r
    }
}

/// The chunk made of the given rows, in that order.
pub open spec fn gathered(b: Batch, rows: Seq<usize>) -> Batch {
    Batch {
        columns: Seq::new(b.columns.len(), |i: int| gathered_lane(b.columns[i], rows)),
        len: rows.len(),
        ..b
    }
}

/// Gathering rows keeps a chunk well formed.
pub proof fn lemma_gathered_wf(b: Batch, rows: Seq<usize>)
    requires
        b.wf(),
        forall|i: int| 0 <= i < rows.len() ==> (#[trigger] rows[i]) < b.len,
    ensures
        gathered(b, rows).wf(),
{
    let g = gathered(b, rows);
    assert forall|i: int| 0 <= i < g.columns.len() implies {
        &&& (#[trigger] g.columns[i]).cells.len() == g.len
        &&& g.columns[i].typed()
    } by {
        assert(b.columns[i].typed());
        lemma_gather_typed(b.columns[i], rows);
    }
    assert forall|i: int| 0 <= i < g.fields.len() implies (#[trigger] g.columns[i]).dtype
        == g.fields[i].dtype by {
        assert(b.columns[i].dtype == b.fields[i].dtype);
    }
}

/// The views of a list of chunks.
pub open spec fn batches(s: Seq<Chunk>) -> Seq<Batch> {
    Seq::new(s.len(), |i: int| s[i]@)
}

/// A copy of a list of chunks.
pub fn dup_chunks(v: &Vec<Chunk>) -> (r: Vec<Chunk>)
    ensures
        batches(r@) == batches(v@),
{
    let mut r: Vec<Chunk> = Vec::new();
    for i in 0..v.len()
        invariant
            r@.len() == i,
            forall|k: int| 0 <= k < i ==> (#[trigger] r@[k])@ == v@[k]@,
    {
        r.push(v[i].dup());
    }
    assert(batches(r@) =~= batches(v@));
    r
}

} // verus!
