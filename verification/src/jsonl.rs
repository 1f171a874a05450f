//! Reading JSON lines, or an array of objects, into typed columns: whole, in
//! chunks, and in ranges that are looked at apart.
use vstd::prelude::*;
use crate::chunk::{fields_view, lanes, Column, Field, FieldV, Lane};
use crate::compare::agree;
use crate::host::{Answers, Ask, Log, Query};
use crate::infer::{find_name, keys_of, lemma_name_place, name_place, nothing, seen_all, sound, type_of, type_views, Infer, InferV, JType, JTypeV};
use crate::jcolumn::{build_column, cells, field_of, jtype_to_field, lane_of, lemma_type_readable, member, member_of, readable};
use crate::json::{after_ws, member_views, object_in, parse_object, parse_value, skip_ws, value_at, Members};
use crate::strings::{pieces, space, split, trim, trim_start, trimmed};
use crate::text::{chars_of, owned, same_text};
use crate::value::{data, texts, Datum, Value};

verus! {

/// A row: its names and values, in order.
pub type Row = Seq<(Seq<char>, Datum)>;

/// Rows, and how many were malformed; or the question that is open.
pub type RowsV = Result<(Seq<Row>, nat), Query>;

/// What rows of members are.
pub open spec fn row_views(v: Seq<Members>) -> Seq<Row> {
    Seq::new(v.len(), |i: int| member_views(v[i]@))
}

/// Rows, followed by others.
pub open spec fn led(rows: Seq<Row>, bad: nat, rest: RowsV) -> RowsV {
    match rest {
        Err(q) => Err(q),
        Ok((more, worse)) => Ok((rows + more, bad + worse)),
    }
}

// ------------------------------------------------------------------- lines

/// A line of white space alone.
pub open spec fn is_blank(line: Seq<char>) -> bool {
    trimmed(line).len() == 0
}

/// The rows of the lines from `i` on: a blank line is passed over, and one that
/// does not start with an object is malformed.
pub open spec fn rows_from(lines: Seq<Seq<char>>, i: int, log: Log) -> RowsV
    decreases lines.len() - i,
{
    if i < 0 || i >= lines.len() {
        Ok((Seq::empty(), 0))
    } else if is_blank(lines[i]) {
        rows_from(lines, i + 1, log)
    } else {
        match object_in(lines[i], log) {
            Err(q) => Err(q),
            Ok(Some(m)) => led(seq![m], 0, rows_from(lines, i + 1, log)),
            Ok(None) => led(Seq::empty(), 1, rows_from(lines, i + 1, log)),
        }
    }
}

fn blank(line: &String) -> (r: bool)
    ensures
        r == is_blank(line@),
{
    let t: Vec<char> = chars_of(trim(line.as_str()).as_str());
    t.len() == 0
}

/// The rows of lines, and how many lines were malformed (see [`rows_from`]).
pub fn read_lines(lines: &Vec<String>, host: &Answers) -> (r: Result<(Vec<Members>, usize), Ask>)
    ensures
        agree(
            r,
            rows_from(texts(lines@), 0, host@),
            |a: (Vec<Members>, usize), b: (Seq<Row>, nat)| row_views(a.0@) == b.0 && a.1 == b.1,
        ),
{
    let ghost ls = texts(lines@);
    let ghost all = rows_from(ls, 0, host@);
    let mut rows: Vec<Members> = Vec::new();
    let mut bad: usize = 0;
    proof {
        assert(row_views(rows@) =~= Seq::empty());
        assert(all == led(row_views(rows@), 0, all)) by {
            if all is Ok {
                assert(row_views(rows@) + all->Ok_0.0 =~= all->Ok_0.0);
            }
        }
    }
    for i in 0..lines.len()
        invariant
            ls == texts(lines@),
            all == rows_from(ls, 0, host@),
            bad <= i,
            all == led(row_views(rows@), bad as nat, rows_from(ls, i as int, host@)),
    {
        assert(ls[i as int] == lines@[i as int]@);
        if !blank(&lines[i]) {
            let line: Vec<char> = chars_of(lines[i].as_str());
            let ghost rest = rows_from(ls, i + 1, host@);
            match parse_object(&line, host) {
                Err(a) => {
                    return Err(a);
                },
                Ok(Some(m)) => {
                    let ghost up = row_views(rows@);
                    let ghost one = member_views(m@);
                    rows.push(m);
                    proof {
                        assert(row_views(rows@) =~= up.push(one));
                        if rest is Ok {
                            assert(up + (seq![one] + rest->Ok_0.0) =~= up.push(one)
                                + rest->Ok_0.0);
                        }
                    }
                },
                Ok(None) => {
                    bad = bad + 1;
                    proof {
                        if rest is Ok {
                            assert(Seq::<Row>::empty() + rest->Ok_0.0 =~= rest->Ok_0.0);
                        }
                    }
                },
            }
        }
    }
    proof {
        assert(row_views(rows@) + Seq::<Row>::empty() =~= row_views(rows@));
    }
    Ok((rows, bad))
}

// ------------------------------------------------------------------- array

/// Where a span ends that is open `depth` times at `i`, between these delimiters
/// and without those in strings; `None` where it does not end.
pub open spec fn balanced(b: Seq<char>, i: int, open: char, close: char, depth: nat, in_str: bool) -> Option<int>
    decreases b.len() - i,
{
    if i < 0 || i >= b.len() {
        None
    } else if in_str {
        if b[i] == '\\' {
            if i + 1 < b.len() {
                balanced(b, i + 2, open, close, depth, true)
            } else {
                None
            }
        } else {
            balanced(b, i + 1, open, close, depth, b[i] != '"')
        }
    } else if b[i] == '"' {
        balanced(b, i + 1, open, close, depth, true)
    } else if b[i] == open {
        balanced(b, i + 1, open, close, depth + 1, false)
    } else if b[i] == close {
        if depth <= 1 {
            Some(i + 1)
        } else {
            balanced(b, i + 1, open, close, (depth - 1) as nat, false)
        }
    } else {
        balanced(b, i + 1, open, close, depth, false)
    }
}

/// Where the span ends that opens at `i`, an object or an array by its
/// delimiters (see [`balanced`]).
pub fn skip_balanced(b: &Vec<char>, i: usize, open: char, close: char) -> (r: Option<usize>)
    requires
        i < b@.len(),
        b@[i as int] == open,
    ensures
        match (r, balanced(b@, i + 1, open, close, 1, false)) {
            (Some(e), Some(f)) => e == f && i + 1 < e <= b@.len() && b@[e - 1] == close,
            (None, None) => true,
            _ => false,
        },
{
    let size: usize = b.len();
    let mut j: usize = i + 1;
    let mut depth: usize = 1;
    let mut in_str: bool = false;
    while j < size
        invariant
            size == b@.len(),
            i < j,
            1 <= depth <= j,
            balanced(b@, i + 1, open, close, 1, false) == balanced(
                b@,
                j as int,
                open,
                close,
                depth as nat,
                in_str,
            ),
        decreases size - j,
    {
        let c: char = b[j];
        if in_str {
            if c == '\\' {
                if j + 1 >= size {
                    return None;
                }
                j = j + 2;
            } else {
                in_str = c != '"';
                j = j + 1;
            }
        } else if c == '"' {
            in_str = true;
            j = j + 1;
        } else if c == open {
            depth = depth + 1;
            j = j + 1;
        } else if c == close {
            if depth <= 1 {
                return Some(j + 1);
            }
            depth = depth - 1;
            j = j + 1;
        } else {
            j = j + 1;
        }
    }
    None
}

/// What stands at a place of an array.
pub enum ElementV {
    /// The end of the array, or of what can be read of it.
    End,
    /// A comma.
    Comma(int),
    /// An object, and where it ends.
    Object(Row, int),
    /// Something else, or an object that cannot be read, and where it ends.
    Other(int),
    /// Something that does not end.
    Broken,
}

/// What stands at `j`, which is no white space.
#[verifier::opaque]
pub open spec fn element_at(b: Seq<char>, j: int, log: Log) -> Result<ElementV, Query> {
    if j < 0 || j >= b.len() || b[j] == ']' {
        Ok(ElementV::End)
    } else if b[j] == ',' {
        Ok(ElementV::Comma(j + 1))
    } else if b[j] == '{' {
        match balanced(b, j + 1, '{', '}', 1, false) {
            None => Ok(ElementV::End),
            Some(e) => match object_in(b.subrange(j, e), log) {
                Err(q) => Err(q),
                Ok(Some(m)) => Ok(ElementV::Object(m, e)),
                Ok(None) => Ok(ElementV::Other(e)),
            },
        }
    } else {
        match value_at(b, j, log) {
            Err(q) => Err(q),
            Ok(None) => Ok(ElementV::Broken),
            Ok(Some((_, e))) => Ok(ElementV::Other(e)),
        }
    }
}

/// The rows of an array from `i` on, after its opening bracket. An element that
/// is no object is malformed, and so is an object that cannot be read; nothing
/// is read past what does not end.
pub open spec fn array_from(b: Seq<char>, i: int, log: Log) -> RowsV
    decreases b.len() - i,
{
    match element_at(b, after_ws(b, i), log) {
        Err(q) => Err(q),
        Ok(ElementV::End) => Ok((Seq::empty(), 0)),
        Ok(ElementV::Broken) => Ok((Seq::empty(), 1)),
        Ok(ElementV::Comma(e)) => if i < e <= b.len() {
            array_from(b, e, log)
        } else {
            Ok((Seq::empty(), 0))
        },
        Ok(ElementV::Object(m, e)) => led(
            seq![m],
            0,
            if i < e <= b.len() {
                array_from(b, e, log)
            } else {
                Ok((Seq::empty(), 0))
            },
        ),
        Ok(ElementV::Other(e)) => led(
            Seq::empty(),
            1,
            if i < e <= b.len() {
                array_from(b, e, log)
            } else {
                Ok((Seq::empty(), 0))
            },
        ),
    }
}

enum Element {
    End,
    Comma(usize),
    Object(Members, usize),
    Other(usize),
    Broken,
}

spec fn same_element(a: Element, b: ElementV, j: int, len: int) -> bool {
    match (a, b) {
        (Element::End, ElementV::End) => true,
        (Element::Broken, ElementV::Broken) => j < len,
        (Element::Comma(e), ElementV::Comma(f)) => e == f && j < e <= len,
        (Element::Other(e), ElementV::Other(f)) => e == f && j < e <= len,
        (Element::Object(m, e), ElementV::Object(r, f)) => member_views(m@) == r && e == f && j < e
            <= len,
        _ => false,
    }
}

fn element(b: &Vec<char>, j: usize, host: &Answers) -> (r: Result<Element, Ask>)
    requires
        j <= b@.len(),
    ensures
        agree(
            r,
            element_at(b@, j as int, host@),
            |x: Element, y: ElementV| same_element(x, y, j as int, b@.len() as int),
        ),
{
    proof {
        reveal(element_at);
    }
    if j >= b.len() || b[j] == ']' {
        return Ok(Element::End);
    }
    if b[j] == ',' {
        return Ok(Element::Comma(j + 1));
    }
    if b[j] == '{' {
        match skip_balanced(b, j, '{', '}') {
            None => Ok(Element::End),
            Some(e) => {
                let one: Vec<char> = part(b, j, e);
                match parse_object(&one, host) {
                    Err(a) => Err(a),
                    Ok(Some(m)) => Ok(Element::Object(m, e)),
                    Ok(None) => Ok(Element::Other(e)),
                }
            },
        }
    } else {
        match parse_value(b, j, host) {
            Err(a) => Err(a),
            Ok(None) => Ok(Element::Broken),
            Ok(Some((_, e))) => Ok(Element::Other(e)),
        }
    }
}

fn part(b: &Vec<char>, from: usize, to: usize) -> (r: Vec<char>)
    requires
        from <= to <= b@.len(),
    ensures
        r@ == b@.subrange(from as int, to as int),
{
    let mut r: Vec<char> = Vec::new();
    for i in from..to
        invariant
            from <= to <= b@.len(),
            r@ == b@.subrange(from as int, i as int),
    {
        r.push(b[i]);
        assert(r@ =~= b@.subrange(from as int, i + 1));
    }
    r
}

/// The rows of an array from `start` on, after its opening bracket (see
/// [`array_from`]).
fn collect_array(b: &Vec<char>, start: usize, host: &Answers) -> (r: Result<
    (Vec<Members>, usize),
    Ask,
>)
    requires
        start <= b@.len(),
    ensures
        agree(
            r,
            array_from(b@, start as int, host@),
            |a: (Vec<Members>, usize), b: (Seq<Row>, nat)| row_views(a.0@) == b.0 && a.1 == b.1,
        ),
{
    let size: usize = b.len();
    let ghost all = array_from(b@, start as int, host@);
    let mut rows: Vec<Members> = Vec::new();
    let mut bad: usize = 0;
    let mut i: usize = start;
    proof {
        assert(row_views(rows@) =~= Seq::empty());
        if all is Ok {
            assert(row_views(rows@) + all->Ok_0.0 =~= all->Ok_0.0);
        }
    }
    loop
        invariant
            size == b@.len(),
            bad <= i <= size,
            all == array_from(b@, start as int, host@),
            all == led(row_views(rows@), bad as nat, array_from(b@, i as int, host@)),
        decreases size - i,
    {
        let j: usize = skip_ws(b, i);
        proof {
            assert(row_views(rows@) + Seq::<Row>::empty() =~= row_views(rows@));
        }
        match element(b, j, host) {
            Err(a) => {
                return Err(a);
            },
            Ok(Element::End) => {
                return Ok((rows, bad));
            },
            Ok(Element::Broken) => {
                return Ok((rows, bad + 1));
            },
            Ok(Element::Comma(e)) => {
                i = e;
            },
            Ok(Element::Object(m, e)) => {
                let ghost rest = array_from(b@, e as int, host@);
                let ghost up = row_views(rows@);
                let ghost mv = member_views(m@);
                rows.push(m);
                proof {
                    assert(row_views(rows@) =~= up.push(mv));
                    if rest is Ok {
                        assert(up + (seq![mv] + rest->Ok_0.0) =~= up.push(mv) + rest->Ok_0.0);
                    }
                }
                i = e;
            },
            Ok(Element::Other(e)) => {
                let ghost rest = array_from(b@, e as int, host@);
                bad = bad + 1;
                proof {
                    if rest is Ok {
                        assert(Seq::<Row>::empty() + rest->Ok_0.0 =~= rest->Ok_0.0);
                    }
                }
                i = e;
            },
        }
    }
}

// ----------------------------------------------------------------- document

/// A document that starts with a bracket, white space aside, is an array of
/// objects; any other is one object per line.
pub open spec fn text_rows(t: Seq<char>, log: Log) -> RowsV {
    let body = trim_start(t);
    if body.len() > 0 && body[0] == '[' {
        array_from(t, t.len() - body.len() + 1, log)
    } else {
        rows_from(pieces(t, seq!['\n']), 0, log)
    }
}

fn start_of(t: &Vec<char>) -> (r: usize)
    ensures
        r == t@.len() - trim_start(t@).len(),
        r <= t@.len(),
        r < t@.len() ==> trim_start(t@)[0] == t@[r as int],
{
    let mut i: usize = 0;
    assert(t@.skip(0) =~= t@);
    while i < t.len() && space(t[i])
        invariant
            i <= t@.len(),
            trim_start(t@) == trim_start(t@.skip(i as int)),
        decreases t@.len() - i,
    {
        assert(t@.skip(i as int).drop_first() =~= t@.skip(i + 1));
        i = i + 1;
    }
    i
}

/// The rows of a document, and how many were malformed (see [`text_rows`]).
pub fn read_rows(text: &str, host: &Answers) -> (r: Result<(Vec<Members>, usize), Ask>)
    ensures
        agree(
            r,
            text_rows(text@, host@),
            |a: (Vec<Members>, usize), b: (Seq<Row>, nat)| row_views(a.0@) == b.0 && a.1 == b.1,
        ),
{
    let t: Vec<char> = chars_of(text);
    let i: usize = start_of(&t);
    if i < t.len() && t[i] == '[' {
        collect_array(&t, i + 1, host)
    } else {
        proof {
            reveal_strlit("\n");
            assert("\n"@ =~= seq!['\n']);
        }
        let lines: Vec<String> = split(text, "\n");
        read_lines(&lines, host)
    }
}

/// The values of a name, row by row: null where a row lacks it.
pub open spec fn column_values(rows: Seq<Row>, name: Seq<char>) -> Seq<Datum> {
    Seq::new(rows.len(), |r: int| member(rows[r], name))
}

/// The type of a column of rows.
pub open spec fn column_type(rows: Seq<Row>, name: Seq<char>) -> JTypeV {
    type_of(seen_all(nothing(), column_values(rows, name)))
}

/// The columns of the first `n` names, each of the type that is given for it.
pub open spec fn columns_as(
    rows: Seq<Row>,
    names: Seq<Seq<char>>,
    types: Seq<JTypeV>,
    n: nat,
    log: Log,
) -> Result<Seq<Lane>, Query>
    decreases n,
{
    if n == 0 {
        Ok(Seq::empty())
    } else {
        match columns_as(rows, names, types, (n - 1) as nat, log) {
            Err(q) => Err(q),
            Ok(s) => match cells(
                types[n - 1],
                column_values(rows, names[n - 1]),
                rows.len(),
                log,
            ) {
                Err(q) => Err(q),
                Ok(c) => Ok(s.push(Lane { dtype: lane_of(types[n - 1]), cells: c })),
            },
        }
    }
}

proof fn lemma_columns_stop(
    rows: Seq<Row>,
    names: Seq<Seq<char>>,
    types: Seq<JTypeV>,
    n: nat,
    m: nat,
    log: Log,
)
    requires
        n <= m,
        columns_as(rows, names, types, n, log) is Err,
    ensures
        columns_as(rows, names, types, m, log) == columns_as(rows, names, types, n, log),
    decreases m - n,
{
    if n < m {
        lemma_columns_stop(rows, names, types, n, (m - 1) as nat, log);
    }
}

fn gather(rows: &Vec<Members>, name: &str) -> (r: Vec<Value>)
    ensures
        data(r@) == column_values(row_views(rows@), name@),
        r@.len() == rows@.len(),
{
    let mut out: Vec<Value> = Vec::new();
    for i in 0..rows.len()
        invariant
            out@.len() == i,
            forall|k: int|
                0 <= k < i ==> (#[trigger] out@[k])@ == member(member_views(rows@[k]@), name@),
    {
        out.push(member_of(&rows[i], name));
    }
    assert(data(out@) =~= column_values(row_views(rows@), name@));
    out
}

/// The columns of rows, each of the type that is given for it (see
/// [`columns_as`]): every cell fits its lane, and every column has a cell for
/// each row.
pub fn build_columns(
    rows: &Vec<Members>,
    names: &Vec<String>,
    types: &Vec<JType>,
    host: &Answers,
) -> (r: Result<Vec<Column>, Ask>)
    requires
        types@.len() == names@.len(),
        forall|j: int| 0 <= j < types@.len() ==> readable((#[trigger] types@[j])@),
    ensures
        agree(
            r,
            columns_as(row_views(rows@), texts(names@), type_views(types@), names@.len(), host@),
            |a: Vec<Column>, b: Seq<Lane>| lanes(a@) == b,
        ),
        r matches Ok(c) ==> forall|j: int|
            0 <= j < c@.len() ==> (#[trigger] c@[j])@.typed() && c@[j]@.cells.len()
                == rows@.len(),
{
    let ghost rv = row_views(rows@);
    let ghost nv = texts(names@);
    let ghost tv = type_views(types@);
    let mut out: Vec<Column> = Vec::new();
    assert(lanes(out@) =~= Seq::empty());
    for n in 0..names.len()
        invariant
            rv == row_views(rows@),
            nv == texts(names@),
            tv == type_views(types@),
            types@.len() == names@.len(),
            forall|j: int| 0 <= j < types@.len() ==> readable((#[trigger] types@[j])@),
            columns_as(rv, nv, tv, n as nat, host@) == Ok::<Seq<Lane>, Query>(lanes(out@)),
            forall|j: int|
                0 <= j < out@.len() ==> (#[trigger] out@[j])@.typed() && out@[j]@.cells.len()
                    == rows@.len(),
    {
        let vals: Vec<Value> = gather(rows, names[n].as_str());
        assert(nv[n as int] == names@[n as int]@);
        assert(tv[n as int] == types@[n as int]@);
        match build_column(&types[n], &vals, host) {
            Err(a) => {
                proof {
                    lemma_columns_stop(rv, nv, tv, (n + 1) as nat, names@.len(), host@);
                }
                return Err(a);
            },
            Ok(c) => {
                let ghost up = lanes(out@);
                out.push(c);
                assert(lanes(out@) =~= up.push(c@));
            },
        }
    }
    Ok(out)
}

/// The fields of names and their types.
pub open spec fn fields_of(names: Seq<Seq<char>>, types: Seq<JTypeV>) -> Seq<FieldV> {
    Seq::new(names.len(), |j: int| field_of(names[j], types[j]))
}

/// The fields of names and their types (see [`fields_of`]).
pub fn schema_from(names: &Vec<String>, types: &Vec<JType>) -> (r: Vec<Field>)
    requires
        types@.len() == names@.len(),
        forall|j: int| 0 <= j < types@.len() ==> readable((#[trigger] types@[j])@),
    ensures
        fields_view(r@) == fields_of(texts(names@), type_views(types@)),
{
    let mut out: Vec<Field> = Vec::new();
    for n in 0..names.len()
        invariant
            types@.len() == names@.len(),
            forall|j: int| 0 <= j < types@.len() ==> readable((#[trigger] types@[j])@),
            out@.len() == n,
            forall|k: int|
                0 <= k < n ==> (#[trigger] out@[k])@ == field_of(names@[k]@, types@[k]@),
    {
        assert(readable(types@[n as int]@));
        let f: Field = jtype_to_field(names[n].clone(), &types[n]);
        out.push(f);
    }
    assert(fields_view(out@) =~= fields_of(texts(names@), type_views(types@)));
    out
}

/// A document read into columns.
#[derive(Debug)]
pub struct JsonlData {
    pub fields: Vec<Field>,
    pub columns: Vec<Column>,
    pub bad_rows: usize,
}

/// What a [`JsonlData`] is.
pub struct JsonlDataV {
    pub fields: Seq<FieldV>,
    pub columns: Seq<Lane>,
    pub bad_rows: nat,
}

impl JsonlData {
    pub open spec fn view(&self) -> JsonlDataV {
        JsonlDataV {
            fields: fields_view(self.fields@),
            columns: lanes(self.columns@),
            bad_rows: self.bad_rows as nat,
        }
    }

    /// A column for each field, of the field's type.
    pub open spec fn wf(&self) -> bool {
        &&& self.fields@.len() == self.columns@.len()
        &&& forall|j: int|
            0 <= j < self.columns@.len() ==> (#[trigger] self.columns@[j])@.typed()
                && self.columns@[j]@.dtype == self.fields@[j]@.dtype
                && self.columns@[j]@.cells.len() == self.columns@[0]@.cells.len()
    }
}

/// The types of the columns of rows.
pub open spec fn row_types(rows: Seq<Row>, names: Seq<Seq<char>>) -> Seq<JTypeV> {
    Seq::new(names.len(), |j: int| column_type(rows, names[j]))
}

/// The document of rows, whose columns are the names of the first row; nothing
/// where there is no such name.
pub open spec fn table_of(rows: Seq<Row>, bad: nat, log: Log) -> Result<
    Option<JsonlDataV>,
    Query,
> {
    if rows.len() == 0 || rows[0].len() == 0 {
        Ok(None)
    } else {
        let names = keys_of(rows[0]);
        let types = row_types(rows, names);
        match columns_as(rows, names, types, names.len(), log) {
            Err(q) => Err(q),
            Ok(columns) => Ok(
                Some(
                    JsonlDataV { fields: fields_of(names, types), columns, bad_rows: bad },
                ),
            ),
        }
    }
}

/// What a document reads as.
pub open spec fn parsed(t: Seq<char>, log: Log) -> Result<Option<JsonlDataV>, Query> {
    match text_rows(t, log) {
        Err(q) => Err(q),
        Ok((rows, bad)) => table_of(rows, bad, log),
    }
}

/// The names of a row.
pub fn names_of(m: &Members) -> (r: Vec<String>)
    ensures
        texts(r@) == keys_of(member_views(m@)),
        r@.len() == m@.len(),
{
    let mut out: Vec<String> = Vec::new();
    for i in 0..m.len()
        invariant
            out@.len() == i,
            forall|k: int| 0 <= k < i ==> (#[trigger] out@[k])@ == m@[k].0@,
    {
        out.push(m[i].0.clone());
    }
    assert(texts(out@) =~= keys_of(member_views(m@)));
    out
}

fn column_kind(rows: &Vec<Members>, name: &str) -> (r: JType)
    ensures
        r@ == column_type(row_views(rows@), name@),
        readable(r@),
{
    let vals: Vec<Value> = gather(rows, name);
    let ghost dv = data(vals@);
    let mut inf: Infer = Infer::new();
    assert(dv.take(0) =~= Seq::empty());
    for i in 0..vals.len()
        invariant
            dv == data(vals@),
            sound(inf@),
            inf@ == seen_all(nothing(), dv.take(i as int)),
    {
        assert(dv.take(i + 1).drop_last() =~= dv.take(i as int));
        assert(dv.take(i + 1).last() == vals@[i as int]@);
        inf.observe(&vals[i]);
    }
    assert(dv.take(vals@.len() as int) =~= dv);
    proof {
        lemma_type_readable(inf@);
    }
    inf.resolve()
}

/// Reads a document: the columns are the names of its first object, and each has
/// the narrowest type that fits its values. Malformed lines and elements are
/// counted and passed over.
pub fn parse(text: &str, host: &Answers) -> (r: Result<Result<JsonlData, String>, Ask>)
    ensures
        agree(
            r,
            parsed(text@, host@),
            |a: Result<JsonlData, String>, b: Option<JsonlDataV>|
                match (a, b) {
                    (Ok(d), Some(v)) => d@ == v && d.wf(),
                    (Err(e), None) => e@ == "JSON has no valid objects"@,
                    _ => false,
                },
        ),
{
    let (rows, bad_rows) = match read_rows(text, host) {
        Err(a) => {
            return Err(a);
        },
        Ok(x) => x,
    };
    if rows.len() == 0 {
        return Ok(Err(owned("JSON has no valid objects")));
    }
    if rows[0].len() == 0 {
        return Ok(Err(owned("JSON has no valid objects")));
    }
    let ghost rv = row_views(rows@);
    let names: Vec<String> = names_of(&rows[0]);
    let mut types: Vec<JType> = Vec::new();
    for j in 0..names.len()
        invariant
            rv == row_views(rows@),
            types@.len() == j,
            forall|k: int|
                0 <= k < j ==> (#[trigger] types@[k])@ == column_type(rv, names@[k]@) && readable(
                    types@[k]@,
                ),
    {
        types.push(column_kind(&rows, names[j].as_str()));
    }
    proof {
        assert(type_views(types@) =~= row_types(rv, texts(names@)));
    }
    let columns: Vec<Column> = match build_columns(&rows, &names, &types, host) {
        Err(a) => {
            return Err(a);
        },
        Ok(c) => c,
    };
    let fields: Vec<Field> = schema_from(&names, &types);
    proof {
        lemma_columns_shape(rv, texts(names@), type_views(types@), names@.len(), host@);
        assert(fields_view(fields@).len() == fields@.len());
        assert(lanes(columns@).len() == columns@.len());
        assert forall|j: int| 0 <= j < columns@.len() implies columns@[j]@.dtype
            == fields@[j]@.dtype by {
            assert(lanes(columns@)[j] == columns@[j]@);
            assert(fields_view(fields@)[j] == fields@[j]@);
            assert(type_views(types@)[j] == types@[j]@);
        }
    }
    Ok(Ok(JsonlData { fields, columns, bad_rows }))
}

pub proof fn lemma_columns_shape(
    rows: Seq<Row>,
    names: Seq<Seq<char>>,
    types: Seq<JTypeV>,
    n: nat,
    log: Log,
)
    ensures
        columns_as(rows, names, types, n, log) matches Ok(s) ==> s.len() == n && forall|j: int|
            0 <= j < n ==> (#[trigger] s[j]).dtype == lane_of(types[j]),
    decreases n,
{
    if n > 0 {
        lemma_columns_shape(rows, names, types, (n - 1) as nat, log);
    }
}

/// Whether a file is an array of objects: its first byte that is no white space
/// is a bracket.
pub open spec fn array_bytes(b: Seq<u8>) -> bool
    decreases b.len(),
{
    if b.len() == 0 {
        false
    } else if b[0] == 32 || b[0] == 9 || b[0] == 13 || b[0] == 10 {
        array_bytes(b.drop_first())
    } else {
        b[0] == 91
    }
}

/// Whether a file that starts with these bytes is an array of objects, which
/// cannot be read line by line (see [`array_bytes`]).
pub fn is_json_array(bytes: &Vec<u8>) -> (r: bool)
    ensures
        r == array_bytes(bytes@),
{
    assert(bytes@.skip(0) =~= bytes@);
    for i in 0..bytes.len()
        invariant
            array_bytes(bytes@) == array_bytes(bytes@.skip(i as int)),
    {
        assert(bytes@.skip(i as int).drop_first() =~= bytes@.skip(i + 1));
        let c: u8 = bytes[i];
        if c != 32 && c != 9 && c != 13 && c != 10 {
            return c == 91;
        }
    }
    false
}

// ------------------------------------------------------------------- types

/// The values that a row has of a name.
pub open spec fn in_row(m: Row, k: Seq<char>) -> Seq<Datum>
    decreases m.len(),
{
    if m.len() == 0 {
        Seq::empty()
    } else if m.last().0 == k {
        in_row(m.drop_last(), k).push(m.last().1)
    } else {
        in_row(m.drop_last(), k)
    }
}

/// The values that rows have of a name, in order.
pub open spec fn named(rows: Seq<Row>, k: Seq<char>) -> Seq<Datum>
    decreases rows.len(),
{
    if rows.len() == 0 {
        Seq::empty()
    } else {
        named(rows.drop_last(), k) + in_row(rows.last(), k)
    }
}

/// What is known of a name from rows.
pub open spec fn known(rows: Seq<Row>, k: Seq<char>) -> InferV {
    seen_all(nothing(), named(rows, k))
}

/// The type of the column at `j`: of a name that stands there twice, the first
/// column has its values.
pub open spec fn global_type(rows: Seq<Row>, names: Seq<Seq<char>>, j: int) -> JTypeV {
    if name_place(names, names[j]) == Some(j) {
        type_of(known(rows, names[j]))
    } else {
        type_of(nothing())
    }
}

/// The names of the first row and the types of their columns; `None` where there
/// is no row, or the first has no names.
pub open spec fn global_plan(rows: Seq<Row>) -> Option<(Seq<Seq<char>>, Seq<JTypeV>)> {
    if rows.len() == 0 || rows[0].len() == 0 {
        None
    } else {
        let names = keys_of(rows[0]);
        Some((names, Seq::new(names.len(), |j: int| global_type(rows, names, j))))
    }
}

fn observe_name(rows: &Vec<Members>, name: &str) -> (r: Infer)
    ensures
        r@ == known(row_views(rows@), name@),
        sound(r@),
{
    let ghost rv = row_views(rows@);
    let mut inf: Infer = Infer::new();
    assert(rv.take(0) =~= Seq::empty());
    for i in 0..rows.len()
        invariant
            rv == row_views(rows@),
            sound(inf@),
            inf@ == known(rv.take(i as int), name@),
    {
        let ghost mv = rv[i as int];
        let ghost before = named(rv.take(i as int), name@);
        assert(mv.take(0) =~= Seq::empty());
        assert(before + in_row(mv.take(0), name@) =~= before);
        let row: &Members = &rows[i];
        let size: usize = row.len();
        for c in 0..size
            invariant
                size == row@.len(),
                *row == rows@[i as int],
                rv == row_views(rows@),
                i < rows@.len(),
                mv == rv[i as int],
                sound(inf@),
                inf@ == seen_all(nothing(), before + in_row(mv.take(c as int), name@)),
        {
            proof {
                assert(mv.take(c + 1).drop_last() =~= mv.take(c as int));
                assert(mv[c as int] == (row@[c as int].0@, row@[c as int].1@));
            }
            if same_text(row[c].0.as_str(), name) {
                let ghost so_far = before + in_row(mv.take(c as int), name@);
                inf.observe(&row[c].1);
                proof {
                    let now = before + in_row(mv.take(c + 1), name@);
                    assert(now.drop_last() =~= so_far);
                }
            }
        }
        proof {
            assert(mv.take(mv.len() as int) =~= mv);
            assert(rv.take(i + 1).drop_last() =~= rv.take(i as int));
        }
    }
    assert(rv.take(rows@.len() as int) =~= rv);
    inf
}

/// Names and types agree with what rows give.
pub open spec fn plans(names: Seq<String>, types: Seq<JType>, p: (Seq<Seq<char>>, Seq<JTypeV>)) -> bool {
    &&& texts(names) == p.0
    &&& type_views(types) == p.1
    &&& types.len() == names.len()
    &&& forall|j: int| 0 <= j < types.len() ==> readable((#[trigger] types[j])@)
}

/// The names of the first row and the types of their columns (see
/// [`global_plan`]).
pub fn infer_global(rows: &Vec<Members>) -> (r: Option<(Vec<String>, Vec<JType>)>)
    ensures
        match (r, global_plan(row_views(rows@))) {
            (Some((names, types)), Some(p)) => plans(names@, types@, p),
            (None, None) => true,
            _ => false,
        },
{
    if rows.len() == 0 || rows[0].len() == 0 {
        return None;
    }
    let ghost rv = row_views(rows@);
    let names: Vec<String> = names_of(&rows[0]);
    let ghost nv = texts(names@);
    let mut types: Vec<JType> = Vec::new();
    for j in 0..names.len()
        invariant
            rv == row_views(rows@),
            nv == texts(names@),
            types@.len() == j,
            forall|k: int|
                0 <= k < j ==> (#[trigger] types@[k])@ == global_type(rv, nv, k) && readable(
                    types@[k]@,
                ),
    {
        proof {
            assert(nv[j as int] == names@[j as int]@);
            lemma_name_place(nv, nv[j as int]);
        }
        let inf: Infer = match find_name(&names, names[j].as_str()) {
            Some(p) if p == j => observe_name(rows, names[j].as_str()),
            _ => Infer::new(),
        };
        proof {
            lemma_type_readable(inf@);
        }
        types.push(inf.resolve());
    }
    proof {
        assert(type_views(types@) =~= global_plan(rv)->Some_0.1);
    }
    Some((names, types))
}

proof fn lemma_member_at(m: Row, k: Seq<char>, i: int)
    requires
        keys_of(m).no_duplicates(),
        0 <= i < m.len(),
        m[i].0 == k,
    ensures
        member(m, k) == m[i].1,
    decreases m.len(),
{
    assert(keys_of(m)[i] == m[i].0);
    if i > 0 {
        assert(keys_of(m)[0] == m[0].0);
        let rest = m.drop_first();
        assert forall|a: int, b: int|
            0 <= a < rest.len() && 0 <= b < rest.len() && a != b implies keys_of(rest)[a]
            != keys_of(rest)[b] by {
            assert(keys_of(m)[a + 1] != keys_of(m)[b + 1]);
        }
        lemma_member_at(rest, k, i - 1);
    }
}

proof fn lemma_member_none(m: Row, k: Seq<char>)
    requires
        forall|i: int| 0 <= i < m.len() ==> (#[trigger] m[i]).0 != k,
    ensures
        member(m, k) is Null,
        in_row(m, k).len() == 0,
    decreases m.len(),
{
    if m.len() > 0 {
        assert(m[0].0 != k);
        assert(m[m.len() - 1].0 != k);
        assert forall|i: int| 0 <= i < m.drop_first().len() implies (
        #[trigger] m.drop_first()[i]).0 != k by {
            assert(m[i + 1].0 != k);
        }
        assert forall|i: int| 0 <= i < m.drop_last().len() implies (
        #[trigger] m.drop_last()[i]).0 != k by {
            assert(m[i].0 != k);
        }
        lemma_member_none(m.drop_first(), k);
        lemma_member_none(m.drop_last(), k);
    }
}

proof fn lemma_in_row_at(m: Row, k: Seq<char>, i: int)
    requires
        keys_of(m).no_duplicates(),
        0 <= i < m.len(),
        m[i].0 == k,
    ensures
        in_row(m, k) == seq![m[i].1],
    decreases m.len(),
{
    let rest = m.drop_last();
    assert forall|a: int, b: int|
        0 <= a < rest.len() && 0 <= b < rest.len() && a != b implies keys_of(rest)[a] != keys_of(
        rest,
    )[b] by {
        assert(keys_of(m)[a] != keys_of(m)[b]);
    }
    assert(keys_of(m)[i] == k);
    if i == m.len() - 1 {
        assert forall|j: int| 0 <= j < rest.len() implies (#[trigger] rest[j]).0 != k by {
            assert(keys_of(m)[j] != keys_of(m)[i]);
        }
        lemma_member_none(rest, k);
        assert(in_row(m, k) =~= seq![m[i].1]);
    } else {
        assert(keys_of(m)[m.len() - 1] != keys_of(m)[i]);
        assert(m.last().0 != k);
        lemma_in_row_at(rest, k, i);
    }
}

proof fn lemma_known_by_column(rows: Seq<Row>, k: Seq<char>)
    requires
        forall|r: int| 0 <= r < rows.len() ==> keys_of(#[trigger] rows[r]).no_duplicates(),
    ensures
        known(rows, k) == seen_all(nothing(), column_values(rows, k)),
    decreases rows.len(),
{
    if rows.len() > 0 {
        let less = rows.drop_last();
        let m = rows.last();
        assert forall|r: int| 0 <= r < less.len() implies keys_of(
            #[trigger] less[r],
        ).no_duplicates() by {
            assert(keys_of(rows[r]).no_duplicates());
        }
        lemma_known_by_column(less, k);
        assert(keys_of(rows[rows.len() - 1]).no_duplicates());
        assert(column_values(rows, k).drop_last() =~= column_values(less, k));
        assert(column_values(rows, k).last() == member(m, k));
        if exists|i: int| 0 <= i < m.len() && (#[trigger] m[i]).0 == k {
            let i = choose|i: int| 0 <= i < m.len() && (#[trigger] m[i]).0 == k;
            lemma_member_at(m, k, i);
            lemma_in_row_at(m, k, i);
            assert(named(rows, k).drop_last() =~= named(less, k));
            assert(named(rows, k).last() == m[i].1);
        } else {
            assert forall|i: int| 0 <= i < m.len() implies (#[trigger] m[i]).0 != k by {}
            lemma_member_none(m, k);
            assert(named(rows, k) =~= named(less, k));
        }
    }
}

/// Reading lines in chunks gives the columns the names and the types that reading
/// the whole document gives them, and none where that is an error, where no object
/// holds a name twice.
pub proof fn lemma_same_types(rows: Seq<Row>, bad: nat, log: Log)
    requires
        forall|r: int| 0 <= r < rows.len() ==> keys_of(#[trigger] rows[r]).no_duplicates(),
    ensures
        match table_of(rows, bad, log) {
            Ok(None) => global_plan(rows) is None,
            Ok(Some(t)) => global_plan(rows) matches Some((names, types)) && t.fields == fields_of(
                names,
                types,
            ) && columns_as(rows, names, types, names.len(), log) == Ok::<Seq<Lane>, Query>(
                t.columns,
            ),
            Err(_) => global_plan(rows) is Some,
        },
        global_plan(rows) is Some ==> global_plan(rows) == Some(
            (keys_of(rows[0]), row_types(rows, keys_of(rows[0]))),
        ),
{
    if rows.len() > 0 && rows[0].len() > 0 {
        let names = keys_of(rows[0]);
        assert forall|j: int| 0 <= j < names.len() implies global_type(rows, names, j)
            == #[trigger] column_type(rows, names[j]) by {
            lemma_name_place(names, names[j]);
            lemma_known_by_column(rows, names[j]);
        }
        assert(global_plan(rows)->Some_0.1 =~= row_types(rows, names));
    }
}

proof fn lemma_cells_joined(t: JTypeV, x: Seq<Datum>, y: Seq<Datum>, n: nat, log: Log)
    requires
        n <= y.len(),
        cells(t, x, x.len(), log) is Ok,
        cells(t, y, n, log) is Ok,
    ensures
        cells(t, x + y, x.len() + n, log) == Ok::<Seq<Datum>, Query>(
            cells(t, x, x.len(), log)->Ok_0 + cells(t, y, n, log)->Ok_0,
        ),
    decreases n,
{
    if n == 0 {
        lemma_cells_prefix(t, x, y, x.len(), log);
        assert(cells(t, x, x.len(), log)->Ok_0 + Seq::<Datum>::empty() =~= cells(
            t,
            x,
            x.len(),
            log,
        )->Ok_0);
    } else {
        lemma_cells_joined(t, x, y, (n - 1) as nat, log);
        assert((x + y)[x.len() + n - 1] == y[n - 1]);
        assert(cells(t, x + y, x.len() + n, log)->Ok_0 =~= cells(t, x, x.len(), log)->Ok_0
            + cells(t, y, n, log)->Ok_0);
    }
}

proof fn lemma_cells_prefix(t: JTypeV, x: Seq<Datum>, y: Seq<Datum>, n: nat, log: Log)
    requires
        n <= x.len(),
    ensures
        cells(t, x + y, n, log) == cells(t, x, n, log),
    decreases n,
{
    if n > 0 {
        lemma_cells_prefix(t, x, y, (n - 1) as nat, log);
        assert((x + y)[n - 1] == x[n - 1]);
    }
}

/// Columns of given types are the same whether rows are read at once or in two
/// runs: each is the column of the first run followed by that of the second.
pub proof fn lemma_columns_in_runs(
    x: Seq<Row>,
    y: Seq<Row>,
    names: Seq<Seq<char>>,
    types: Seq<JTypeV>,
    n: nat,
    log: Log,
)
    requires
        columns_as(x, names, types, n, log) is Ok,
        columns_as(y, names, types, n, log) is Ok,
    ensures
        columns_as(x + y, names, types, n, log) matches Ok(c) && c.len() == n && forall|j: int|
            0 <= j < n ==> (#[trigger] c[j]).cells == columns_as(
                x,
                names,
                types,
                n,
                log,
            )->Ok_0[j].cells + columns_as(y, names, types, n, log)->Ok_0[j].cells,
    decreases n,
{
    lemma_columns_shape(x, names, types, n, log);
    lemma_columns_shape(y, names, types, n, log);
    if n > 0 {
        lemma_columns_in_runs(x, y, names, types, (n - 1) as nat, log);
        lemma_columns_shape(x, names, types, (n - 1) as nat, log);
        lemma_columns_shape(y, names, types, (n - 1) as nat, log);
        let k = names[n - 1];
        assert(column_values(x + y, k) =~= column_values(x, k) + column_values(y, k));
        lemma_cells_joined(types[n - 1], column_values(x, k), column_values(y, k), y.len(), log);
    }
}

// ------------------------------------------------------------------ chunks

/// Up to `want` rows of the lines from `i` on, the line to go on at, and how many
/// malformed lines were passed over.
pub open spec fn next_rows(lines: Seq<Seq<char>>, i: int, want: nat, log: Log) -> Result<
    (Seq<Row>, int, nat),
    Query,
>
    decreases lines.len() - i,
{
    if i < 0 || i >= lines.len() || want == 0 {
        Ok((Seq::empty(), i, 0))
    } else if is_blank(lines[i]) {
        next_rows(lines, i + 1, want, log)
    } else {
        match object_in(lines[i], log) {
            Err(q) => Err(q),
            Ok(Some(m)) => match next_rows(lines, i + 1, (want - 1) as nat, log) {
                Err(q) => Err(q),
                Ok((s, j, bad)) => Ok((seq![m] + s, j, bad)),
            },
            Ok(None) => match next_rows(lines, i + 1, want, log) {
                Err(q) => Err(q),
                Ok((s, j, bad)) => Ok((s, j, bad + 1)),
            },
        }
    }
}

/// Reading lines in chunks loses nothing and repeats nothing: the rows of a chunk
/// and those of the lines after it are the rows of all the lines, and a chunk
/// falls short of what was wanted only at the end.
pub proof fn lemma_chunks_are_whole(lines: Seq<Seq<char>>, i: int, want: nat, log: Log)
    requires
        0 <= i <= lines.len(),
    ensures
        next_rows(lines, i, want, log) matches Ok((s, j, bad)) ==> {
            &&& i <= j <= lines.len()
            &&& s.len() <= want
            &&& s.len() < want ==> j == lines.len()
            &&& rows_from(lines, i, log) == led(s, bad, rows_from(lines, j, log))
        },
        next_rows(lines, i, want, log) matches Err(q) ==> rows_from(lines, i, log) == Err::<
            (Seq<Row>, nat),
            Query,
        >(q),
    decreases lines.len() - i,
{
    let all = rows_from(lines, i, log);
    if i >= lines.len() || want == 0 {
        if all is Ok {
            assert(Seq::<Row>::empty() + all->Ok_0.0 =~= all->Ok_0.0);
        }
    } else if is_blank(lines[i]) {
        lemma_chunks_are_whole(lines, i + 1, want, log);
    } else {
        match object_in(lines[i], log) {
            Err(_) => {},
            Ok(Some(m)) => {
                lemma_chunks_are_whole(lines, i + 1, (want - 1) as nat, log);
                if let Ok((s, j, bad)) = next_rows(lines, i + 1, (want - 1) as nat, log) {
                    let rest = rows_from(lines, j, log);
                    if rest is Ok {
                        assert(seq![m] + (s + rest->Ok_0.0) =~= (seq![m] + s) + rest->Ok_0.0);
                    }
                }
            },
            Ok(None) => {
                lemma_chunks_are_whole(lines, i + 1, want, log);
                if let Ok((s, j, bad)) = next_rows(lines, i + 1, want, log) {
                    let rest = rows_from(lines, j, log);
                    if rest is Ok {
                        assert(Seq::<Row>::empty() + (s + rest->Ok_0.0) =~= s + rest->Ok_0.0);
                    }
                }
            },
        }
    }
}

spec fn read_on(rows: Seq<Row>, bad: nat, rest: Result<(Seq<Row>, int, nat), Query>) -> Result<
    (Seq<Row>, int, nat),
    Query,
> {
    match rest {
        Err(q) => Err(q),
        Ok((s, j, worse)) => Ok((rows + s, j, bad + worse)),
    }
}

fn take_rows(lines: &Vec<String>, from: usize, want: usize, host: &Answers) -> (r: Result<
    (Vec<Members>, usize, usize),
    Ask,
>)
    requires
        from <= lines@.len(),
    ensures
        agree(
            r,
            next_rows(texts(lines@), from as int, want as nat, host@),
            |a: (Vec<Members>, usize, usize), b: (Seq<Row>, int, nat)|
                row_views(a.0@) == b.0 && a.1 == b.1 && a.2 == b.2 && from <= a.1 <= lines@.len()
                    && a.2 <= a.1 - from,
        ),
{
    let ghost ls = texts(lines@);
    let ghost all = next_rows(ls, from as int, want as nat, host@);
    let mut rows: Vec<Members> = Vec::new();
    let mut bad: usize = 0;
    let mut i: usize = from;
    proof {
        assert(row_views(rows@) =~= Seq::empty());
        if all is Ok {
            assert(row_views(rows@) + all->Ok_0.0 =~= all->Ok_0.0);
        }
    }
    while i < lines.len() && rows.len() < want
        invariant
            ls == texts(lines@),
            from <= i <= lines@.len(),
            rows@.len() <= want,
            bad <= i - from,
            all == next_rows(ls, from as int, want as nat, host@),
            all == read_on(
                row_views(rows@),
                bad as nat,
                next_rows(ls, i as int, (want - rows@.len()) as nat, host@),
            ),
        decreases lines@.len() - i,
    {
        assert(ls[i as int] == lines@[i as int]@);
        if !blank(&lines[i]) {
            let line: Vec<char> = chars_of(lines[i].as_str());
            match parse_object(&line, host) {
                Err(a) => {
                    return Err(a);
                },
                Ok(Some(m)) => {
                    let ghost rest = next_rows(ls, i + 1, (want - rows@.len() - 1) as nat, host@);
                    let ghost up = row_views(rows@);
                    let ghost one = member_views(m@);
                    rows.push(m);
                    proof {
                        assert(row_views(rows@) =~= up.push(one));
                        if rest is Ok {
                            assert(up + (seq![one] + rest->Ok_0.0) =~= up.push(one)
                                + rest->Ok_0.0);
                        }
                    }
                },
                Ok(None) => {
                    bad = bad + 1;
                },
            }
        }
        i = i + 1;
    }
    proof {
        assert(row_views(rows@) + Seq::<Row>::empty() =~= row_views(rows@));
    }
    Ok((rows, i, bad))
}

/// Lines read a chunk at a time, into columns whose names and types are fixed.
#[derive(Debug)]
pub struct JsonlChunker {
    names: Vec<String>,
    jtypes: Vec<JType>,
    chunk_size: usize,
    lines: Vec<String>,
    pos: usize,
    counting: bool,
    bad_rows: usize,
}

/// What a [`JsonlChunker`] is.
#[verifier::ext_equal]
pub struct ChunkerV {
    pub names: Seq<Seq<char>>,
    pub jtypes: Seq<JTypeV>,
    pub chunk_size: nat,
    pub lines: Seq<Seq<char>>,
    /// The line to go on at.
    pub pos: nat,
    /// Whether malformed lines after the first chunk are counted as they are
    /// passed over; where not, all were counted before.
    pub counting: bool,
    pub bad_rows: nat,
}

/// The count that is kept: it stays at the greatest one.
pub open spec fn most(n: nat) -> nat {
    if n <= usize::MAX {
        n
    } else {
        usize::MAX as nat
    }
}

impl ChunkerV {
    /// The next chunk, and the state after it; no chunk where no row is left.
    pub open spec fn next(self, log: Log) -> Result<(Option<Seq<Lane>>, ChunkerV), Query> {
        match next_rows(self.lines, self.pos as int, self.chunk_size, log) {
            Err(q) => Err(q),
            Ok((rows, j, bad)) => {
                let after = ChunkerV {
                    pos: j as nat,
                    bad_rows: if self.counting && self.pos > 0 {
                        most(self.bad_rows + bad)
                    } else {
                        self.bad_rows
                    },
                    ..self
                };
                if rows.len() == 0 {
                    Ok((None, after))
                } else {
                    match columns_as(rows, self.names, self.jtypes, self.names.len(), log) {
                        Err(q) => Err(q),
                        Ok(c) => Ok((Some(c), after)),
                    }
                }
            },
        }
    }
}

impl JsonlChunker {
    pub closed spec fn view(&self) -> ChunkerV {
        ChunkerV {
            names: texts(self.names@),
            jtypes: type_views(self.jtypes@),
            chunk_size: self.chunk_size as nat,
            lines: texts(self.lines@),
            pos: self.pos as nat,
            counting: self.counting,
            bad_rows: self.bad_rows as nat,
        }
    }

    /// A chunk holds at least one row, and every name has a type that values can
    /// be read into.
    pub closed spec fn wf(&self) -> bool {
        &&& self.chunk_size >= 1
        &&& self.pos <= self.lines@.len()
        &&& self.jtypes@.len() == self.names@.len()
        &&& forall|j: int| 0 <= j < self.jtypes@.len() ==> readable((#[trigger] self.jtypes@[j])@)
    }

    /// The malformed lines that were counted.
    pub fn bad_rows(&self) -> (r: usize)
        ensures
            r == self@.bad_rows,
    {
        self.bad_rows
    }

    /// Lines to be read into columns whose types fit all of them. The malformed
    /// ones are counted now.
    pub fn open(lines: Vec<String>, chunk_size: usize, host: &Answers) -> (r: Result<
        Result<(Vec<Field>, JsonlChunker), String>,
        Ask,
    >)
        ensures
            agree(
                r,
                rows_from(texts(lines@), 0, host@),
                |a: Result<(Vec<Field>, JsonlChunker), String>, b: (Seq<Row>, nat)|
                    match (a, global_plan(b.0)) {
                        (Ok((fields, c)), Some(p)) => c.wf() && fields_view(fields@) == fields_of(
                            p.0,
                            p.1,
                        ) && c@ == (ChunkerV {
                            names: p.0,
                            jtypes: p.1,
                            chunk_size: if chunk_size == 0 {
                                1
                            } else {
                                chunk_size as nat
                            },
                            lines: texts(lines@),
                            pos: 0,
                            counting: false,
                            bad_rows: b.1,
                        }),
                        (Err(e), None) => e@ == "JSON has no valid objects"@,
                        _ => false,
                    },
            ),
    {
        let (rows, bad_rows) = match read_lines(&lines, host) {
            Err(a) => {
                return Err(a);
            },
            Ok(x) => x,
        };
        match infer_global(&rows) {
            None => Ok(Err(owned("JSON has no valid objects"))),
            Some((names, jtypes)) => {
                let fields: Vec<Field> = schema_from(&names, &jtypes);
                let chunk_size: usize = if chunk_size == 0 {
                    1
                } else {
                    chunk_size
                };
                Ok(
                    Ok(
                        (
                            fields,
                            JsonlChunker {
                                names,
                                jtypes,
                                chunk_size,
                                lines,
                                pos: 0,
                                counting: false,
                                bad_rows,
                            },
                        ),
                    ),
                )
            },
        }
    }

    /// The lines of one range, to be read into columns that are fixed already.
    pub fn for_range(
        lines: Vec<String>,
        names: Vec<String>,
        jtypes: Vec<JType>,
        chunk_size: usize,
    ) -> (r: JsonlChunker)
        requires
            jtypes@.len() == names@.len(),
            forall|j: int| 0 <= j < jtypes@.len() ==> readable((#[trigger] jtypes@[j])@),
        ensures
            r.wf(),
            r@ == (ChunkerV {
                names: texts(names@),
                jtypes: type_views(jtypes@),
                chunk_size: if chunk_size == 0 {
                    1
                } else {
                    chunk_size as nat
                },
                lines: texts(lines@),
                pos: 0,
                counting: false,
                bad_rows: 0,
            }),
    {
        JsonlChunker {
            names,
            jtypes,
            chunk_size: if chunk_size == 0 {
                1
            } else {
                chunk_size
            },
            lines,
            pos: 0,
            counting: false,
            bad_rows: 0,
        }
    }

    /// The next chunk (see [`ChunkerV::next`]). A question leaves everything as it
    /// was.
    pub fn next_columns(&mut self, host: &Answers) -> (r: Result<Option<Vec<Column>>, Ask>)
        requires
            old(self).wf(),
        ensures
            final(self).wf(),
            match (r, old(self)@.next(host@)) {
                (Ok(Some(c)), Ok((Some(s), after))) => lanes(c@) == s && final(self)@ == after
                    && forall|j: int|
                    0 <= j < c@.len() ==> (#[trigger] c@[j])@.typed() && c@[j]@.cells.len()
                        == c@[0]@.cells.len(),
                (Ok(None), Ok((None, after))) => final(self)@ == after,
                (Err(a), Err(q)) => a@ == q && final(self)@ == old(self)@,
                _ => false,
            },
    {
        let (rows, j, bad) = match take_rows(&self.lines, self.pos, self.chunk_size, host) {
            Err(a) => {
                return Err(a);
            },
            Ok(x) => x,
        };
        let columns: Option<Vec<Column>> = if rows.len() == 0 {
            None
        } else {
            match build_columns(&rows, &self.names, &self.jtypes, host) {
                Err(a) => {
                    return Err(a);
                },
                Ok(c) => Some(c),
            }
        };
        if self.counting && self.pos > 0 {
            self.bad_rows = self.bad_rows.saturating_add(bad);
        }
        self.pos = j;
        Ok(columns)
    }
}

/// Lines of a stream, which can be passed over once, read a chunk at a time.
#[derive(Debug)]
pub struct StreamJsonlReader {
    chunks: JsonlChunker,
}

impl StreamJsonlReader {
    pub closed spec fn view(&self) -> ChunkerV {
        self.chunks@
    }

    /// As [`JsonlChunker::wf`].
    pub closed spec fn wf(&self) -> bool {
        self.chunks.wf()
    }

    /// The malformed lines that were counted so far.
    pub fn bad_rows(&self) -> (r: usize)
        ensures
            r == self@.bad_rows,
    {
        self.chunks.bad_rows
    }

    /// Lines that can be passed over once: the types fit the first chunk, and the
    /// malformed lines are counted there and, after it, as they come.
    pub fn from_reader(lines: Vec<String>, chunk_size: usize, host: &Answers) -> (r: Result<
        Result<(Vec<Field>, StreamJsonlReader), String>,
        Ask,
    >)
        ensures
            agree(
                r,
                next_rows(
                    texts(lines@),
                    0,
                    if chunk_size == 0 {
                        1
                    } else {
                        chunk_size as nat
                    },
                    host@,
                ),
                |a: Result<(Vec<Field>, StreamJsonlReader), String>, b: (Seq<Row>, int, nat)|
                    match (a, global_plan(b.0)) {
                        (Ok((fields, c)), Some(p)) => c.wf() && fields_view(fields@) == fields_of(
                            p.0,
                            p.1,
                        ) && c@ == (ChunkerV {
                            names: p.0,
                            jtypes: p.1,
                            chunk_size: if chunk_size == 0 {
                                1
                            } else {
                                chunk_size as nat
                            },
                            lines: texts(lines@),
                            pos: 0,
                            counting: true,
                            bad_rows: b.2,
                        }),
                        (Err(e), None) => e@ == "JSON stream has no valid objects"@,
                        _ => false,
                    },
            ),
    {
        let chunk_size: usize = if chunk_size == 0 {
            1
        } else {
            chunk_size
        };
        let (rows, _, bad_rows) = match take_rows(&lines, 0, chunk_size, host) {
            Err(a) => {
                return Err(a);
            },
            Ok(x) => x,
        };
        match infer_global(&rows) {
            None => Ok(Err(owned("JSON stream has no valid objects"))),
            Some((names, jtypes)) => {
                let fields: Vec<Field> = schema_from(&names, &jtypes);
                Ok(
                    Ok(
                        (
                            fields,
                            StreamJsonlReader {
                                chunks: JsonlChunker {
                                    names,
                                    jtypes,
                                    chunk_size,
                                    lines,
                                    pos: 0,
                                    counting: true,
                                    bad_rows,
                                },
                            },
                        ),
                    ),
                )
            },
        }
    }

    /// The next chunk (see [`ChunkerV::next`]). A question leaves everything as it
    /// was.
    pub fn next_columns(&mut self, host: &Answers) -> (r: Result<Option<Vec<Column>>, Ask>)
        requires
            old(self).wf(),
        ensures
            final(self).wf(),
            match (r, old(self)@.next(host@)) {
                (Ok(Some(c)), Ok((Some(s), after))) => lanes(c@) == s && final(self)@ == after
                    && forall|j: int|
                    0 <= j < c@.len() ==> (#[trigger] c@[j])@.typed() && c@[j]@.cells.len()
                        == c@[0]@.cells.len(),
                (Ok(None), Ok((None, after))) => final(self)@ == after,
                (Err(a), Err(q)) => a@ == q && final(self)@ == old(self)@,
                _ => false,
            },
    {
        self.chunks.next_columns(host)
    }
}

} // verus!
