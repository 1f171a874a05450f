//! What is written to CSV and JSON, told by characters, what JSON is read as, and
//! what a path finds in a nested value.
use vstd::prelude::*;
use crate::cast::{clean, rendered};
use crate::chunk::{lemma_index_in, Batch, Shape};
use crate::host::{Log, Query};
use crate::json::{after_ws, string_at, string_rest, value_at};
use crate::nested::{deep_cell, deep_find, first_named, member, named, next_level, path_cell, top_level, walk, Entry, Step};
use crate::sink::{array_end, array_of, array_part, csv_cell, csv_cells, csv_chunk, csv_lines, csv_names, csv_text, doubled, json_cell, json_char, json_escaped, json_members, json_object, json_text, jsonl_lines, lemma_ascii_separator};
use crate::text::int_text;
use crate::value::Datum;

verus! {

// ----------------------------------------------------------------------- CSV

/// One text is another with each quote twice.
pub open spec fn twice_quoted(t: Seq<char>, d: Seq<char>) -> bool
    decreases t.len(),
{
    if t.len() == 0 {
        d.len() == 0
    } else if t[0] == '"' {
        d.len() >= 2 && d[0] == '"' && d[1] == '"' && twice_quoted(t.drop_first(), d.skip(2))
    } else {
        d.len() >= 1 && d[0] == t[0] && twice_quoted(t.drop_first(), d.skip(1))
    }
}

proof fn lemma_twice_push(t: Seq<char>, d: Seq<char>, c: char)
    requires
        twice_quoted(t, d),
    ensures
        twice_quoted(
            t.push(c),
            if c == '"' {
                d.push('"').push('"')
            } else {
                d.push(c)
            },
        ),
    decreases t.len(),
{
    let more = if c == '"' {
        d.push('"').push('"')
    } else {
        d.push(c)
    };
    let u = t.push(c);
    if t.len() == 0 {
        assert(u.drop_first() =~= Seq::empty());
        assert(d =~= Seq::empty());
        let n: int = if c == '"' {
            2
        } else {
            1
        };
        assert(more.skip(n) =~= Seq::empty());
        assert(twice_quoted(u.drop_first(), more.skip(n)));
        assert(u[0] == c);
    } else {
        let n: int = if t[0] == '"' {
            2
        } else {
            1
        };
        lemma_twice_push(t.drop_first(), d.skip(n), c);
        assert(u.drop_first() =~= t.drop_first().push(c));
        if c == '"' {
            assert(more.skip(n) =~= d.skip(n).push('"').push('"'));
        } else {
            assert(more.skip(n) =~= d.skip(n).push(c));
        }
        assert(twice_quoted(u.drop_first(), more.skip(n)));
        assert(u[0] == t[0]);
        assert(more[0] == d[0]);
        if n == 2 {
            assert(more[1] == d[1]);
        }
    }
}

proof fn lemma_doubled_twice(t: Seq<char>)
    ensures
        twice_quoted(t, doubled(t)),
    decreases t.len(),
{
    if t.len() > 0 {
        lemma_doubled_twice(t.drop_last());
        lemma_twice_push(t.drop_last(), doubled(t.drop_last()), t.last());
        assert(t.drop_last().push(t.last()) =~= t);
    }
}

/// A text in a CSV line stands as it is where it holds no separator, quote or line
/// end; else between quotes, with each of its own quotes twice. The separator is one
/// of ASCII.
pub proof fn lemma_csv_text_quoted(t: Seq<char>, sep: char)
    requires
        sep as u32 <= 0x7f,
    ensures
        !t.contains(sep) && !t.contains('"') && !t.contains('\n') ==> csv_text(t, sep) == t,
        t.contains(sep) || t.contains('"') || t.contains('\n') ==> ({
            let s = csv_text(t, sep);
            &&& s.len() >= 2
            &&& s[0] == '"'
            &&& s.last() == '"'
            &&& twice_quoted(t, s.subrange(1, s.len() - 1))
        }),
{
    lemma_ascii_separator(t, sep);
    lemma_doubled_twice(t);
    let s = csv_text(t, sep);
    if t.contains(sep) || t.contains('"') || t.contains('\n') {
        assert(s.subrange(1, s.len() - 1) =~= doubled(t));
    }
}

/// A cell of a CSV line: a text quoted where it needs it, a missing one empty, an
/// integer as its numeral, a truth value as its word.
pub proof fn lemma_csv_cells(d: Datum, sep: char, log: Log)
    ensures
        d matches Datum::Str(t) ==> csv_cell(d, sep, log) == Ok::<Seq<char>, Query>(csv_text(t, sep)),
        d is Null ==> csv_cell(d, sep, log) == Ok::<Seq<char>, Query>(Seq::empty()),
        d matches Datum::I64(n) ==> csv_cell(d, sep, log) == Ok::<Seq<char>, Query>(int_text(n as int)),
        d == Datum::Bool(true) ==> csv_cell(d, sep, log) == Ok::<Seq<char>, Query>(
            seq!['t', 'r', 'u', 'e'],
        ),
        d == Datum::Bool(false) ==> csv_cell(d, sep, log) == Ok::<Seq<char>, Query>(
            seq!['f', 'a', 'l', 's', 'e'],
        ),
{
}

/// Texts one behind the other, with a mark between.
pub open spec fn marked(parts: Seq<Seq<char>>, mark: char) -> Seq<char>
    decreases parts.len(),
{
    if parts.len() == 0 {
        Seq::empty()
    } else if parts.len() == 1 {
        parts[0]
    } else {
        parts[0] + seq![mark] + marked(parts.drop_first(), mark)
    }
}

proof fn lemma_marked_push(parts: Seq<Seq<char>>, t: Seq<char>, mark: char)
    requires
        parts.len() > 0,
    ensures
        marked(parts.push(t), mark) == marked(parts, mark).push(mark) + t,
    decreases parts.len(),
{
    let all = parts.push(t);
    if parts.len() == 1 {
        assert(all.drop_first() =~= seq![t]);
        assert(marked(seq![t], mark) == t);
        assert(marked(all, mark) =~= marked(parts, mark).push(mark) + t);
    } else {
        lemma_marked_push(parts.drop_first(), t, mark);
        assert(all.drop_first() =~= parts.drop_first().push(t));
        assert(marked(all, mark) =~= marked(parts, mark).push(mark) + t);
    }
}

/// A line of CSV is the cells of the row in the order of the columns, with the
/// separator between them.
pub proof fn lemma_csv_line(b: Batch, row: int, n: nat, sep: char, parts: Seq<Seq<char>>, log: Log)
    requires
        parts.len() == n,
        forall|i: int|
            0 <= i < n ==> csv_cell(b.columns[i].cells[row], sep, log) == Ok::<Seq<char>, Query>(
                #[trigger] parts[i],
            ),
    ensures
        csv_cells(b, row, n, sep, log) == Ok::<Seq<char>, Query>(marked(parts, sep)),
    decreases n,
{
    if n > 0 {
        let up = parts.drop_last();
        assert forall|i: int| 0 <= i < n - 1 implies csv_cell(b.columns[i].cells[row], sep, log)
            == Ok::<Seq<char>, Query>(#[trigger] up[i]) by {
            assert(up[i] == parts[i]);
        }
        lemma_csv_line(b, row, (n - 1) as nat, sep, up, log);
        assert(up.push(parts[n - 1]) =~= parts);
        if n > 1 {
            lemma_marked_push(up, parts[n - 1], sep);
        }
    }
}

/// The header of CSV is the names of the columns, in order, with the separator
/// between them.
pub proof fn lemma_csv_header(b: Batch, n: nat, sep: char, names: Seq<Seq<char>>)
    requires
        names.len() == n,
        n <= b.fields.len(),
        forall|i: int| 0 <= i < n ==> (#[trigger] names[i]) == b.fields[i].name,
    ensures
        csv_names(b, n, sep) == marked(names, sep),
    decreases n,
{
    if n > 1 {
        let up = names.drop_last();
        assert forall|i: int| 0 <= i < n - 1 implies (#[trigger] up[i]) == b.fields[i].name by {
            assert(up[i] == names[i]);
        }
        lemma_csv_header(b, (n - 1) as nat, sep, up);
        assert(up.push(names[n - 1]) =~= names);
        lemma_marked_push(up, names[n - 1], sep);
    }
}

/// Lines one behind the other, each ended.
pub open spec fn ended(lines: Seq<Seq<char>>) -> Seq<char>
    decreases lines.len(),
{
    if lines.len() == 0 {
        Seq::empty()
    } else {
        lines[0] + seq!['\n'] + ended(lines.drop_first())
    }
}

proof fn lemma_ended_push(lines: Seq<Seq<char>>, t: Seq<char>)
    ensures
        ended(lines.push(t)) == (ended(lines) + t).push('\n'),
    decreases lines.len(),
{
    let all = lines.push(t);
    if lines.len() == 0 {
        assert(all.drop_first() =~= Seq::empty());
        assert(ended(all.drop_first()) =~= Seq::empty());
        assert(ended(all) =~= (ended(lines) + t).push('\n'));
    } else {
        lemma_ended_push(lines.drop_first(), t);
        assert(all.drop_first() =~= lines.drop_first().push(t));
        assert(ended(all) =~= (ended(lines) + t).push('\n'));
    }
}

/// The text of a chunk in CSV is the header line where it is due, and a line for each
/// row, in order.
pub proof fn lemma_csv_document(b: Batch, header: bool, sep: char, lines: Seq<Seq<char>>, log: Log)
    requires
        lines.len() == b.len,
        forall|r: int|
            0 <= r < b.len ==> csv_cells(b, r, b.columns.len(), sep, log) == Ok::<Seq<char>, Query>(
                #[trigger] lines[r],
            ),
    ensures
        csv_chunk(b, header, sep, log) == Ok::<Seq<char>, Query>(
            if header {
                csv_names(b, b.fields.len(), sep) + seq!['\n'] + ended(lines)
            } else {
                ended(lines)
            },
        ),
{
    lemma_csv_lines_ended(b, b.len, sep, lines, log);
    assert(lines.take(b.len as int) =~= lines);
    let head = csv_names(b, b.fields.len(), sep);
    assert(head.push('\n') + ended(lines) =~= head + seq!['\n'] + ended(lines));
}

proof fn lemma_csv_lines_ended(b: Batch, n: nat, sep: char, lines: Seq<Seq<char>>, log: Log)
    requires
        lines.len() == b.len,
        n <= b.len,
        forall|r: int|
            0 <= r < b.len ==> csv_cells(b, r, b.columns.len(), sep, log) == Ok::<Seq<char>, Query>(
                #[trigger] lines[r],
            ),
    ensures
        csv_lines(b, n, sep, log) == Ok::<Seq<char>, Query>(ended(lines.take(n as int))),
    decreases n,
{
    if n > 0 {
        lemma_csv_lines_ended(b, (n - 1) as nat, sep, lines, log);
        let up = lines.take(n - 1);
        lemma_ended_push(up, lines[n - 1]);
        assert(up.push(lines[n - 1]) =~= lines.take(n as int));
    } else {
        assert(lines.take(0) =~= Seq::empty());
    }
}

// -------------------------------------------------------------- JSON, written

/// What a character of a JSON string is written as: a quote, a backslash, a line
/// feed, a tab and a carriage return behind a backslash, other control characters by
/// their code in four hexadecimal digits, and all others as they are.
pub proof fn lemma_json_characters(c: char)
    ensures
        c == '"' ==> json_char(c) == seq!['\\', '"'],
        c == '\\' ==> json_char(c) == seq!['\\', '\\'],
        c == '\n' ==> json_char(c) == seq!['\\', 'n'],
        c == '\t' ==> json_char(c) == seq!['\\', 't'],
        c == '\r' ==> json_char(c) == seq!['\\', 'r'],
        c as u32 >= 0x20 && c != '"' && c != '\\' ==> json_char(c) == seq![c],
        (c as u32) < 0x20 && c != '\n' && c != '\t' && c != '\r' ==> {
            let s = json_char(c);
            &&& s.len() == 6
            &&& s.subrange(0, 4) == seq!['\\', 'u', '0', '0']
            &&& crate::strings::hex_digit(s[4]) == Some(c as int / 16)
            &&& crate::strings::hex_digit(s[5]) == Some(c as int % 16)
        },
        forall|i: int| 0 <= i < json_char(c).len() ==> (#[trigger] json_char(c)[i]) as u32 >= 0x20,
{
    if (c as u32) < 0x20 && c != '\n' && c != '\t' && c != '\r' {
        let s = json_char(c);
        let (h, l) = (c as int / 16, c as int % 16);
        assert(s.subrange(0, 4) =~= seq!['\\', 'u', '0', '0']);
        assert(0 <= h < 2 && 0 <= l < 16);
        lemma_hex_digits(h);
        lemma_hex_digits(l);
    }
}

proof fn lemma_hex_digits(d: int)
    requires
        0 <= d < 16,
    ensures
        crate::strings::hex_digit(crate::sink::hex_char(d)) == Some(d),
        crate::sink::hex_char(d) as u32 >= 0x30,
{
    if d < 10 {
        assert(crate::text::digit_char(d) as int == 48 + d);
    }
}

/// A JSON string is its characters, one behind the other, between quotes.
pub proof fn lemma_json_string(t: Seq<char>, c: char)
    ensures
        json_text(t) == seq!['"'] + json_escaped(t) + seq!['"'],
        json_escaped(Seq::empty()) == Seq::<char>::empty(),
        json_escaped(t.push(c)) == json_escaped(t) + json_char(c),
{
    assert(t.push(c).drop_last() =~= t);
}

/// A cell in JSON: integers and truth values as they are, a text as a string, and
/// `null` for a missing cell and for a double that is no number.
pub proof fn lemma_json_cells(d: Datum, log: Log)
    ensures
        d matches Datum::Str(t) ==> json_cell(d, log) == Ok::<Seq<char>, Query>(json_text(t)),
        d is Null ==> json_cell(d, log) == Ok::<Seq<char>, Query>(seq!['n', 'u', 'l', 'l']),
        d matches Datum::F64(x) && !x.is_finite() ==> json_cell(d, log) == Ok::<Seq<char>, Query>(
            seq!['n', 'u', 'l', 'l'],
        ),
        d matches Datum::F64(x) && x.is_finite() ==> json_cell(d, log) == rendered(d, log),
        d matches Datum::I64(n) ==> json_cell(d, log) == Ok::<Seq<char>, Query>(int_text(n as int)),
        d == Datum::Bool(true) ==> json_cell(d, log) == Ok::<Seq<char>, Query>(
            seq!['t', 'r', 'u', 'e'],
        ),
        d == Datum::Bool(false) ==> json_cell(d, log) == Ok::<Seq<char>, Query>(
            seq!['f', 'a', 'l', 's', 'e'],
        ),
        d is DateTime || d is Duration || d is Date || d is Time ==> match rendered(d, log) {
            Ok(t) => json_cell(d, log) == Ok::<Seq<char>, Query>(json_text(t)),
            Err(q) => json_cell(d, log) == Err::<Seq<char>, Query>(q),
        },
{
}

/// The text is a column's name as a string, a colon and the row's cell.
pub open spec fn pairs(b: Batch, row: int, i: int, p: Seq<char>, log: Log) -> bool {
    json_cell(b.columns[i].cells[row], log) matches Ok(t) && p == json_text(b.fields[i].name)
        + seq![':'] + t
}

/// A row in JSON is an object: each column's name as a string, a colon and the cell,
/// in the order of the columns, with commas between, in braces.
pub proof fn lemma_json_row(b: Batch, row: int, parts: Seq<Seq<char>>, log: Log)
    requires
        parts.len() == b.fields.len(),
        forall|i: int| 0 <= i < parts.len() ==> pairs(b, row, i, #[trigger] parts[i], log),
    ensures
        json_object(b, row, log) == Ok::<Seq<char>, Query>(seq!['{'] + marked(parts, ',') + seq!['}']),
{
    lemma_json_members(b, row, b.fields.len(), parts, log);
    assert(parts.take(parts.len() as int) =~= parts);
}

proof fn lemma_json_members(b: Batch, row: int, n: nat, parts: Seq<Seq<char>>, log: Log)
    requires
        n <= parts.len(),
        parts.len() == b.fields.len(),
        forall|i: int| 0 <= i < parts.len() ==> pairs(b, row, i, #[trigger] parts[i], log),
    ensures
        json_members(b, row, n, log) == Ok::<Seq<char>, Query>(marked(parts.take(n as int), ',')),
    decreases n,
{
    if n > 0 {
        lemma_json_members(b, row, (n - 1) as nat, parts, log);
        let up = parts.take(n - 1);
        let p = parts[n - 1];
        assert(up.push(p) =~= parts.take(n as int));
        assert(pairs(b, row, n - 1, p, log));
        let t = json_cell(b.columns[n - 1].cells[row], log)->Ok_0;
        if n > 1 {
            lemma_marked_push(up, p, ',');
            let head = marked(up, ',').push(',');
            assert(head + json_text(b.fields[n - 1].name) + seq![':'] + t =~= head + p);
        } else {
            assert(marked(up, ',') =~= Seq::empty());
            assert(marked(up, ',') + json_text(b.fields[n - 1].name) + seq![':'] + t =~= p);
        }
    } else {
        assert(parts.take(0) =~= Seq::empty());
    }
}

/// JSON lines are the objects of the rows, in order, each on a line.
pub proof fn lemma_jsonl_document(b: Batch, n: nat, lines: Seq<Seq<char>>, log: Log)
    requires
        lines.len() == n,
        forall|r: int|
            0 <= r < n ==> json_object(b, r, log) == Ok::<Seq<char>, Query>(#[trigger] lines[r]),
    ensures
        jsonl_lines(b, n, log) == Ok::<Seq<char>, Query>(ended(lines)),
    decreases n,
{
    if n > 0 {
        let up = lines.drop_last();
        assert forall|r: int| 0 <= r < n - 1 implies json_object(b, r, log) == Ok::<Seq<char>, Query>(
            #[trigger] up[r],
        ) by {
            assert(up[r] == lines[r]);
        }
        lemma_jsonl_document(b, (n - 1) as nat, up, log);
        lemma_ended_push(up, lines[n - 1]);
        assert(up.push(lines[n - 1]) =~= lines);
    }
}

/// A JSON array is the objects of the rows, in order and with commas between, in
/// brackets on one line; without rows it is an empty one.
pub proof fn lemma_json_array(b: Batch, objects: Seq<Seq<char>>, log: Log)
    requires
        objects.len() == b.len,
        forall|r: int|
            0 <= r < b.len ==> json_object(b, r, log) == Ok::<Seq<char>, Query>(#[trigger] objects[r]),
    ensures
        array_of(seq![b], 1, log) matches Ok((s, opened)) && s + array_end(opened) == seq!['[']
            + marked(objects, ',') + seq![']', '\n'],
{
    lemma_array_part(b, b.len, objects, log);
    assert(objects.take(b.len as int) =~= objects);
    let one = seq![b];
    assert(array_of(one, 0, log) == Ok::<(Seq<char>, bool), Query>((Seq::empty(), false)));
    let t = array_part(b, b.len, false, log)->Ok_0;
    let s = Seq::<char>::empty() + t;
    if b.len > 0 {
        assert(s + array_end(true) =~= seq!['['] + marked(objects, ',') + seq![']', '\n']);
    } else {
        assert(s + array_end(false) =~= seq!['['] + marked(objects, ',') + seq![']', '\n']);
    }
}

proof fn lemma_array_part(b: Batch, n: nat, objects: Seq<Seq<char>>, log: Log)
    requires
        objects.len() == b.len,
        n <= b.len,
        forall|r: int|
            0 <= r < b.len ==> json_object(b, r, log) == Ok::<Seq<char>, Query>(#[trigger] objects[r]),
    ensures
        array_part(b, n, false, log) == Ok::<Seq<char>, Query>(
            if n == 0 {
                Seq::empty()
            } else {
                seq!['['] + marked(objects.take(n as int), ',')
            },
        ),
    decreases n,
{
    if n > 0 {
        lemma_array_part(b, (n - 1) as nat, objects, log);
        let up = objects.take(n - 1);
        let o = objects[n - 1];
        assert(up.push(o) =~= objects.take(n as int));
        if n > 1 {
            lemma_marked_push(up, o, ',');
            let head = seq!['['] + marked(up, ',');
            assert(head.push(',') + o =~= seq!['['] + (marked(up, ',').push(',') + o));
        } else {
            assert(objects.take(1) =~= seq![o]);
            assert(Seq::<char>::empty().push('[') + o =~= seq!['['] + o);
        }
    }
}

// ----------------------------------------------------------------- JSON, read

/// The words of JSON, wherever they stand: `true`, `false` and `null` are read as
/// these, and the reading goes on behind them; a quote starts a string.
pub proof fn lemma_json_words(p: Seq<char>, rest: Seq<char>, log: Log)
    ensures
        value_at(p + seq!['t', 'r', 'u', 'e'] + rest, p.len() as int, log) == Ok::<_, Query>(
            Some((Datum::Bool(true), p.len() as int + 4)),
        ),
        value_at(p + seq!['f', 'a', 'l', 's', 'e'] + rest, p.len() as int, log) == Ok::<_, Query>(
            Some((Datum::Bool(false), p.len() as int + 5)),
        ),
        value_at(p + seq!['n', 'u', 'l', 'l'] + rest, p.len() as int, log) == Ok::<_, Query>(
            Some((Datum::Null, p.len() as int + 4)),
        ),
{
    let i = p.len() as int;
    let (t, f, n) = (
        seq!['t', 'r', 'u', 'e'],
        seq!['f', 'a', 'l', 's', 'e'],
        seq!['n', 'u', 'l', 'l'],
    );
    let (x, y, z) = (p + t + rest, p + f + rest, p + n + rest);
    assert(x[i] == 't' && y[i] == 'f' && z[i] == 'n');
    assert(after_ws(x, i) == i && after_ws(y, i) == i && after_ws(z, i) == i);
    assert(x.subrange(i, i + 4) =~= t);
    assert(y.subrange(i, i + 5) =~= f);
    assert(z.subrange(i, i + 4) =~= n);
}

/// White space before a value is passed over.
pub proof fn lemma_json_space(b: Seq<char>, i: int, log: Log)
    requires
        0 <= i < b.len(),
        b[i] == ' ' || b[i] == '\t' || b[i] == '\r' || b[i] == '\n',
    ensures
        value_at(b, i, log) == value_at(b, i + 1, log),
{
    lemma_after_ws(b, i + 1);
    assert(after_ws(b, i) == after_ws(b, i + 1));
}

proof fn lemma_after_ws(b: Seq<char>, i: int)
    ensures
        after_ws(b, i) >= i,
    decreases b.len() - i,
{
    if 0 <= i < b.len() && crate::json::is_ws(b[i]) {
        lemma_after_ws(b, i + 1);
    }
}

/// What stands behind a backslash in a JSON string: `n`, `t`, `r`, `b` and `f` are
/// control characters, a quote, a backslash and a slash are themselves.
pub proof fn lemma_json_escapes(b: Seq<char>, i: int)
    requires
        0 <= i,
        i + 1 < b.len(),
        b[i] == '\\',
    ensures
        ({
            let c = b[i + 1];
            let known = c == 'n' || c == 't' || c == 'r' || c == 'b' || c == 'f' || c == '"' || c
                == '\\' || c == '/';
            let is: char = if c == 'n' {
                '\n'
            } else if c == 't' {
                '\t'
            } else if c == 'r' {
                '\r'
            } else if c == 'b' {
                '\u{8}'
            } else if c == 'f' {
                '\u{c}'
            } else {
                c
            };
            known ==> match string_rest(b, i + 2) {
                Some((s, end)) => string_rest(b, i) == Some((seq![is] + s, end)),
                None => string_rest(b, i) is None,
            }
        }),
{
}

/// A JSON string ends at the first quote that stands behind no backslash, and its
/// other characters are themselves.
pub proof fn lemma_json_string_read(b: Seq<char>, i: int)
    requires
        0 <= i < b.len(),
    ensures
        b[i] == '"' ==> string_rest(b, i) == Some((Seq::<char>::empty(), i + 1)),
        b[i] == '"' ==> string_at(b, i) == string_rest(b, i + 1),
        b[i] != '"' ==> string_at(b, i) is None,
        b[i] != '"' && b[i] != '\\' ==> match string_rest(b, i + 1) {
            Some((s, end)) => string_rest(b, i) == Some((seq![b[i]] + s, end)),
            None => string_rest(b, i) is None,
        },
{
}

// --------------------------------------------------------------------- paths

/// A path's value is that of its last step, taken from the value of the steps before:
/// a field is the first member of that name, an index the element there; without one,
/// and from a value of another shape, it is missing and counted. What is missing
/// stays missing.
pub proof fn lemma_path_last_step(d: Datum, path: Seq<Step>, last: Step)
    requires
        walk(d, path) matches Ok((v, n)) && n == 0,
    ensures
        ({
            let v = walk(d, path)->Ok_0.0;
            let out = walk(d, path.push(last));
            &&& v is Null ==> out == clean(Datum::Null)
            &&& v is Struct && last is Field ==> forall|i: int| #![trigger v->Struct_0[i]]
                0 <= i < v->Struct_0.len() && v->Struct_0[i].0 == last->Field_0 && (forall|k: int|
                    0 <= k < i ==> (#[trigger] v->Struct_0[k]).0 != last->Field_0) ==> out == clean(
                    v->Struct_0[i].1,
                )
            &&& v is Struct && last is Field && (forall|k: int|
                0 <= k < v->Struct_0.len() ==> (#[trigger] v->Struct_0[k]).0 != last->Field_0) ==> out
                == Ok::<(Datum, nat), Query>((Datum::Null, 1))
            &&& v is List && last is Index && 0 <= last->Index_0 < v->List_0.len() ==> out == clean(
                v->List_0[last->Index_0],
            )
            &&& v is List && last is Index && !(0 <= last->Index_0 < v->List_0.len()) ==> out == Ok::<
                (Datum, nat),
                Query,
            >((Datum::Null, 1))
            &&& !(v is Null) && !(v is Struct && last is Field) && !(v is List && last is Index)
                ==> out == Ok::<(Datum, nat), Query>((Datum::Null, 1))
        }),
    decreases path.len(),
{
    let more = path.push(last);
    if d is Null {
    } else if path.len() == 0 {
        assert(more.drop_first() =~= Seq::empty());
        assert(more[0] == last);
        if let (Datum::Struct(fs), Step::Field(name)) = (d, last) {
            lemma_member_first(fs, name, 0);
            if let Some(i) = member(fs, name, 0) {
                assert(walk(fs[i].1, Seq::empty()) == clean(fs[i].1));
                assert(walk(d, more) == clean(fs[i].1));
            }
        }
        if let (Datum::List(v), Step::Index(i)) = (d, last) {
            if 0 <= i < v.len() {
                assert(walk(v[i], Seq::empty()) == clean(v[i]));
                assert(walk(d, more) == clean(v[i]));
            }
        }
    } else {
        assert(more.drop_first() =~= path.drop_first().push(last));
        assert(more[0] == path[0]);
        match (d, path[0]) {
            (Datum::Struct(fs), Step::Field(name)) => {
                if let Some(i) = member(fs, name, 0) {
                    lemma_path_last_step(fs[i].1, path.drop_first(), last);
                }
            },
            (Datum::List(v), Step::Index(i)) => {
                if 0 <= i < v.len() {
                    lemma_path_last_step(v[i], path.drop_first(), last);
                }
            },
            _ => {},
        }
    }
}

proof fn lemma_member_first(fs: Seq<(Seq<char>, Datum)>, name: Seq<char>, from: int)
    requires
        0 <= from <= fs.len(),
    ensures
        match member(fs, name, from) {
            Some(i) => from <= i < fs.len() && fs[i].0 == name && forall|k: int|
                from <= k < i ==> (#[trigger] fs[k]).0 != name,
            None => forall|k: int| from <= k < fs.len() ==> (#[trigger] fs[k]).0 != name,
        },
    decreases fs.len() - from,
{
    if from < fs.len() && fs[from].0 != name {
        lemma_member_first(fs, name, from + 1);
    }
}

/// A path starts at the cell of its root column; without one it is missing and
/// counted.
pub proof fn lemma_path_root(b: Batch, root: Seq<char>, path: Seq<Step>, row: int)
    ensures
        b.column(root) matches Some(c) ==> path_cell(b, root, path, row) == walk(c.cells[row], path),
        b.column(root) is None ==> path_cell(b, root, path, row) == Ok::<(Datum, nat), Query>(
            (Datum::Null, 1),
        ),
        forall|d: Datum| #[trigger] walk(d, Seq::empty()) == clean(d),
{
}

proof fn lemma_first_named(level: Seq<Entry>, name: Seq<char>, i: int)
    ensures
        0 <= i < level.len() && level[i].field.name == name && (forall|k: int|
            0 <= k < i ==> (#[trigger] level[k]).field.name != name) ==> first_named(level, name)
            == Some(level[i]),
        (forall|k: int| 0 <= k < level.len() ==> (#[trigger] level[k]).field.name != name)
            ==> first_named(level, name) is None && named(level, name) == 0,
        0 <= i < level.len() && level[i].field.name == name && (forall|k: int|
            0 <= k < level.len() && k != i ==> (#[trigger] level[k]).field.name != name) ==> named(
            level,
            name,
        ) == 1,
    decreases level.len(),
{
    if level.len() > 0 {
        let up = level.drop_last();
        let n = level.len() - 1;
        lemma_first_named(up, name, i);
        assert forall|k: int| 0 <= k < up.len() implies up[k] == #[trigger] level[k] by {}
        assert(level[n] == level.last());
        if 0 <= i < level.len() && level[i].field.name == name && (forall|k: int|
            0 <= k < i ==> (#[trigger] level[k]).field.name != name) {
            if i < n {
                assert(up[i].field.name == name);
            } else {
                assert forall|k: int| 0 <= k < up.len() implies (#[trigger] up[k]).field.name != name by {
                    assert(level[k].field.name != name);
                }
            }
        }
        if forall|k: int| 0 <= k < level.len() ==> (#[trigger] level[k]).field.name != name {
            assert forall|k: int| 0 <= k < up.len() implies (#[trigger] up[k]).field.name != name by {
                assert(level[k].field.name != name);
            }
            assert(level[n].field.name != name);
        }
        if 0 <= i < level.len() && level[i].field.name == name && (forall|k: int|
            0 <= k < level.len() && k != i ==> (#[trigger] level[k]).field.name != name) {
            if i < n {
                assert(up[i].field.name == name);
                assert(level[n].field.name != name);
                assert forall|k: int| 0 <= k < up.len() && k != i implies (
                #[trigger] up[k]).field.name != name by {
                    assert(level[k].field.name != name);
                }
            } else {
                assert forall|k: int| 0 <= k < up.len() implies (#[trigger] up[k]).field.name != name by {
                    assert(level[k].field.name != name);
                }
            }
        }
    }
}

/// A deep reference takes a column of that name where there is one, before any field
/// inside a column; where the name is one column's only, nothing is counted.
pub proof fn lemma_deep_takes_column(b: Batch, name: Seq<char>, f: int, row: int)
    requires
        0 <= f < b.fields.len(),
        b.fields.len() <= b.columns.len(),
        b.fields[f].name == name,
        forall|k: int| 0 <= k < b.fields.len() && k != f ==> (#[trigger] b.fields[k]).name != name,
    ensures
        deep_cell(b, name, row) == clean(b.columns[f].cells[row]),
{
    let level = top_level(b.fields);
    assert(level[f].field.name == name);
    assert forall|k: int| 0 <= k < level.len() && k != f implies (#[trigger] level[k]).field.name
        != name by {
        assert(level[k].field == b.fields[k]);
        assert(b.fields[k].name != name);
    }
    lemma_first_named(level, name, f);
    assert(deep_find(level, name) == Some((level[f], false)));
    lemma_index_in(b.fields, name);
}

/// A name that is found at no depth is missing and counted.
pub proof fn lemma_deep_of_flat_columns(b: Batch, name: Seq<char>, row: int)
    requires
        forall|k: int|
            0 <= k < b.fields.len() ==> (#[trigger] b.fields[k]).name != name && b.fields[k].nested
                == Shape::Flat,
    ensures
        deep_cell(b, name, row) == Ok::<(Datum, nat), Query>((Datum::Null, 1)),
{
    let level = top_level(b.fields);
    assert forall|k: int| 0 <= k < level.len() implies (#[trigger] level[k]).field.name != name
        && level[k].field.nested == Shape::Flat by {
        assert(level[k].field == b.fields[k]);
        assert(b.fields[k].name != name);
    }
    lemma_first_named(level, name, 0);
    lemma_flat_level(level);
    assert(deep_find(next_level(level), name) is None);
    assert(deep_find(level, name) is None);
}

proof fn lemma_flat_level(level: Seq<Entry>)
    requires
        forall|k: int| 0 <= k < level.len() ==> (#[trigger] level[k]).field.nested == Shape::Flat,
    ensures
        next_level(level).len() == 0,
    decreases level.len(),
{
    if level.len() > 0 {
        let up = level.drop_last();
        assert forall|k: int| 0 <= k < up.len() implies (#[trigger] up[k]).field.nested == Shape::Flat by {
            assert(up[k] == level[k]);
        }
        lemma_flat_level(up);
        assert(level[level.len() - 1].field.nested == Shape::Flat);
    }
}

} // verus!
