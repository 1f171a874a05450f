//! The text that sinks write: CSV lines, JSON objects and JSON arrays.
use vstd::prelude::*;
use vstd::utf8::encode_utf8;
use crate::cast::{agree_text, render, rendered};
use crate::chunk::{batches, Batch, Chunk};
use crate::compare::agree;
use crate::host::{Answers, Ask, Log, Query};
use crate::text::{chars_of, digit_char, lemma_ascii_bytes, owned};
use crate::value::{Datum, Value};

verus! {

// ------------------------------------------------------------------- csv

/// Does a text hold the separator? One of a byte's size is looked for among the
/// bytes of the text.
pub open spec fn holds_separator(t: Seq<char>, sep: char) -> bool {
    if sep as u32 <= 0xff {
        encode_utf8(t).contains(sep as u8)
    } else {
        t.contains(sep)
    }
}

/// A separator of ASCII is held where the character stands in the text.
pub proof fn lemma_ascii_separator(t: Seq<char>, sep: char)
    requires
        sep as u32 <= 0x7f,
    ensures
        holds_separator(t, sep) == t.contains(sep),
{
    lemma_ascii_bytes(t, sep);
}

/// Does a text need quotes in a line with this separator?
pub open spec fn needs_quotes(t: Seq<char>, sep: char) -> bool {
    holds_separator(t, sep) || t.contains('"') || t.contains('\n')
}

/// A text with every quote doubled.
pub open spec fn doubled(t: Seq<char>) -> Seq<char>
    decreases t.len(),
{
    if t.len() == 0 {
        Seq::empty()
    } else if t.last() == '"' {
        doubled(t.drop_last()).push('"').push('"')
    } else {
        doubled(t.drop_last()).push(t.last())
    }
}

/// A text as a CSV cell.
pub open spec fn csv_text(t: Seq<char>, sep: char) -> Seq<char> {
    if needs_quotes(t, sep) {
        seq!['"'] + doubled(t) + seq!['"']
    } else {
        t
    }
}

/// A cell of a CSV line. Only texts can hold what needs quotes.
pub open spec fn csv_cell(d: Datum, sep: char, log: Log) -> Result<Seq<char>, Query> {
    match d {
        Datum::Str(t) => Ok(csv_text(t, sep)),
        _ => rendered(d, log),
    }
}

/// A quote in a text between quotes stands for itself twice; read back in pairs.
pub open spec fn undoubled(t: Seq<char>) -> Seq<char>
    decreases t.len(),
{
    if t.len() == 0 {
        Seq::empty()
    } else if t.last() == '"' && t.len() >= 2 && t[t.len() - 2] == '"' {
        undoubled(t.drop_last().drop_last()).push('"')
    } else {
        undoubled(t.drop_last()).push(t.last())
    }
}

/// A quoted cell loses nothing: with the quotes read back in pairs it is the
/// text that was written.
pub proof fn lemma_quotes_read_back(t: Seq<char>)
    ensures
        undoubled(doubled(t)) == t,
    decreases t.len(),
{
    if t.len() > 0 {
        let front = t.drop_last();
        lemma_quotes_read_back(front);
        let d = doubled(front);
        if t.last() == '"' {
            let w = d.push('"').push('"');
            assert(w.drop_last().drop_last() =~= d);
            assert(w[w.len() - 2] == '"');
        } else {
            assert(d.push(t.last()).drop_last() =~= d);
        }
        assert(front.push(t.last()) =~= t);
    }
}

fn has_separator(t: &str, sep: char) -> (r: bool)
    ensures
        r == holds_separator(t@, sep),
{
    if sep as u32 > 0xff {
        return has_char(t, sep);
    }
    let sought: u8 = sep as u8;
    let bytes: &[u8] = t.as_bytes();
    for i in 0..bytes.len()
        invariant
            bytes@ == encode_utf8(t@),
            sought == sep as u8,
            sep as u32 <= 0xff,
            forall|k: int| 0 <= k < i ==> bytes@[k] != sought,
    {
        if bytes[i] == sought {
            assert(bytes@[i as int] == sought);
            return true;
        }
    }
    false
}

fn has_char(t: &str, c: char) -> (r: bool)
    ensures
        r == t@.contains(c),
{
    let v: Vec<char> = chars_of(t);
    for i in 0..v.len()
        invariant
            v@ == t@,
            forall|k: int| 0 <= k < i ==> v@[k] != c,
    {
        if v[i] == c {
            assert(v@[i as int] == c);
            return true;
        }
    }
    false
}

fn quoted(t: &str, sep: char) -> (r: String)
    ensures
        r@ == csv_text(t@, sep),
{
    let v: Vec<char> = chars_of(t);
    let quotes: bool = has_separator(t, sep) || has_char(t, '"') || has_char(t, '\n');
    if !quotes {
        return owned(t);
    }
    let mut out: String = String::new();
    out.push('"');
    for i in 0..v.len()
        invariant
            v@ == t@,
            out@ == seq!['"'] + doubled(v@.take(i as int)),
    {
        proof {
            assert(v@.take(i + 1).drop_last() =~= v@.take(i as int));
        }
        let ghost d = doubled(v@.take(i as int));
        if v[i] == '"' {
            out.push('"');
            out.push('"');
            assert(out@ =~= seq!['"'] + d.push('"').push('"'));
        } else {
            out.push(v[i]);
            assert(out@ =~= seq!['"'] + d.push(v@[i as int]));
        }
    }
    assert(v@.take(v@.len() as int) =~= v@);
    out.push('"');
    assert(out@ =~= seq!['"'] + doubled(t@) + seq!['"']);
    out
}

/// Appends a cell of a CSV line (see [`csv_cell`]).
pub fn write_cell(line: &mut String, v: &Value, sep: char, host: &Answers) -> (r: Result<(), Ask>)
    ensures
        match (r, csv_cell(v@, sep, host@)) {
            (Ok(_), Ok(t)) => final(line)@ == old(line)@ + t,
            (Err(a), Err(q)) => a@ == q && final(line)@ == old(line)@,
            _ => false,
        },
{
    let t: String = match v {
        Value::Str(s) => quoted(s.as_str(), sep),
        _ => match render(v, host) {
            Err(a) => {
                return Err(a);
            },
            Ok(t) => t,
        },
    };
    line.push_str(t.as_str());
    Ok(())
}

/// The first `n` cells of a row, separated.
pub open spec fn csv_cells(b: Batch, row: int, n: nat, sep: char, log: Log) -> Result<Seq<char>, Query>
    decreases n,
{
    if n == 0 {
        Ok(Seq::empty())
    } else {
        match csv_cells(b, row, (n - 1) as nat, sep, log) {
            Err(q) => Err(q),
            Ok(s) => match csv_cell(b.cell(row, n - 1), sep, log) {
                Err(q) => Err(q),
                Ok(t) => Ok(
                    if n == 1 {
                        t
                    } else {
                        s.push(sep) + t
                    },
                ),
            },
        }
    }
}

/// The lines of the first `n` rows, each ended.
pub open spec fn csv_lines(b: Batch, n: nat, sep: char, log: Log) -> Result<Seq<char>, Query>
    decreases n,
{
    if n == 0 {
        Ok(Seq::empty())
    } else {
        match csv_lines(b, (n - 1) as nat, sep, log) {
            Err(q) => Err(q),
            Ok(s) => match csv_cells(b, n - 1, b.columns.len(), sep, log) {
                Err(q) => Err(q),
                Ok(t) => Ok((s + t).push('\n')),
            },
        }
    }
}

/// The first `n` names of a chunk, separated.
pub open spec fn csv_names(b: Batch, n: nat, sep: char) -> Seq<char>
    decreases n,
{
    if n == 0 {
        Seq::empty()
    } else if n == 1 {
        b.fields[0].name
    } else {
        csv_names(b, (n - 1) as nat, sep).push(sep) + b.fields[n - 1].name
    }
}

/// The text of a chunk: the header where it is due, and a line for each row.
pub open spec fn csv_chunk(b: Batch, header: bool, sep: char, log: Log) -> Result<Seq<char>, Query> {
    match csv_lines(b, b.len, sep, log) {
        Err(q) => Err(q),
        Ok(s) => Ok(
            if header {
                csv_names(b, b.fields.len(), sep).push('\n') + s
            } else {
                s
            },
        ),
    }
}

proof fn lemma_csv_cells_stop(b: Batch, row: int, n: nat, m: nat, sep: char, log: Log)
    requires
        csv_cells(b, row, n, sep, log) is Err,
        n <= m,
    ensures
        csv_cells(b, row, m, sep, log) == csv_cells(b, row, n, sep, log),
    decreases m,
{
    if n < m {
        lemma_csv_cells_stop(b, row, n, (m - 1) as nat, sep, log);
    }
}

proof fn lemma_csv_lines_stop(b: Batch, n: nat, m: nat, sep: char, log: Log)
    requires
        csv_lines(b, n, sep, log) is Err,
        n <= m,
    ensures
        csv_lines(b, m, sep, log) == csv_lines(b, n, sep, log),
    decreases m,
{
    if n < m {
        lemma_csv_lines_stop(b, n, (m - 1) as nat, sep, log);
    }
}

fn csv_row(chunk: &Chunk, row: usize, sep: char, host: &Answers) -> (r: Result<String, Ask>)
    requires
        chunk@.wf(),
        row < chunk.len,
    ensures
        agree_text(r, csv_cells(chunk@, row as int, chunk@.columns.len(), sep, host@)),
{
    let mut line: String = String::new();
    assert(line@ =~= Seq::empty());
    for c in 0..chunk.columns.len()
        invariant
            chunk@.wf(),
            row < chunk.len,
            csv_cells(chunk@, row as int, c as nat, sep, host@) == Ok::<Seq<char>, Query>(line@),
    {
        let ghost before = line@;
        if c > 0 {
            line.push(sep);
        }
        let v: Value = chunk.value(row, c);
        match write_cell(&mut line, &v, sep, host) {
            Err(a) => {
                proof {
                    lemma_csv_cells_stop(
                        chunk@,
                        row as int,
                        (c + 1) as nat,
                        chunk@.columns.len(),
                        sep,
                        host@,
                    );
                }
                return Err(a);
            },
            Ok(_) => {},
        }
        proof {
            let t = csv_cell(chunk@.cell(row as int, c as int), sep, host@)->Ok_0;
            if c == 0 {
                assert(line@ =~= t);
            } else {
                assert(line@ =~= before.push(sep) + t);
            }
        }
    }
    Ok(line)
}

/// The header line of a chunk, without its end.
pub fn csv_header(chunk: &Chunk, sep: char) -> (r: String)
    ensures
        r@ == csv_names(chunk@, chunk@.fields.len(), sep),
{
    let mut line: String = String::new();
    assert(line@ =~= Seq::empty());
    for c in 0..chunk.fields.len()
        invariant
            line@ == csv_names(chunk@, c as nat, sep),
    {
        if c > 0 {
            line.push(sep);
        }
        assert(chunk@.fields[c as int].name == chunk.fields@[c as int].name@);
        let ghost before = line@;
        line.push_str(chunk.fields[c].name.as_str());
        assert(line@ =~= csv_names(chunk@, (c + 1) as nat, sep));
    }
    line
}

/// A streaming CSV sink: the header goes before the first chunk.
pub struct SinkCsv {
    pub delim: char,
    pub wrote_header: bool,
    pub failed: bool,
}

impl SinkCsv {
    /// Nothing written yet.
    pub fn new(delim: char) -> (r: SinkCsv)
        ensures
            r.delim == delim,
            !r.wrote_header,
            !r.failed,
    {
        SinkCsv { delim, wrote_header: false, failed: false }
    }

    /// The text that a chunk adds; nothing once writing has failed.
    pub open spec fn adds(&self, b: Batch, log: Log) -> Result<Seq<char>, Query> {
        if self.failed {
            Ok(Seq::empty())
        } else {
            csv_chunk(b, !self.wrote_header, self.delim, log)
        }
    }

    /// The text that a chunk adds (see [`SinkCsv::adds`]).
    pub fn chunk_text(&self, chunk: &Chunk, host: &Answers) -> (r: Result<String, Ask>)
        requires
            chunk@.wf(),
        ensures
            agree_text(r, self.adds(chunk@, host@)),
    {
        let mut body: String = String::new();
        assert(body@ =~= Seq::empty());
        if self.failed {
            return Ok(body);
        }
        for row in 0..chunk.len
            invariant
                chunk@.wf(),
                !self.failed,
                csv_lines(chunk@, row as nat, self.delim, host@) == Ok::<Seq<char>, Query>(body@),
        {
            match csv_row(chunk, row, self.delim, host) {
                Err(a) => {
                    proof {
                        lemma_csv_lines_stop(
                            chunk@,
                            (row + 1) as nat,
                            chunk@.len,
                            self.delim,
                            host@,
                        );
                    }
                    return Err(a);
                },
                Ok(line) => {
                    body.push_str(line.as_str());
                    body.push('\n');
                },
            }
        }
        if self.wrote_header {
            return Ok(body);
        }
        let mut out: String = csv_header(chunk, self.delim);
        out.push('\n');
        out.push_str(body.as_str());
        Ok(out)
    }

    /// Notes whether a chunk's text was written.
    pub fn wrote(&mut self, ok: bool)
        ensures
            final(self).delim == old(self).delim,
            final(self).wrote_header == (old(self).wrote_header || ok),
            final(self).failed == (old(self).failed || !ok),
    {
        if ok {
            self.wrote_header = true;
        } else {
            self.failed = true;
        }
    }
}

// ------------------------------------------------------------------ json

/// A hexadecimal digit.
pub open spec fn hex_char(d: int) -> char {
    if d < 10 {
        digit_char(d)
    } else if d == 10 {
        'a'
    } else if d == 11 {
        'b'
    } else if d == 12 {
        'c'
    } else if d == 13 {
        'd'
    } else if d == 14 {
        'e'
    } else {
        'f'
    }
}

fn hex_digit(d: u32) -> (r: char)
    requires
        d < 16,
    ensures
        r == hex_char(d as int),
{
    match d {
        0 => '0',
        1 => '1',
        2 => '2',
        3 => '3',
        4 => '4',
        5 => '5',
        6 => '6',
        7 => '7',
        8 => '8',
        9 => '9',
        10 => 'a',
        11 => 'b',
        12 => 'c',
        13 => 'd',
        14 => 'e',
        _ => 'f',
    }
}

/// A character inside a JSON string.
pub open spec fn json_char(c: char) -> Seq<char> {
    if c == '"' {
        seq!['\\', '"']
    } else if c == '\\' {
        seq!['\\', '\\']
    } else if c == '\n' {
        seq!['\\', 'n']
    } else if c == '\t' {
        seq!['\\', 't']
    } else if c == '\r' {
        seq!['\\', 'r']
    } else if (c as int) < 0x20 {
        seq!['\\', 'u', '0', '0', hex_char(c as int / 16), hex_char(c as int % 16)]
    } else {
        seq![c]
    }
}

/// The characters of a text inside a JSON string.
pub open spec fn json_escaped(t: Seq<char>) -> Seq<char>
    decreases t.len(),
{
    if t.len() == 0 {
        Seq::empty()
    } else {
        json_escaped(t.drop_last()) + json_char(t.last())
    }
}

/// A text as a JSON string.
pub open spec fn json_text(t: Seq<char>) -> Seq<char> {
    seq!['"'] + json_escaped(t) + seq!['"']
}

fn push_json_char(out: &mut String, c: char)
    ensures
        final(out)@ == old(out)@ + json_char(c),
{
    let ghost before = out@;
    if c == '"' {
        out.push('\\');
        out.push('"');
    } else if c == '\\' {
        out.push('\\');
        out.push('\\');
    } else if c == '\n' {
        out.push('\\');
        out.push('n');
    } else if c == '\t' {
        out.push('\\');
        out.push('t');
    } else if c == '\r' {
        out.push('\\');
        out.push('r');
    } else if (c as u32) < 0x20 {
        let n: u32 = c as u32;
        out.push('\\');
        out.push('u');
        out.push('0');
        out.push('0');
        out.push(hex_digit(n / 16));
        out.push(hex_digit(n % 16));
    } else {
        out.push(c);
    }
    assert(out@ =~= before + json_char(c));
}

/// Appends a text as a JSON string (see [`json_text`]).
pub fn json_string(out: &mut String, t: &str)
    ensures
        final(out)@ == old(out)@ + json_text(t@),
{
    let ghost before = out@;
    let v: Vec<char> = chars_of(t);
    out.push('"');
    for i in 0..v.len()
        invariant
            v@ == t@,
            out@ == before.push('"') + json_escaped(v@.take(i as int)),
    {
        proof {
            assert(v@.take(i + 1).drop_last() =~= v@.take(i as int));
        }
        push_json_char(out, v[i]);
        assert(out@ =~= before.push('"') + json_escaped(v@.take(i + 1)));
    }
    assert(v@.take(v@.len() as int) =~= v@);
    out.push('"');
    assert(out@ =~= before + json_text(t@));
}

/// A cell as a JSON value: numbers and booleans as they are, what has no literal
/// form as a string, and null for a missing cell or a number that JSON has not.
pub open spec fn json_cell(d: Datum, log: Log) -> Result<Seq<char>, Query> {
    match d {
        Datum::Null => Ok(seq!['n', 'u', 'l', 'l']),
        Datum::I64(_) => rendered(d, log),
        Datum::Bool(_) => rendered(d, log),
        Datum::Dec(_) => rendered(d, log),
        Datum::F64(x) => if x.is_finite() {
            rendered(d, log)
        } else {
            Ok(seq!['n', 'u', 'l', 'l'])
        },
        Datum::Struct(_) => rendered(d, log),
        Datum::List(_) => rendered(d, log),
        _ => match rendered(d, log) {
            Err(q) => Err(q),
            Ok(t) => Ok(json_text(t)),
        },
    }
}

/// Appends a cell as a JSON value (see [`json_cell`]).
pub fn write_json_cell(out: &mut String, v: &Value, host: &Answers) -> (r: Result<(), Ask>)
    ensures
        match (r, json_cell(v@, host@)) {
            (Ok(_), Ok(t)) => final(out)@ == old(out)@ + t,
            (Err(a), Err(q)) => a@ == q && final(out)@ == old(out)@,
            _ => false,
        },
{
    proof {
        reveal_strlit("null");
        assert("null"@ =~= seq!['n', 'u', 'l', 'l']);
    }
    match v {
        Value::Null => {
            out.push_str("null");
            return Ok(());
        },
        Value::F64(x) => {
            if !x.finite() {
                out.push_str("null");
                return Ok(());
            }
        },
        _ => {},
    }
    let t: String = match render(v, host) {
        Err(a) => {
            return Err(a);
        },
        Ok(t) => t,
    };
    match v {
        Value::I64(_)
        | Value::Bool(_)
        | Value::Dec(_)
        | Value::F64(_)
        | Value::Struct(_)
        | Value::List(_) => {
            out.push_str(t.as_str());
        },
        _ => {
            json_string(out, t.as_str());
        },
    }
    Ok(())
}

/// The first `n` members of a row's object.
pub open spec fn json_members(b: Batch, row: int, n: nat, log: Log) -> Result<Seq<char>, Query>
    decreases n,
{
    if n == 0 {
        Ok(Seq::empty())
    } else {
        match json_members(b, row, (n - 1) as nat, log) {
            Err(q) => Err(q),
            Ok(s) => match json_cell(b.cell(row, n - 1), log) {
                Err(q) => Err(q),
                Ok(t) => Ok(
                    (if n == 1 {
                        s
                    } else {
                        s.push(',')
                    }) + json_text(b.fields[n - 1].name) + seq![':'] + t,
                ),
            },
        }
    }
}

/// A row as a JSON object, its members in the order of the columns.
pub open spec fn json_object(b: Batch, row: int, log: Log) -> Result<Seq<char>, Query> {
    match json_members(b, row, b.fields.len(), log) {
        Err(q) => Err(q),
        Ok(s) => Ok(seq!['{'] + s + seq!['}']),
    }
}

proof fn lemma_members_stop(b: Batch, row: int, n: nat, m: nat, log: Log)
    requires
        json_members(b, row, n, log) is Err,
        n <= m,
    ensures
        json_members(b, row, m, log) == json_members(b, row, n, log),
    decreases m,
{
    if n < m {
        lemma_members_stop(b, row, n, (m - 1) as nat, log);
    }
}

/// A row as a JSON object (see [`json_object`]).
pub fn json_object_row(chunk: &Chunk, row: usize, host: &Answers) -> (r: Result<String, Ask>)
    requires
        chunk@.wf(),
        row < chunk.len,
    ensures
        agree_text(r, json_object(chunk@, row as int, host@)),
{
    let mut s: String = String::new();
    assert(s@ =~= Seq::empty());
    for c in 0..chunk.fields.len()
        invariant
            chunk@.wf(),
            row < chunk.len,
            json_members(chunk@, row as int, c as nat, host@) == Ok::<Seq<char>, Query>(s@),
    {
        let ghost before = s@;
        let v: Value = chunk.value(row, c);
        if c > 0 {
            s.push(',');
        }
        assert(chunk@.fields[c as int].name == chunk.fields@[c as int].name@);
        json_string(&mut s, chunk.fields[c].name.as_str());
        s.push(':');
        let ghost mid = s@;
        match write_json_cell(&mut s, &v, host) {
            Err(a) => {
                proof {
                    lemma_members_stop(
                        chunk@,
                        row as int,
                        (c + 1) as nat,
                        chunk@.fields.len(),
                        host@,
                    );
                }
                return Err(a);
            },
            Ok(_) => {},
        }
        proof {
            let t = json_cell(chunk@.cell(row as int, c as int), host@)->Ok_0;
            let head = if c == 0 {
                before
            } else {
                before.push(',')
            };
            assert(mid =~= head + json_text(chunk@.fields[c as int].name) + seq![':']);
        }
    }
    let mut out: String = String::new();
    out.push('{');
    out.push_str(s.as_str());
    out.push('}');
    assert(out@ =~= seq!['{'] + s@ + seq!['}']);
    Ok(out)
}

/// The objects of the first `n` rows, one on each line.
pub open spec fn jsonl_lines(b: Batch, n: nat, log: Log) -> Result<Seq<char>, Query>
    decreases n,
{
    if n == 0 {
        Ok(Seq::empty())
    } else {
        match jsonl_lines(b, (n - 1) as nat, log) {
            Err(q) => Err(q),
            Ok(s) => match json_object(b, n - 1, log) {
                Err(q) => Err(q),
                Ok(t) => Ok((s + t).push('\n')),
            },
        }
    }
}

proof fn lemma_jsonl_stop(b: Batch, n: nat, m: nat, log: Log)
    requires
        jsonl_lines(b, n, log) is Err,
        n <= m,
    ensures
        jsonl_lines(b, m, log) == jsonl_lines(b, n, log),
    decreases m,
{
    if n < m {
        lemma_jsonl_stop(b, n, (m - 1) as nat, log);
    }
}

/// The text of a chunk as JSON Lines.
pub fn jsonl_text(chunk: &Chunk, host: &Answers) -> (r: Result<String, Ask>)
    requires
        chunk@.wf(),
    ensures
        agree_text(r, jsonl_lines(chunk@, chunk@.len, host@)),
{
    let mut out: String = String::new();
    assert(out@ =~= Seq::empty());
    for row in 0..chunk.len
        invariant
            chunk@.wf(),
            jsonl_lines(chunk@, row as nat, host@) == Ok::<Seq<char>, Query>(out@),
    {
        match json_object_row(chunk, row, host) {
            Err(a) => {
                proof {
                    lemma_jsonl_stop(chunk@, (row + 1) as nat, chunk@.len, host@);
                }
                return Err(a);
            },
            Ok(t) => {
                out.push_str(t.as_str());
                out.push('\n');
            },
        }
    }
    Ok(out)
}

/// The first `n` rows as members of an array, after what was written: the array
/// is opened before its first row, and a comma goes before every other.
pub open spec fn array_part(b: Batch, n: nat, opened: bool, log: Log) -> Result<Seq<char>, Query>
    decreases n,
{
    if n == 0 {
        Ok(Seq::empty())
    } else {
        match array_part(b, (n - 1) as nat, opened, log) {
            Err(q) => Err(q),
            Ok(s) => match json_object(b, n - 1, log) {
                Err(q) => Err(q),
                Ok(t) => Ok(
                    s.push(
                        if opened || n > 1 {
                            ','
                        } else {
                            '['
                        },
                    ) + t,
                ),
            },
        }
    }
}

/// What closes the array.
pub open spec fn array_end(opened: bool) -> Seq<char> {
    if opened {
        seq![']', '\n']
    } else {
        seq!['[', ']', '\n']
    }
}

proof fn lemma_array_stop(b: Batch, n: nat, m: nat, opened: bool, log: Log)
    requires
        array_part(b, n, opened, log) is Err,
        n <= m,
    ensures
        array_part(b, m, opened, log) == array_part(b, n, opened, log),
    decreases m,
{
    if n < m {
        lemma_array_stop(b, n, (m - 1) as nat, opened, log);
    }
}

/// A streaming sink for one JSON array.
pub struct SinkJson {
    pub opened: bool,
    pub failed: bool,
}

impl SinkJson {
    /// Nothing written yet.
    pub fn new() -> (r: SinkJson)
        ensures
            !r.opened,
            !r.failed,
    {
        SinkJson { opened: false, failed: false }
    }

    /// The text that a chunk adds.
    pub fn chunk_text(&self, chunk: &Chunk, host: &Answers) -> (r: Result<String, Ask>)
        requires
            chunk@.wf(),
        ensures
            agree_text(r, array_part(chunk@, chunk@.len, self.opened, host@)),
    {
        let mut out: String = String::new();
        assert(out@ =~= Seq::empty());
        for row in 0..chunk.len
            invariant
                chunk@.wf(),
                array_part(chunk@, row as nat, self.opened, host@) == Ok::<Seq<char>, Query>(out@),
        {
            match json_object_row(chunk, row, host) {
                Err(a) => {
                    proof {
                        lemma_array_stop(
                            chunk@,
                            (row + 1) as nat,
                            chunk@.len,
                            self.opened,
                            host@,
                        );
                    }
                    return Err(a);
                },
                Ok(t) => {
                    out.push(
                        if self.opened || row > 0 {
                            ','
                        } else {
                            '['
                        },
                    );
                    out.push_str(t.as_str());
                },
            }
        }
        Ok(out)
    }

    /// Notes whether the text of a chunk of `rows` rows was written.
    pub fn wrote(&mut self, rows: usize, ok: bool)
        ensures
            final(self).opened == (old(self).opened || (ok && rows > 0)),
            final(self).failed == (old(self).failed || !ok),
    {
        if ok {
            if rows > 0 {
                self.opened = true;
            }
        } else {
            self.failed = true;
        }
    }

    /// What closes the array; an array without rows is opened first.
    pub fn end_text(&self) -> (r: String)
        ensures
            r@ == array_end(self.opened),
    {
        proof {
            reveal_strlit("]\n");
            reveal_strlit("[]\n");
            assert("]\n"@ =~= seq![']', '\n']);
            assert("[]\n"@ =~= seq!['[', ']', '\n']);
        }
        if self.opened {
            owned("]\n")
        } else {
            owned("[]\n")
        }
    }
}

/// All rows of the first `n` chunks as one array, not yet closed.
pub open spec fn array_of(bs: Seq<Batch>, n: nat, log: Log) -> Result<(Seq<char>, bool), Query>
    decreases n,
{
    if n == 0 {
        Ok((Seq::empty(), false))
    } else {
        match array_of(bs, (n - 1) as nat, log) {
            Err(q) => Err(q),
            Ok((s, opened)) => match array_part(bs[n - 1], bs[n - 1].len, opened, log) {
                Err(q) => Err(q),
                Ok(t) => Ok((s + t, opened || bs[n - 1].len > 0)),
            },
        }
    }
}

proof fn lemma_array_of_stop(bs: Seq<Batch>, n: nat, m: nat, log: Log)
    requires
        array_of(bs, n, log) is Err,
        n <= m,
    ensures
        array_of(bs, m, log) == array_of(bs, n, log),
    decreases m,
{
    if n < m {
        lemma_array_of_stop(bs, n, (m - 1) as nat, log);
    }
}

/// All chunks as one JSON array: what a streaming sink writes of them in turn,
/// and its end.
pub fn json_array(chunks: &Vec<Chunk>, host: &Answers) -> (r: Result<String, Ask>)
    requires
        crate::rows::all_wf(batches(chunks@)),
    ensures
        agree(
            r,
            array_of(batches(chunks@), chunks@.len(), host@),
            |a: String, b: (Seq<char>, bool)| a@ == b.0 + array_end(b.1),
        ),
{
    let ghost bs = batches(chunks@);
    let mut sink: SinkJson = SinkJson::new();
    let mut out: String = String::new();
    assert(out@ =~= Seq::empty());
    for n in 0..chunks.len()
        invariant
            bs == batches(chunks@),
            crate::rows::all_wf(bs),
            array_of(bs, n as nat, host@) == Ok::<(Seq<char>, bool), Query>((out@, sink.opened)),
    {
        assert(bs[n as int] == chunks@[n as int]@);
        assert(bs[n as int].wf());
        match sink.chunk_text(&chunks[n], host) {
            Err(a) => {
                proof {
                    lemma_array_of_stop(bs, (n + 1) as nat, chunks@.len(), host@);
                }
                return Err(a);
            },
            Ok(t) => {
                out.push_str(t.as_str());
                sink.wrote(chunks[n].len, true);
            },
        }
    }
    out.push_str(sink.end_text().as_str());
    Ok(out)
}

/// The warning that a sink could not be written.
pub fn write_failure(path: &str, cause: &str) -> (r: String)
    ensures
        r@ == "cannot write '"@ + path@ + "': "@ + cause@,
{
    let mut m: String = owned("cannot write '");
    m.push_str(path);
    m.push_str("': ");
    m.push_str(cause);
    m
}

} // verus!
