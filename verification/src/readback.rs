//! What is written as JSON is read back as it was.
use vstd::prelude::*;
use crate::cast::rendered;
use crate::chunk::Batch;
use crate::host::{Log, Query};
use crate::json::{after_ws, lemma_string_reads_back, members, number_run, object_in, string_at, value_at, word_at};
use crate::sink::{hex_char, json_cell, json_char, json_escaped, json_members, json_object, json_text};
use crate::strings::{all_digits, digits_value, is_digit, parsed_i64};
use crate::text::{digit_char, int_text, nat_text};
use crate::value::Datum;

verus! {

/// A cell that is written without the host: a text, an integer, a boolean or a
/// missing value.
pub open spec fn self_written(d: Datum) -> bool {
    d is Str || d is I64 || d is Bool || d is Null
}

/// What such a cell is written as.
spec fn cell_text(d: Datum) -> Seq<char> {
    match d {
        Datum::Str(t) => json_text(t),
        Datum::I64(n) => int_text(n as int),
        Datum::Bool(b) => if b {
            seq!['t', 'r', 'u', 'e']
        } else {
            seq!['f', 'a', 'l', 's', 'e']
        },
        _ => seq!['n', 'u', 'l', 'l'],
    }
}

// ------------------------------------------------------------------ integers

/// A numeral is made of digits and writes its number.
pub proof fn lemma_digits_of(n: nat)
    ensures
        all_digits(nat_text(n)),
        digits_value(nat_text(n)) == n,
        nat_text(n).len() >= 1,
    decreases n,
{
    let s = nat_text(n);
    if n >= 10 {
        lemma_digits_of(n / 10);
        let d = (n % 10) as int;
        assert(s.drop_last() =~= nat_text(n / 10));
        assert(s.last() == digit_char(d));
        assert(digit_char(d) as int == 48 + d);
    } else {
        assert(digit_char(n as int) as int == 48 + n);
        assert(s.drop_last() =~= Seq::empty());
        assert(digits_value(s.drop_last()) == 0);
    }
}

/// The numeral of an integer is read as that integer.
pub proof fn lemma_int_parses(n: i64)
    ensures
        parsed_i64(int_text(n as int)) == Some(n),
{
    let s = int_text(n as int);
    if n < 0 {
        lemma_digits_of((-n) as nat);
        assert(s.drop_first() =~= nat_text((-n) as nat));
        assert(s[0] == '-');
    } else {
        lemma_digits_of(n as nat);
        assert(is_digit(s[0]));
    }
}

/// A run of digits ends where something else follows.
proof fn lemma_run(b: Seq<char>, i: int, end: int)
    requires
        0 <= i <= end < b.len(),
        forall|k: int| i <= k < end ==> is_digit(#[trigger] b[k]),
        b[end] == ',' || b[end] == '}',
    ensures
        number_run(b, i) == (end, false),
    decreases end - i,
{
    if i < end {
        assert(is_digit(b[i]));
        lemma_run(b, i + 1, end);
    }
}

proof fn lemma_int_reads_back(p: Seq<char>, n: i64, rest: Seq<char>, log: Log)
    requires
        rest.len() > 0,
        rest[0] == ',' || rest[0] == '}',
    ensures
        value_at(p + int_text(n as int) + rest, p.len() as int, log) == Ok::<_, Query>(
            Some((Datum::I64(n), (p.len() + int_text(n as int).len()) as int)),
        ),
{
    let t = int_text(n as int);
    let b = p + t + rest;
    let i = p.len() as int;
    let end = i + t.len();
    lemma_int_parses(n);
    let size: nat = if n < 0 {
        (-n) as nat
    } else {
        n as nat
    };
    let from: int = if n < 0 {
        i + 1
    } else {
        i
    };
    lemma_digits_of(size);
    let ds = nat_text(size);
    assert forall|k: int| from <= k < end implies is_digit(#[trigger] b[k]) by {
        assert(b[k] == ds[k - from]);
    }
    assert(b[end] == rest[0]);
    lemma_run(b, from, end);
    assert(b[i] == t[0]);
    assert(b.subrange(i, end) =~= t);
    if n < 0 {
        assert(t[0] == '-');
        assert(t.len() >= 2);
    } else {
        assert(is_digit(t[0]));
    }
    assert(after_ws(b, i) == i);
    assert(t != seq!['-']);
}

// --------------------------------------------------------------------- cells

proof fn lemma_text_reads_back(p: Seq<char>, t: Seq<char>, rest: Seq<char>)
    ensures
        string_at(p + json_text(t) + rest, p.len() as int) == Some(
            (t, (p.len() + json_text(t).len()) as int),
        ),
{
    let q = p.push('"');
    lemma_string_reads_back(q, t, rest);
    let b = p + json_text(t) + rest;
    assert(b =~= q + json_escaped(t) + seq!['"'] + rest);
    assert(b[p.len() as int] == '"');
}

proof fn lemma_cell_reads_back(p: Seq<char>, d: Datum, rest: Seq<char>, log: Log)
    requires
        self_written(d),
        rest.len() > 0,
        rest[0] == ',' || rest[0] == '}',
    ensures
        json_cell(d, log) == Ok::<Seq<char>, Query>(cell_text(d)),
        value_at(p + cell_text(d) + rest, p.len() as int, log) == Ok::<_, Query>(
            Some((d, (p.len() + cell_text(d).len()) as int)),
        ),
{
    let t = cell_text(d);
    let b = p + t + rest;
    let i = p.len() as int;
    match d {
        Datum::Str(s) => {
            assert(rendered(d, log) == Ok::<Seq<char>, Query>(s));
            lemma_text_reads_back(p, s, rest);
            assert(b[i] == '"');
        },
        Datum::I64(n) => {
            lemma_int_reads_back(p, n, rest, log);
        },
        _ => {
            assert(b[i] == t[0]);
            assert(b.subrange(i, i + t.len()) =~= t);
            assert(after_ws(b, i) == i);
            assert(word_at(b, i, t));
        },
    }
}

// ---------------------------------------------------------------------- rows

/// The member of a row at `k`, written.
spec fn pair_text(b: Batch, row: int, k: int) -> Seq<char> {
    json_text(b.fields[k].name) + seq![':'] + cell_text(b.cell(row, k))
}

/// The members of a row from `k` on, and the end of the object.
spec fn tail_text(b: Batch, row: int, k: int) -> Seq<char>
    decreases b.fields.len() - k,
{
    if k + 1 >= b.fields.len() {
        pair_text(b, row, k) + seq!['}']
    } else {
        pair_text(b, row, k) + seq![','] + tail_text(b, row, k + 1)
    }
}

/// The members of a row from `k` on: each column's name with the cell.
pub open spec fn row_members(b: Batch, row: int, k: int) -> Seq<(Seq<char>, Datum)> {
    Seq::new(
        (b.fields.len() - k) as nat,
        |j: int| (b.fields[k + j].name, b.cell(row, k + j)),
    )
}

/// What stands before the member at `n`.
proof fn lemma_written(b: Batch, row: int, n: nat, log: Log)
    requires
        forall|k: int| 0 <= k < n ==> self_written(#[trigger] b.cell(row, k)),
    ensures
        json_members(b, row, n, log) is Ok,
        n > 0 ==> json_members(b, row, n, log)->Ok_0 == (if n == 1 {
            json_members(b, row, (n - 1) as nat, log)->Ok_0
        } else {
            json_members(b, row, (n - 1) as nat, log)->Ok_0.push(',')
        }) + pair_text(b, row, n - 1),
    decreases n,
{
    if n > 0 {
        lemma_written(b, row, (n - 1) as nat, log);
        let d = b.cell(row, n - 1);
        assert(self_written(d));
        lemma_cell_reads_back(Seq::empty(), d, seq!['}'], log);
        let s = json_members(b, row, (n - 1) as nat, log)->Ok_0;
        let head = if n == 1 {
            s
        } else {
            s.push(',')
        };
        assert(head + json_text(b.fields[n - 1].name) + seq![':'] + cell_text(d) =~= head
            + pair_text(b, row, n - 1));
    }
}

proof fn lemma_tail(b: Batch, row: int, k: nat, log: Log)
    requires
        k < b.fields.len(),
        forall|j: int| 0 <= j < b.fields.len() ==> self_written(#[trigger] b.cell(row, j)),
    ensures
        json_members(b, row, b.fields.len(), log)->Ok_0.push('}') == (if k == 0 {
            json_members(b, row, k, log)->Ok_0
        } else {
            json_members(b, row, k, log)->Ok_0.push(',')
        }) + tail_text(b, row, k as int),
    decreases b.fields.len() - k,
{
    let n = b.fields.len();
    let all = json_members(b, row, n, log)->Ok_0;
    lemma_written(b, row, k + 1, log);
    let s = json_members(b, row, k, log)->Ok_0;
    let next = json_members(b, row, k + 1, log)->Ok_0;
    let head = if k == 0 {
        s
    } else {
        s.push(',')
    };
    assert(next == head + pair_text(b, row, k as int));
    if k + 1 == n {
        assert(next.push('}') =~= head + tail_text(b, row, k as int));
    } else {
        lemma_tail(b, row, k + 1, log);
        assert(next.push(',') + tail_text(b, row, k as int + 1) =~= head + tail_text(b, row, k as int));
    }
}

/// One member, and what follows it.
proof fn lemma_member_reads_back(p: Seq<char>, name: Seq<char>, d: Datum, after: Seq<char>, log: Log)
    requires
        self_written(d),
        after.len() > 0,
        after[0] == ',' || after[0] == '}',
    ensures
        ({
            let head = p + json_text(name) + seq![':'] + cell_text(d);
            let e = head.len() as int;
            members(head + after, p.len() as int, log) == if after[0] == '}' {
                Ok(Some((seq![(name, d)], e + 1)))
            } else {
                match members(head + after, e + 1, log) {
                    Err(q) => Err(q),
                    Ok(None) => Ok(None),
                    Ok(Some((m, end))) => Ok(Some((seq![(name, d)] + m, end))),
                }
            }
        }),
{
    let i = p.len() as int;
    let q = p + json_text(name) + seq![':'];
    let whole = q + cell_text(d) + after;
    let behind_name = seq![':'] + cell_text(d) + after;
    lemma_text_reads_back(p, name, behind_name);
    assert(whole =~= p + json_text(name) + behind_name);
    assert(whole[i] == '"');
    assert(after_ws(whole, i) == i);
    let c = i + json_text(name).len();
    assert(whole[c] == ':');
    assert(after_ws(whole, c) == c);
    lemma_cell_reads_back(q, d, after, log);
    let e = (q.len() + cell_text(d).len()) as int;
    assert(whole[e] == after[0]);
    assert(after_ws(whole, e) == e);
}

#[verifier::spinoff_prover]
#[verifier::rlimit(60)]
proof fn lemma_members_read_back(p: Seq<char>, b: Batch, row: int, k: int, rest: Seq<char>, log: Log)
    requires
        0 <= k < b.fields.len(),
        forall|j: int| 0 <= j < b.fields.len() ==> self_written(#[trigger] b.cell(row, j)),
    ensures
        members(p + tail_text(b, row, k) + rest, p.len() as int, log) == Ok::<_, Query>(
            Some((row_members(b, row, k), (p.len() + tail_text(b, row, k).len()) as int)),
        ),
    decreases b.fields.len() - k,
{
    let name = b.fields[k].name;
    let d = b.cell(row, k);
    assert(self_written(d));
    let whole = p + tail_text(b, row, k) + rest;
    let head = p + json_text(name) + seq![':'] + cell_text(d);
    assert(head =~= p + pair_text(b, row, k));
    if k + 1 >= b.fields.len() {
        let after = seq!['}'] + rest;
        lemma_member_reads_back(p, name, d, after, log);
        assert(whole =~= head + after);
        assert(row_members(b, row, k) =~= seq![(name, d)]);
    } else {
        let after = seq![','] + tail_text(b, row, k + 1) + rest;
        lemma_member_reads_back(p, name, d, after, log);
        assert(whole =~= head + after);
        let r = head.push(',');
        assert(whole =~= r + tail_text(b, row, k + 1) + rest);
        lemma_members_read_back(r, b, row, k + 1, rest, log);
        assert(row_members(b, row, k) =~= seq![(name, d)] + row_members(b, row, k + 1));
    }
}

/// A row written as a JSON object is read back as it was: each column's name with
/// its cell, in the order of the columns. This holds of the cells that need no
/// host to be written.
pub proof fn lemma_row_reads_back(b: Batch, row: int, log: Log)
    requires
        forall|j: int| 0 <= j < b.fields.len() ==> self_written(#[trigger] b.cell(row, j)),
    ensures
        json_object(b, row, log) matches Ok(line) && object_in(line, log) == Ok::<_, Query>(
            Some(row_members(b, row, 0)),
        ),
{
    let n = b.fields.len();
    lemma_written(b, row, n, log);
    let body = json_members(b, row, n, log)->Ok_0;
    let line = seq!['{'] + body + seq!['}'];
    assert(line[0] == '{');
    assert(after_ws(line, 0) == 0);
    if n == 0 {
        assert(body =~= Seq::empty());
        assert(line[1] == '}');
        assert(after_ws(line, 1) == 1);
        assert(row_members(b, row, 0) =~= Seq::empty());
    } else {
        lemma_tail(b, row, 0, log);
        let p = seq!['{'];
        let t = tail_text(b, row, 0);
        assert(json_members(b, row, 0, log)->Ok_0 =~= Seq::empty());
        assert(body.push('}') =~= t);
        assert(line =~= p + t + Seq::empty());
        lemma_members_read_back(p, b, row, 0, Seq::empty(), log);
        assert(line[1] == t[0]);
        assert(t[0] == pair_text(b, row, 0)[0]);
        assert(t[0] == '"');
        assert(after_ws(line, 1) == 1);
    }
}

// --------------------------------------------------------------------- lines

/// No line ends within the text.
pub open spec fn one_line(t: Seq<char>) -> bool {
    forall|i: int| 0 <= i < t.len() ==> #[trigger] t[i] != '\n'
}

proof fn lemma_char_line(c: char)
    ensures
        one_line(json_char(c)),
{
    if (c as int) < 0x20 {
        let h = c as int / 16;
        let l = c as int % 16;
        assert(h == 0 || h == 1);
        assert(digit_char(h) as int == 48 + h);
        if l < 10 {
            assert(digit_char(l) as int == 48 + l);
        }
        assert(hex_char(h) != '\n' && hex_char(l) != '\n');
    }
}

proof fn lemma_escaped_line(t: Seq<char>)
    ensures
        one_line(json_escaped(t)),
    decreases t.len(),
{
    if t.len() > 0 {
        lemma_escaped_line(t.drop_last());
        let a = json_escaped(t.drop_last());
        let c = t.last();
        let b = json_char(c);
        lemma_char_line(c);
        assert forall|i: int| 0 <= i < (a + b).len() implies #[trigger] (a + b)[i] != '\n' by {
            if i >= a.len() {
                assert(b[i - a.len()] != '\n');
            }
        }
    }
}

proof fn lemma_cell_line(d: Datum)
    requires
        self_written(d),
    ensures
        one_line(cell_text(d)),
{
    match d {
        Datum::Str(t) => {
            lemma_escaped_line(t);
        },
        Datum::I64(n) => {
            let size: nat = if n < 0 {
                (-n) as nat
            } else {
                n as nat
            };
            lemma_digits_of(size);
            let t = cell_text(d);
            assert forall|i: int| 0 <= i < t.len() implies #[trigger] t[i] != '\n' by {
                if n < 0 {
                    if i > 0 {
                        assert(is_digit(nat_text(size)[i - 1]));
                    }
                } else {
                    assert(is_digit(nat_text(size)[i]));
                }
            }
        },
        _ => {},
    }
}

proof fn lemma_members_line(b: Batch, row: int, n: nat, log: Log)
    requires
        forall|k: int| 0 <= k < n ==> self_written(#[trigger] b.cell(row, k)),
    ensures
        json_members(b, row, n, log) matches Ok(s) && one_line(s),
    decreases n,
{
    lemma_written(b, row, n, log);
    if n > 0 {
        lemma_members_line(b, row, (n - 1) as nat, log);
        assert(self_written(b.cell(row, n - 1)));
        lemma_cell_line(b.cell(row, n - 1));
        lemma_escaped_line(b.fields[n - 1].name);
    }
}

/// A row written as a JSON object stands on one line, so that the lines of a file
/// are its rows. This holds of the cells that need no host to be written.
pub proof fn lemma_row_is_one_line(b: Batch, row: int, log: Log)
    requires
        forall|j: int| 0 <= j < b.fields.len() ==> self_written(#[trigger] b.cell(row, j)),
    ensures
        json_object(b, row, log) matches Ok(line) && one_line(line),
{
    lemma_members_line(b, row, b.fields.len(), log);
}

} // verus!
