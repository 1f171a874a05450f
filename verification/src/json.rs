//! Reading JSON: objects, arrays, strings, numbers and the three words. An
//! object is read as a struct value, an array as a list.
use vstd::prelude::*;
use crate::compare::agree;
use crate::host::{ask1, get_maybe_float, maybe_float_answer, Answers, Ask, HostOp, Log, Query};
use crate::sink::{hex_char, json_char, json_escaped, json_text};
use crate::strings::{hex_digit, hex_number, hex_value, is_digit, parse_i64, parsed_i64, read_hex};
use crate::text::string_of;
use crate::value::{data, Datum, Value};

verus! {

/// The members of an object.
pub type Members = Vec<(String, Value)>;

/// What the members of an object are.
pub open spec fn member_views(v: Seq<(String, Value)>) -> Seq<(Seq<char>, Datum)> {
    Seq::new(v.len(), |i: int| (v[i].0@, v[i].1@))
}

/// An object holds its members.
pub proof fn lemma_struct_view(v: Members)
    ensures
        Value::Struct(v)@ == Datum::Struct(member_views(v@)),
{
    assert(Value::Struct(v)@->Struct_0 =~= member_views(v@));
}

/// An array holds its elements.
pub proof fn lemma_list_view(v: Vec<Value>)
    ensures
        Value::List(v)@ == Datum::List(data(v@)),
{
    assert(Value::List(v)@->List_0 =~= data(v@));
}

// ------------------------------------------------------------ white space

/// White space between tokens.
pub open spec fn is_ws(c: char) -> bool {
    c == ' ' || c == '\t' || c == '\r' || c == '\n'
}

/// The first place at or after `i` that is no white space.
pub open spec fn after_ws(b: Seq<char>, i: int) -> int
    decreases b.len() - i,
{
    if 0 <= i < b.len() && is_ws(b[i]) {
        after_ws(b, i + 1)
    } else {
        i
    }
}

proof fn lemma_after_ws(b: Seq<char>, i: int)
    requires
        0 <= i <= b.len(),
    ensures
        i <= after_ws(b, i) <= b.len(),
    decreases b.len() - i,
{
    if i < b.len() && is_ws(b[i]) {
        lemma_after_ws(b, i + 1);
    }
}

pub fn skip_ws(b: &Vec<char>, i: usize) -> (r: usize)
    requires
        i <= b@.len(),
    ensures
        r == after_ws(b@, i as int),
        i <= r <= b@.len(),
{
    let mut k: usize = i;
    while k < b.len() && (b[k] == ' ' || b[k] == '\t' || b[k] == '\r' || b[k] == '\n')
        invariant
            i <= k <= b@.len(),
            after_ws(b@, i as int) == after_ws(b@, k as int),
        decreases b@.len() - k,
    {
        k = k + 1;
    }
    k
}

// ---------------------------------------------------------------- strings

/// The character that an escape of four hexadecimal digits stands for; a half
/// of a pair stands for the replacement character.
pub open spec fn code_char(code: int) -> char {
    if 0xd800 <= code <= 0xdfff || code < 0 || code > 0x10ffff {
        '\u{fffd}'
    } else {
        code as char
    }
}

fn char_of_code(code: u64) -> (r: char)
    requires
        code <= 0x10ffff,
    ensures
        r == code_char(code as int),
{
    match char::from_u32(code as u32) {
        Some(c) => c,
        None => '\u{fffd}',
    }
}

/// A character of one byte.
pub open spec fn plain_char(c: char) -> bool {
    c as u32 <= 0x7f
}

fn is_plain_char(c: char) -> (r: bool)
    ensures
        r == plain_char(c),
{
    c as u32 <= 0x7f
}

/// The character of the escape at `j`, behind the backslash, and the place
/// behind it.
pub open spec fn escape(b: Seq<char>, j: int) -> Option<(char, int)> {
    if j >= b.len() {
        None
    } else if b[j] == 'n' {
        Some(('\n', j + 1))
    } else if b[j] == 't' {
        Some(('\t', j + 1))
    } else if b[j] == 'r' {
        Some(('\r', j + 1))
    } else if b[j] == 'b' {
        Some(('\u{8}', j + 1))
    } else if b[j] == 'f' {
        Some(('\u{c}', j + 1))
    } else if b[j] == 'u' {
        if j + 5 > b.len() {
            None
        } else {
            match hex_number(b.subrange(j + 1, j + 5)) {
                Some(code) => Some((code_char(code), j + 5)),
                None => None,
            }
        }
    } else if plain_char(b[j]) {
        Some((b[j], j + 1))
    } else {
        None
    }
}

/// The rest of a string from `i` on, up to its closing quote, and the place
/// behind that.
pub open spec fn string_rest(b: Seq<char>, i: int) -> Option<(Seq<char>, int)>
    decreases b.len() - i,
{
    if i < 0 || i >= b.len() {
        None
    } else if b[i] == '"' {
        Some((Seq::empty(), i + 1))
    } else if b[i] == '\\' {
        match escape(b, i + 1) {
            None => None,
            Some((c, k)) => match string_rest(b, k) {
                None => None,
                Some((s, end)) => Some((seq![c] + s, end)),
            },
        }
    } else {
        match string_rest(b, i + 1) {
            None => None,
            Some((s, end)) => Some((seq![b[i]] + s, end)),
        }
    }
}

/// The string at `i`, with its opening quote.
pub open spec fn string_at(b: Seq<char>, i: int) -> Option<(Seq<char>, int)> {
    if 0 <= i < b.len() && b[i] == '"' {
        string_rest(b, i + 1)
    } else {
        None
    }
}

proof fn lemma_string_rest(b: Seq<char>, i: int)
    requires
        0 <= i,
    ensures
        string_rest(b, i) matches Some((_, end)) ==> i < end <= b.len(),
    decreases b.len() - i,
{
    if i < b.len() && b[i] != '"' {
        if b[i] == '\\' {
            if escape(b, i + 1) is Some {
                lemma_string_rest(b, escape(b, i + 1)->Some_0.1);
            }
        } else {
            lemma_string_rest(b, i + 1);
        }
    }
}

/// More of a string behind what is read.
spec fn read_on(done: Seq<char>, rest: Option<(Seq<char>, int)>) -> Option<(Seq<char>, int)> {
    match rest {
        None => None,
        Some((s, end)) => Some((done + s, end)),
    }
}

fn parse_escape(b: &Vec<char>, j: usize) -> (r: Option<(char, usize)>)
    requires
        j <= b@.len(),
    ensures
        match r {
            Some((c, k)) => escape(b@, j as int) == Some((c, k as int)) && j < k <= b@.len(),
            None => escape(b@, j as int) is None,
        },
{
    if j >= b.len() {
        return None;
    }
    let e: char = b[j];
    if e == 'n' {
        Some(('\n', j + 1))
    } else if e == 't' {
        Some(('\t', j + 1))
    } else if e == 'r' {
        Some(('\r', j + 1))
    } else if e == 'b' {
        Some(('\u{8}', j + 1))
    } else if e == 'f' {
        Some(('\u{c}', j + 1))
    } else if e == 'u' {
        if b.len() - j < 5 {
            return None;
        }
        let hex: String = string_of(b, j + 1, j + 5);
        match read_hex(hex.as_str()) {
            None => None,
            Some(code) => {
                proof {
                    lemma_hex_bound(b@.subrange(j + 1, j + 5));
                }
                Some((char_of_code(code), j + 5))
            },
        }
    } else if is_plain_char(e) {
        Some((e, j + 1))
    } else {
        None
    }
}

/// Four hexadecimal digits make a number of sixteen bits.
proof fn lemma_hex_bound(s: Seq<char>)
    requires
        s.len() == 4,
    ensures
        hex_number(s) matches Some(n) ==> 0 <= n <= 0xffff,
{
    let t = if s[0] == '+' {
        s.skip(1)
    } else {
        s
    };
    lemma_hex_below(t);
}

proof fn lemma_hex_below(s: Seq<char>)
    requires
        s.len() <= 4,
    ensures
        hex_value(s) matches Some(n) ==> 0 <= n && (s.len() == 0 ==> n == 0) && (s.len() == 1 ==> n
            <= 0xf) && (s.len() == 2 ==> n <= 0xff) && (s.len() == 3 ==> n <= 0xfff) && (s.len() == 4
            ==> n <= 0xffff),
    decreases s.len(),
{
    if s.len() > 0 {
        lemma_hex_below(s.drop_last());
    }
}

/// The string at `i` (see [`string_at`]).
pub fn parse_string(b: &Vec<char>, i: usize) -> (r: Option<(String, usize)>)
    requires
        i <= b@.len(),
    ensures
        match r {
            Some((s, k)) => string_at(b@, i as int) == Some((s@, k as int)) && i < k <= b@.len(),
            None => string_at(b@, i as int) is None,
        },
{
    if i >= b.len() || b[i] != '"' {
        return None;
    }
    let mut s: String = String::new();
    let mut k: usize = i + 1;
    let ghost all = string_rest(b@, i + 1);
    assert(s@ =~= Seq::empty());
    proof {
        if all is Some {
            assert(s@ + all->Some_0.0 =~= all->Some_0.0);
        }
    }
    while k < b.len()
        invariant
            i < k <= b@.len(),
            all == string_rest(b@, i + 1),
            all == string_at(b@, i as int),
            all == read_on(s@, string_rest(b@, k as int)),
        decreases b@.len() - k,
    {
        let c: char = b[k];
        let ghost done = s@;
        if c == '"' {
            assert(s@ + Seq::<char>::empty() =~= s@);
            return Some((s, k + 1));
        }
        if c == '\\' {
            match parse_escape(b, k + 1) {
                None => {
                    return None;
                },
                Some((x, next)) => {
                    s.push(x);
                    proof {
                        let rest = string_rest(b@, next as int);
                        if rest is Some {
                            assert(done + (seq![x] + rest->Some_0.0) =~= s@ + rest->Some_0.0);
                        }
                    }
                    k = next;
                },
            }
        } else {
            s.push(c);
            proof {
                let rest = string_rest(b@, k + 1);
                if rest is Some {
                    assert(done + (seq![c] + rest->Some_0.0) =~= s@ + rest->Some_0.0);
                }
            }
            k = k + 1;
        }
    }
    None
}

// ---------------------------------------------------------------- numbers

/// A character that a number goes on with but for digits.
pub open spec fn float_mark(c: char) -> bool {
    c == '.' || c == 'e' || c == 'E' || c == '+' || c == '-'
}

/// The end of a run of digits and marks, and whether a mark is among them.
pub open spec fn number_run(b: Seq<char>, i: int) -> (int, bool)
    decreases b.len() - i,
{
    if i < 0 || i >= b.len() {
        (i, false)
    } else if is_digit(b[i]) {
        number_run(b, i + 1)
    } else if float_mark(b[i]) {
        (number_run(b, i + 1).0, true)
    } else {
        (i, false)
    }
}

/// A value and the place behind it, where there is one; or a question.
pub type ReadV = Result<Option<(Datum, int)>, Query>;

/// A text as a double.
pub open spec fn float_text(t: Seq<char>, end: int, log: Log) -> ReadV {
    match maybe_float_answer(log, Query { op: HostOp::ParseFloat, args: seq![Datum::Str(t)] }) {
        Err(q) => Err(q),
        Ok(None) => Ok(None),
        Ok(Some(x)) => Ok(Some((Datum::F64(x), end))),
    }
}

/// The number at `i`: an integer where it is written as one and fits, else a
/// double.
pub open spec fn number_at(b: Seq<char>, i: int, log: Log) -> ReadV {
    let from = if b[i] == '-' {
        i + 1
    } else {
        i
    };
    let (end, marked) = number_run(b, from);
    let t = b.subrange(i, end);
    if t.len() == 0 || t == seq!['-'] {
        Ok(None)
    } else if marked {
        float_text(t, end, log)
    } else {
        match parsed_i64(t) {
            Some(n) => Ok(Some((Datum::I64(n), end))),
            None => float_text(t, end, log),
        }
    }
}

proof fn lemma_number_run(b: Seq<char>, i: int)
    requires
        0 <= i <= b.len(),
    ensures
        i <= number_run(b, i).0 <= b.len(),
    decreases b.len() - i,
{
    if i < b.len() && (is_digit(b[i]) || float_mark(b[i])) {
        lemma_number_run(b, i + 1);
    }
}

/// What a reader hands back agrees with what is owed.
pub open spec fn reads_as(r: Result<Option<(Value, usize)>, Ask>, s: ReadV, i: int, len: int) -> bool {
    match (r, s) {
        (Ok(Some((v, k))), Ok(Some((d, e)))) => v@ == d && k == e && i < k <= len,
        (Ok(None), Ok(None)) => true,
        (Err(a), Err(q)) => a@ == q,
        _ => false,
    }
}

fn parse_float(t: String, end: usize, host: &Answers, Ghost(i): Ghost<int>, Ghost(len): Ghost<int>) -> (r:
    Result<Option<(Value, usize)>, Ask>)
    requires
        i < end <= len,
    ensures
        reads_as(r, float_text(t@, end as int, host@), i, len),
{
    match get_maybe_float(host, ask1(HostOp::ParseFloat, Value::Str(t))) {
        Err(a) => Err(a),
        Ok(None) => Ok(None),
        Ok(Some(x)) => Ok(Some((Value::F64(x), end))),
    }
}

fn parse_number(b: &Vec<char>, i: usize, host: &Answers) -> (r: Result<Option<(Value, usize)>, Ask>)
    requires
        i < b@.len(),
    ensures
        reads_as(r, number_at(b@, i as int, host@), i as int, b@.len() as int),
{
    let size: usize = b.len();
    assert(i < size);
    let mut k: usize = i;
    if b[i] == '-' {
        k = i + 1;
    }
    let ghost from = k as int;
    let mut marked: bool = false;
    let ghost whole = number_run(b@, from);
    while k < b.len() && (('0' <= b[k] && b[k] <= '9') || b[k] == '.' || b[k] == 'e' || b[k] == 'E'
        || b[k] == '+' || b[k] == '-')
        invariant
            i <= k <= b@.len(),
            whole == number_run(b@, from),
            whole.0 == number_run(b@, k as int).0,
            whole.1 == (marked || number_run(b@, k as int).1),
        decreases b@.len() - k,
    {
        if !('0' <= b[k] && b[k] <= '9') {
            marked = true;
        }
        k = k + 1;
    }
    proof {
        assert(number_run(b@, k as int) == (k as int, false));
    }
    let t: String = string_of(b, i, k);
    if k == i {
        return Ok(None);
    }
    if k == i + 1 && b[i] == '-' {
        assert(t@ =~= seq!['-']);
        return Ok(None);
    }
    proof {
        if t@ == seq!['-'] {
            assert(t@[0] == b@[i as int]);
            assert(t@.len() == 1);
        }
    }
    if marked {
        return parse_float(t, k, host, Ghost(i as int), Ghost(b@.len() as int));
    }
    match parse_i64(t.as_str()) {
        Some(n) => Ok(Some((Value::I64(n), k))),
        None => parse_float(t, k, host, Ghost(i as int), Ghost(b@.len() as int)),
    }
}

// ----------------------------------------------------------------- values

/// The members of an object and the place behind it, where it is one; or a
/// question.
pub type MembersV = Result<Option<(Seq<(Seq<char>, Datum)>, int)>, Query>;

/// The elements of an array and the place behind it, where it is one; or a
/// question.
pub type ElementsV = Result<Option<(Seq<Datum>, int)>, Query>;

/// Does a word stand at `i`?
pub open spec fn word_at(b: Seq<char>, i: int, w: Seq<char>) -> bool {
    i + w.len() <= b.len() && b.subrange(i, i + w.len()) == w
}

/// The value at `i`, after white space.
pub open spec fn value_at(b: Seq<char>, i: int, log: Log) -> ReadV
    decreases b.len() - i, 1nat,
{
    let j = after_ws(b, i);
    if i < 0 || j < i || j >= b.len() {
        Ok(None)
    } else if b[j] == '"' {
        match string_at(b, j) {
            None => Ok(None),
            Some((s, end)) => Ok(Some((Datum::Str(s), end))),
        }
    } else if b[j] == '{' {
        match object_at(b, j, log) {
            Err(q) => Err(q),
            Ok(None) => Ok(None),
            Ok(Some((m, end))) => Ok(Some((Datum::Struct(m), end))),
        }
    } else if b[j] == '[' {
        let k = after_ws(b, j + 1);
        if k < b.len() && b[k] == ']' {
            Ok(Some((Datum::List(Seq::empty()), k + 1)))
        } else {
            match elements(b, j + 1, log) {
                Err(q) => Err(q),
                Ok(None) => Ok(None),
                Ok(Some((v, end))) => Ok(Some((Datum::List(v), end))),
            }
        }
    } else if b[j] == 't' {
        if word_at(b, j, seq!['t', 'r', 'u', 'e']) {
            Ok(Some((Datum::Bool(true), j + 4)))
        } else {
            Ok(None)
        }
    } else if b[j] == 'f' {
        if word_at(b, j, seq!['f', 'a', 'l', 's', 'e']) {
            Ok(Some((Datum::Bool(false), j + 5)))
        } else {
            Ok(None)
        }
    } else if b[j] == 'n' {
        if word_at(b, j, seq!['n', 'u', 'l', 'l']) {
            Ok(Some((Datum::Null, j + 4)))
        } else {
            Ok(None)
        }
    } else {
        number_at(b, j, log)
    }
}

/// The object that opens at `j`.
pub open spec fn object_at(b: Seq<char>, j: int, log: Log) -> MembersV
    decreases b.len() - j, 0nat,
{
    if j < 0 || j >= b.len() || b[j] != '{' {
        Ok(None)
    } else {
        let k = after_ws(b, j + 1);
        if k < b.len() && b[k] == '}' {
            Ok(Some((Seq::empty(), k + 1)))
        } else {
            members(b, j + 1, log)
        }
    }
}

/// The members from `i` on, to the end of the object. Every part of a member
/// takes at least one character.
pub open spec fn members(b: Seq<char>, i: int, log: Log) -> MembersV
    decreases b.len() - i, 2nat,
{
    match string_at(b, after_ws(b, i)) {
        None => Ok(None),
        Some((key, k)) => {
            let c = after_ws(b, k);
            if i < 0 || c < i || c >= b.len() || b[c] != ':' {
                Ok(None)
            } else {
                match value_at(b, c + 1, log) {
                    Err(q) => Err(q),
                    Ok(None) => Ok(None),
                    Ok(Some((v, e))) => {
                        let n = after_ws(b, e);
                        if n <= c || n >= b.len() {
                            Ok(None)
                        } else if b[n] == ',' {
                            match members(b, n + 1, log) {
                                Err(q) => Err(q),
                                Ok(None) => Ok(None),
                                Ok(Some((m, end))) => Ok(Some((seq![(key, v)] + m, end))),
                            }
                        } else if b[n] == '}' {
                            Ok(Some((seq![(key, v)], n + 1)))
                        } else {
                            Ok(None)
                        }
                    },
                }
            }
        },
    }
}

/// The elements from `i` on, to the end of the array. Every element takes at
/// least one character.
pub open spec fn elements(b: Seq<char>, i: int, log: Log) -> ElementsV
    decreases b.len() - i, 2nat,
{
    if i < 0 {
        Ok(None)
    } else {
        match value_at(b, i, log) {
            Err(q) => Err(q),
            Ok(None) => Ok(None),
            Ok(Some((v, e))) => {
                let n = after_ws(b, e);
                if n < i || n >= b.len() {
                    Ok(None)
                } else if b[n] == ',' {
                    match elements(b, n + 1, log) {
                        Err(q) => Err(q),
                        Ok(None) => Ok(None),
                        Ok(Some((s, end))) => Ok(Some((seq![v] + s, end))),
                    }
                } else if b[n] == ']' {
                    Ok(Some((seq![v], n + 1)))
                } else {
                    Ok(None)
                }
            },
        }
    }
}

/// Members before more members.
spec fn members_on(done: Seq<(Seq<char>, Datum)>, rest: MembersV) -> MembersV {
    match rest {
        Err(q) => Err(q),
        Ok(None) => Ok(None),
        Ok(Some((m, end))) => Ok(Some((done + m, end))),
    }
}

/// Elements before more elements.
spec fn elements_on(done: Seq<Datum>, rest: ElementsV) -> ElementsV {
    match rest {
        Err(q) => Err(q),
        Ok(None) => Ok(None),
        Ok(Some((m, end))) => Ok(Some((done + m, end))),
    }
}

fn starts_word(b: &Vec<char>, i: usize, w: &str) -> (r: bool)
    requires
        i <= b@.len(),
    ensures
        r == word_at(b@, i as int, w@),
{
    let v: Vec<char> = crate::text::chars_of(w);
    if b.len() - i < v.len() {
        return false;
    }
    for k in 0..v.len()
        invariant
            v@ == w@,
            i + v@.len() <= b@.len() <= usize::MAX,
            forall|j: int| 0 <= j < k ==> b@[i + j] == #[trigger] v@[j],
    {
        if b[i + k] != v[k] {
            proof {
                let s = b@.subrange(i as int, i + v@.len());
                assert(s[k as int] == b@[i + k]);
            }
            return false;
        }
    }
    assert(b@.subrange(i as int, i + v@.len()) =~= v@);
    true
}

/// The object that opens at `j` (see [`object_at`]).
pub fn parse_obj(b: &Vec<char>, j: usize, host: &Answers) -> (r: Result<
    Option<(Members, usize)>,
    Ask,
>)
    requires
        j <= b@.len(),
    ensures
        match (r, object_at(b@, j as int, host@)) {
            (Ok(Some((m, k))), Ok(Some((v, e)))) => member_views(m@) == v && k == e && j < k
                <= b@.len(),
            (Ok(None), Ok(None)) => true,
            (Err(a), Err(q)) => a@ == q,
            _ => false,
        },
    decreases b@.len() - j, 0nat,
{
    if j >= b.len() || b[j] != '{' {
        return Ok(None);
    }
    let mut out: Members = Vec::new();
    assert(member_views(out@) =~= Seq::empty());
    let k: usize = skip_ws(b, j + 1);
    if k < b.len() && b[k] == '}' {
        return Ok(Some((out, k + 1)));
    }
    let ghost all = members(b@, j + 1, host@);
    proof {
        if all matches Ok(Some(_)) {
            let m = all->Ok_0->Some_0;
            assert(member_views(out@) + m.0 =~= m.0);
        }
    }
    let mut i: usize = j + 1;
    loop
        invariant
            j < i <= b@.len(),
            all == members(b@, j + 1, host@),
            all == object_at(b@, j as int, host@),
            all == members_on(member_views(out@), members(b@, i as int, host@)),
        decreases b@.len() - i,
    {
        let ghost done = member_views(out@);
        let at: usize = skip_ws(b, i);
        let (key, next): (String, usize) = match parse_string(b, at) {
            None => {
                return Ok(None);
            },
            Some(p) => p,
        };
        let c: usize = skip_ws(b, next);
        if c >= b.len() || b[c] != ':' {
            return Ok(None);
        }
        let (val, end): (Value, usize) = match parse_value(b, c + 1, host) {
            Err(a) => {
                return Err(a);
            },
            Ok(None) => {
                return Ok(None);
            },
            Ok(Some(p)) => p,
        };
        let n: usize = skip_ws(b, end);
        let ghost one = (key@, val@);
        if n >= b.len() {
            return Ok(None);
        }
        if b[n] == ',' {
            out.push((key, val));
            proof {
                assert(member_views(out@) =~= done.push(one));
                let rest = members(b@, n + 1, host@);
                if rest matches Ok(Some(_)) {
                    let m = rest->Ok_0->Some_0.0;
                    assert(done + (seq![one] + m) =~= member_views(out@) + m);
                }
            }
            i = n + 1;
        } else if b[n] == '}' {
            out.push((key, val));
            assert(member_views(out@) =~= done + seq![one]);
            return Ok(Some((out, n + 1)));
        } else {
            return Ok(None);
        }
    }
}

fn parse_arr(b: &Vec<char>, j: usize, host: &Answers) -> (r: Result<
    Option<(Vec<Value>, usize)>,
    Ask,
>)
    requires
        j < b@.len(),
    ensures
        match (
            r,
            ({
                let k = after_ws(b@, j + 1);
                if k < b@.len() && b@[k] == ']' {
                    Ok(Some((Seq::empty(), k + 1)))
                } else {
                    elements(b@, j + 1, host@)
                }
            }),
        ) {
            (Ok(Some((m, k))), Ok(Some((v, e)))) => data(m@) == v && k == e && j < k <= b@.len(),
            (Ok(None), Ok(None)) => true,
            (Err(a), Err(q)) => a@ == q,
            _ => false,
        },
    decreases b@.len() - j, 0nat,
{
    let mut out: Vec<Value> = Vec::new();
    assert(data(out@) =~= Seq::empty());
    let size: usize = b.len();
    assert(j < size);
    let k: usize = skip_ws(b, j + 1);
    if k < b.len() && b[k] == ']' {
        return Ok(Some((out, k + 1)));
    }
    let ghost all = elements(b@, j + 1, host@);
    proof {
        if all matches Ok(Some(_)) {
            let m = all->Ok_0->Some_0;
            assert(data(out@) + m.0 =~= m.0);
        }
    }
    let mut i: usize = j + 1;
    loop
        invariant
            j < i <= b@.len(),
            j < b@.len(),
            all == elements(b@, j + 1, host@),
            k == after_ws(b@, j + 1),
            !(k < b@.len() && b@[k as int] == ']'),
            all == elements_on(data(out@), elements(b@, i as int, host@)),
        decreases b@.len() - i,
    {
        let ghost done = data(out@);
        let (val, end): (Value, usize) = match parse_value(b, i, host) {
            Err(a) => {
                return Err(a);
            },
            Ok(None) => {
                return Ok(None);
            },
            Ok(Some(p)) => p,
        };
        let n: usize = skip_ws(b, end);
        let ghost one = val@;
        if n >= b.len() {
            return Ok(None);
        }
        if b[n] == ',' {
            out.push(val);
            proof {
                assert(data(out@) =~= done.push(one));
                let rest = elements(b@, n + 1, host@);
                if rest matches Ok(Some(_)) {
                    let m = rest->Ok_0->Some_0.0;
                    assert(done + (seq![one] + m) =~= data(out@) + m);
                }
            }
            i = n + 1;
        } else if b[n] == ']' {
            out.push(val);
            assert(data(out@) =~= done + seq![one]);
            return Ok(Some((out, n + 1)));
        } else {
            return Ok(None);
        }
    }
}

/// The value at `i`, after white space (see [`value_at`]).
pub fn parse_value(b: &Vec<char>, i: usize, host: &Answers) -> (r: Result<
    Option<(Value, usize)>,
    Ask,
>)
    requires
        i <= b@.len(),
    ensures
        reads_as(r, value_at(b@, i as int, host@), i as int, b@.len() as int),
    decreases b@.len() - i, 1nat,
{
    let j: usize = skip_ws(b, i);
    if j >= b.len() {
        return Ok(None);
    }
    let c: char = b[j];
    if c == '"' {
        return match parse_string(b, j) {
            None => Ok(None),
            Some((s, end)) => Ok(Some((Value::Str(s), end))),
        };
    }
    if c == '{' {
        return match parse_obj(b, j, host) {
            Err(a) => Err(a),
            Ok(None) => Ok(None),
            Ok(Some((m, end))) => {
                proof {
                    lemma_struct_view(m);
                }
                Ok(Some((Value::Struct(m), end)))
            },
        };
    }
    if c == '[' {
        return match parse_arr(b, j, host) {
            Err(a) => Err(a),
            Ok(None) => Ok(None),
            Ok(Some((m, end))) => {
                proof {
                    lemma_list_view(m);
                }
                Ok(Some((Value::List(m), end)))
            },
        };
    }
    if c == 't' {
        proof {
            reveal_strlit("true");
            assert("true"@ =~= seq!['t', 'r', 'u', 'e']);
        }
        return if starts_word(b, j, "true") {
            Ok(Some((Value::Bool(true), j + 4)))
        } else {
            Ok(None)
        };
    }
    if c == 'f' {
        proof {
            reveal_strlit("false");
            assert("false"@ =~= seq!['f', 'a', 'l', 's', 'e']);
        }
        return if starts_word(b, j, "false") {
            Ok(Some((Value::Bool(false), j + 5)))
        } else {
            Ok(None)
        };
    }
    if c == 'n' {
        proof {
            reveal_strlit("null");
            assert("null"@ =~= seq!['n', 'u', 'l', 'l']);
        }
        return if starts_word(b, j, "null") {
            Ok(Some((Value::Null, j + 4)))
        } else {
            Ok(None)
        };
    }
    parse_number(b, j, host)
}

/// The object that a line is, with nothing but white space before and behind it.
pub open spec fn object_in(line: Seq<char>, log: Log) -> Result<
    Option<Seq<(Seq<char>, Datum)>>,
    Query,
> {
    match object_at(line, after_ws(line, 0), log) {
        Err(q) => Err(q),
        Ok(None) => Ok(None),
        Ok(Some((m, end))) => if after_ws(line, end) == line.len() {
            Ok(Some(m))
        } else {
            Ok(None)
        },
    }
}

/// The object that a line is; `None` where the line is malformed.
pub fn parse_object(line: &Vec<char>, host: &Answers) -> (r: Result<Option<Members>, Ask>)
    ensures
        agree(
            r,
            object_in(line@, host@),
            |a: Option<Members>, m: Option<Seq<(Seq<char>, Datum)>>|
                match (a, m) {
                    (Some(x), Some(y)) => member_views(x@) == y,
                    (None, None) => true,
                    _ => false,
                },
        ),
{
    let j: usize = skip_ws(line, 0);
    match parse_obj(line, j, host) {
        Err(a) => Err(a),
        Ok(None) => Ok(None),
        Ok(Some((m, end))) => {
            let rest: usize = skip_ws(line, end);
            if rest == line.len() {
                Ok(Some(m))
            } else {
                Ok(None)
            }
        },
    }
}


// ------------------------------------------------------- written and read

proof fn lemma_escaped_front(t: Seq<char>)
    requires
        t.len() > 0,
    ensures
        json_escaped(t) == json_char(t[0]) + json_escaped(t.drop_first()),
    decreases t.len(),
{
    if t.len() == 1 {
        assert(t.drop_last() =~= Seq::empty());
        assert(t.drop_first() =~= Seq::empty());
        assert(json_escaped(t.drop_last()) =~= Seq::empty());
        assert(json_escaped(t.drop_first()) =~= Seq::empty());
        assert(Seq::<char>::empty() + json_char(t[0]) =~= json_char(t[0]) + Seq::<char>::empty());
    } else {
        lemma_escaped_front(t.drop_last());
        assert(t.drop_last().drop_first() =~= t.drop_first().drop_last());
        assert(t.drop_first().last() == t.last());
        let mid = json_escaped(t.drop_last().drop_first());
        assert((json_char(t[0]) + mid) + json_char(t.last()) =~= json_char(t[0]) + (mid + json_char(
            t.last(),
        )));
    }
}

proof fn lemma_hex_char(d: int)
    requires
        0 <= d < 16,
    ensures
        hex_digit(hex_char(d)) == Some(d),
{
}

proof fn lemma_control_code(c: char)
    requires
        (c as int) < 0x20,
    ensures
        hex_number(seq!['0', '0', hex_char(c as int / 16), hex_char(c as int % 16)]) == Some(c as int),
        code_char(c as int) == c,
{
    let h1 = hex_char(c as int / 16);
    let h2 = hex_char(c as int % 16);
    let s = seq!['0', '0', h1, h2];
    lemma_hex_char(c as int / 16);
    lemma_hex_char(c as int % 16);
    reveal_with_fuel(hex_value, 6);
    let s3 = s.drop_last();
    let s2 = s3.drop_last();
    let s1 = s2.drop_last();
    assert(s3.last() == h1 && s2.last() == '0' && s1.last() == '0');
    assert(s1.drop_last().len() == 0);
    assert(hex_digit('0') == Some(0int));
    assert(hex_value(s1) == Some(0int));
    assert(hex_value(s2) == Some(0int));
    assert(hex_value(s3) == Some(c as int / 16));
    assert(hex_value(s) == Some(c as int));
}

pub proof fn lemma_string_reads_back(p: Seq<char>, t: Seq<char>, rest: Seq<char>)
    ensures
        string_rest(p + json_escaped(t) + seq!['"'] + rest, p.len() as int) == Some(
            (t, (p.len() + json_escaped(t).len() + 1) as int),
        ),
    decreases t.len(),
{
    let b = p + json_escaped(t) + seq!['"'] + rest;
    let i = p.len() as int;
    if t.len() == 0 {
        assert(json_escaped(t) =~= Seq::empty());
        assert(b[i] == '"');
        assert(t =~= Seq::empty());
    } else {
        let c = t[0];
        let w = json_char(c);
        let tail = t.drop_first();
        lemma_escaped_front(t);
        let q = p + w;
        lemma_string_reads_back(q, tail, rest);
        assert(q + json_escaped(tail) + seq!['"'] + rest =~= b);
        assert(seq![c] + tail =~= t);
        assert forall|k: int| 0 <= k < w.len() implies b[i + k] == w[k] by {}
        assert(b[i] == w[0]);
        if w.len() == 2 {
            assert(b[i + 1] == w[1]);
        } else if w.len() == 6 {
            assert(b[i + 1] == w[1]);
            assert(b.subrange(i + 2, i + 6) =~= seq![
                '0',
                '0',
                hex_char(c as int / 16),
                hex_char(c as int % 16),
            ]);
            lemma_control_code(c);
        }
    }
}

/// A text written as a JSON string is read back as it was, whatever follows.
pub proof fn lemma_json_string_reads_back(t: Seq<char>, rest: Seq<char>)
    ensures
        string_at(json_text(t) + rest, 0) == Some((t, json_text(t).len() as int)),
{
    let p = seq!['"'];
    lemma_string_reads_back(p, t, rest);
    assert(p + json_escaped(t) + seq!['"'] + rest =~= json_text(t) + rest);
    assert((json_text(t) + rest)[0] == '"');
}

} // verus!
