//! Text functions: searching, splitting, trimming, paths and integers.
use vstd::prelude::*;
use vstd::string::StrSliceExecFns;
use crate::text::{chars_of, owned, same_text, string_of};

verus! {

// ---------------------------------------------------------------- whitespace

/// The Unicode white space characters.
pub open spec fn is_space(c: char) -> bool {
    ||| 0x9 <= c as u32 <= 0xd
    ||| c as u32 == 0x20
    ||| c as u32 == 0x85
    ||| c as u32 == 0xa0
    ||| c as u32 == 0x1680
    ||| 0x2000 <= c as u32 <= 0x200a
    ||| c as u32 == 0x2028
    ||| c as u32 == 0x2029
    ||| c as u32 == 0x202f
    ||| c as u32 == 0x205f
    ||| c as u32 == 0x3000
}

/// Is this a white space character?
pub fn space(c: char) -> (r: bool)
    ensures
        r == is_space(c),
{
    let u: u32 = c as u32;
    (0x9 <= u && u <= 0xd) || u == 0x20 || u == 0x85 || u == 0xa0 || u == 0x1680 || (0x2000 <= u
        && u <= 0x200a) || u == 0x2028 || u == 0x2029 || u == 0x202f || u == 0x205f || u == 0x3000
}

/// The text without its leading white space.
pub open spec fn trim_start(s: Seq<char>) -> Seq<char>
    decreases s.len(),
{
    if s.len() > 0 && is_space(s[0]) {
        trim_start(s.drop_first())
    } else {
        s
    }
}

/// The text without its trailing white space.
pub open spec fn trim_end(s: Seq<char>) -> Seq<char>
    decreases s.len(),
{
    if s.len() > 0 && is_space(s.last()) {
        trim_end(s.drop_last())
    } else {
        s
    }
}

/// The text without white space at either end.
pub open spec fn trimmed(s: Seq<char>) -> Seq<char> {
    trim_end(trim_start(s))
}

/// The text without white space at either end.
pub fn trim(s: &str) -> (r: String)
    ensures
        r@ == trimmed(s@),
{
    let v: Vec<char> = chars_of(s);
    let mut a: usize = 0;
    assert(v@.subrange(0, v@.len() as int) =~= v@);
    while a < v.len() && space(v[a])
        invariant
            a <= v@.len(),
            trim_start(v@) == trim_start(v@.subrange(a as int, v@.len() as int)),
        decreases v.len() - a,
    {
        assert(v@.subrange(a as int, v@.len() as int).drop_first() =~= v@.subrange(
            a + 1,
            v@.len() as int,
        ));
        a += 1;
    }
    let mut b: usize = v.len();
    while b > a && space(v[b - 1])
        invariant
            a <= b <= v@.len(),
            trim_end(v@.subrange(a as int, v@.len() as int)) == trim_end(
                v@.subrange(a as int, b as int),
            ),
        decreases b,
    {
        assert(v@.subrange(a as int, b as int).drop_last() =~= v@.subrange(a as int, b - 1));
        b -= 1;
    }
    string_of(&v, a, b)
}

// ---------------------------------------------------------------- ASCII case

/// An ASCII letter in lower case; every other character unchanged.
pub open spec fn ascii_lower(c: char) -> char {
    if 'A' <= c <= 'Z' {
        (c as u8 + 32) as u8 as char
    } else {
        c
    }
}

/// An ASCII letter in lower case; every other character unchanged.
pub fn lower_ascii(c: char) -> (r: char)
    ensures
        r == ascii_lower(c),
{
    if 'A' <= c && c <= 'Z' {
        (c as u8 + 32) as char
    } else {
        c
    }
}

/// The text with its ASCII letters in lower case.
pub open spec fn ascii_lowered(s: Seq<char>) -> Seq<char> {
    Seq::new(s.len(), |i: int| ascii_lower(s[i]))
}

/// The text with its ASCII letters in lower case.
pub fn to_ascii_lower(s: &str) -> (r: String)
    ensures
        r@ == ascii_lowered(s@),
{
    let v: Vec<char> = chars_of(s);
    let mut r: String = String::new();
    for i in 0..v.len()
        invariant
            v@ == s@,
            r@ == ascii_lowered(s@).take(i as int),
    {
        r.push(lower_ascii(v[i]));
        assert(ascii_lowered(s@).take(i + 1) =~= ascii_lowered(s@).take(i as int).push(
            ascii_lower(s@[i as int]),
        ));
    }
    assert(ascii_lowered(s@).take(s@.len() as int) =~= ascii_lowered(s@));
    r
}

/// Are the texts equal up to the case of ASCII letters?
pub fn eq_ignore_ascii_case(a: &str, b: &str) -> (r: bool)
    ensures
        r == (ascii_lowered(a@) == ascii_lowered(b@)),
{
    same_text(to_ascii_lower(a).as_str(), to_ascii_lower(b).as_str())
}

// ---------------------------------------------------------------- Unicode case

/// The text in upper case, as `str::to_uppercase` has it.
pub uninterp spec fn uppercased(s: Seq<char>) -> Seq<char>;

/// `str::to_uppercase`: the Unicode upper case mapping, a function of the text
/// alone; its tables are not restated.
#[verifier::external_body]
pub(crate) fn to_upper(s: &str) -> (r: String)
    ensures
        r@ == uppercased(s@),
{
    s.to_uppercase()
}

/// The text in lower case, as `str::to_lowercase` has it.
pub uninterp spec fn lowercased(s: Seq<char>) -> Seq<char>;

/// `str::to_lowercase`: the Unicode lower case mapping, a function of the text
/// alone; its tables are not restated.
#[verifier::external_body]
pub(crate) fn to_lower(s: &str) -> (r: String)
    ensures
        r@ == lowercased(s@),
{
    s.to_lowercase()
}

// ---------------------------------------------------------------- searching

/// Does `n` stand in `h` at `i`?
pub open spec fn occurs_at(h: Seq<char>, n: Seq<char>, i: int) -> bool {
    0 <= i && i + n.len() <= h.len() && h.subrange(i, i + n.len()) == n
}

/// Does `n` stand anywhere in `h`?
pub open spec fn occurs(h: Seq<char>, n: Seq<char>) -> bool {
    exists|i: int| #[trigger] occurs_at(h, n, i)
}

/// Does `n` stand in `h` at `i`?
pub fn found_at(h: &Vec<char>, n: &Vec<char>, i: usize) -> (r: bool)
    ensures
        r == occurs_at(h@, n@, i as int),
{
    if i > h.len() || n.len() > h.len() - i {
        return false;
    }
    for k in 0..n.len()
        invariant
            i + n@.len() <= h@.len() <= usize::MAX,
            forall|m: int| 0 <= m < k ==> h@[i + m] == #[trigger] n@[m],
    {
        if h[i + k] != n[k] {
            assert(h@.subrange(i as int, i + n@.len())[k as int] == h@[i + k]);
            return false;
        }
    }
    assert(h@.subrange(i as int, i + n@.len()) =~= n@);
    true
}

/// Does `hay` contain `needle`?
pub fn contains(hay: &str, needle: &str) -> (r: bool)
    ensures
        r == occurs(hay@, needle@),
{
    let h: Vec<char> = chars_of(hay);
    let n: Vec<char> = chars_of(needle);
    let mut i: usize = 0;
    while i < h.len()
        invariant
            h@ == hay@,
            n@ == needle@,
            i <= h@.len(),
            forall|k: int| 0 <= k < i ==> !#[trigger] occurs_at(h@, n@, k),
        decreases h.len() - i,
    {
        if found_at(&h, &n, i) {
            return true;
        }
        i += 1;
    }
    found_at(&h, &n, i)
}

/// Does `hay` start with `prefix`?
pub fn starts_with(hay: &str, prefix: &str) -> (r: bool)
    ensures
        r == occurs_at(hay@, prefix@, 0),
{
    found_at(&chars_of(hay), &chars_of(prefix), 0)
}

/// Does `hay` end with `suffix`?
pub fn ends_with(hay: &str, suffix: &str) -> (r: bool)
    ensures
        r == occurs_at(hay@, suffix@, hay@.len() - suffix@.len()),
{
    let h: Vec<char> = chars_of(hay);
    let n: Vec<char> = chars_of(suffix);
    if n.len() > h.len() {
        false
    } else {
        found_at(&h, &n, h.len() - n.len())
    }
}

/// The text from `i` on with every occurrence of `from` replaced by `to`,
/// leftmost first and without overlap.
pub open spec fn replaced_from(s: Seq<char>, from: Seq<char>, to: Seq<char>, i: int) -> Seq<char>
    decreases s.len() - i,
{
    if i < 0 || i >= s.len() || from.len() == 0 {
        s.skip(i)
    } else if occurs_at(s, from, i) {
        to + replaced_from(s, from, to, i + from.len())
    } else {
        seq![s[i]] + replaced_from(s, from, to, i + 1)
    }
}

/// The text with every occurrence of a nonempty `from` replaced by `to`; an
/// empty `from` changes nothing.
pub open spec fn replaced(s: Seq<char>, from: Seq<char>, to: Seq<char>) -> Seq<char> {
    if from.len() == 0 {
        s
    } else {
        replaced_from(s, from, to, 0)
    }
}

/// The text with every occurrence of a nonempty `from` replaced by `to`.
pub fn replace(s: &str, from: &str, to: &str) -> (r: String)
    ensures
        r@ == replaced(s@, from@, to@),
{
    let v: Vec<char> = chars_of(s);
    let f: Vec<char> = chars_of(from);
    if f.len() == 0 {
        return owned(s);
    }
    let mut r: String = String::new();
    let mut i: usize = 0;
    assert(r@ + replaced_from(v@, f@, to@, 0) =~= replaced_from(v@, f@, to@, 0));
    while i < v.len()
        invariant
            v@ == s@,
            f@ == from@,
            f@.len() > 0,
            i <= v@.len(),
            r@ + replaced_from(v@, f@, to@, i as int) == replaced_from(v@, f@, to@, 0),
        decreases v.len() - i,
    {
        let ghost before = r@;
        let ghost at = i as int;
        if found_at(&v, &f, i) {
            r.push_str(to);
            i += f.len();
            assert(before + (to@ + replaced_from(v@, f@, to@, i as int)) =~= (before + to@)
                + replaced_from(v@, f@, to@, i as int));
        } else {
            r.push(v[i]);
            i += 1;
            assert(before + (seq![v@[at]] + replaced_from(v@, f@, to@, i as int)) =~= before.push(
                v@[at],
            ) + replaced_from(v@, f@, to@, i as int));
        }
    }
    assert(replaced_from(v@, f@, to@, i as int) =~= Seq::empty());
    assert(r@ =~= r@ + replaced_from(v@, f@, to@, i as int));
    r
}

/// The pieces of `s` between the occurrences of `sep`, where the current piece
/// starts at `start` and the search goes on at `i`.
pub open spec fn pieces_from(s: Seq<char>, sep: Seq<char>, start: int, i: int) -> Seq<Seq<char>>
    decreases s.len() - i,
{
    if i < 0 || i >= s.len() || sep.len() == 0 {
        seq![s.subrange(start, s.len() as int)]
    } else if occurs_at(s, sep, i) {
        seq![s.subrange(start, i)] + pieces_from(s, sep, i + sep.len(), i + sep.len())
    } else {
        pieces_from(s, sep, start, i + 1)
    }
}

/// The pieces of `s` between the occurrences of a nonempty `sep`.
pub open spec fn pieces(s: Seq<char>, sep: Seq<char>) -> Seq<Seq<char>> {
    pieces_from(s, sep, 0, 0)
}

/// The pieces of `s` between the occurrences of a nonempty `sep`.
pub fn split(s: &str, sep: &str) -> (r: Vec<String>)
    requires
        sep@.len() > 0,
    ensures
        crate::value::texts(r@) == pieces(s@, sep@),
        r@.len() >= 1,
{
    let v: Vec<char> = chars_of(s);
    let p: Vec<char> = chars_of(sep);
    let mut r: Vec<String> = Vec::new();
    let mut start: usize = 0;
    let mut i: usize = 0;
    assert(crate::value::texts(r@) + pieces_from(v@, p@, 0, 0) =~= pieces(s@, sep@));
    while i < v.len()
        invariant
            v@ == s@,
            p@ == sep@,
            p@.len() > 0,
            start <= i <= v@.len(),
            crate::value::texts(r@) + pieces_from(v@, p@, start as int, i as int) == pieces(
                s@,
                sep@,
            ),
        decreases v.len() - i,
    {
        if found_at(&v, &p, i) {
            let ghost before = crate::value::texts(r@);
            let piece: String = string_of(&v, start, i);
            let ghost text = piece@;
            r.push(piece);
            assert(crate::value::texts(r@) =~= before.push(text));
            assert(before + (seq![text] + pieces_from(v@, p@, i + p@.len(), i + p@.len()))
                =~= before.push(text) + pieces_from(v@, p@, i + p@.len(), i + p@.len()));
            i += p.len();
            start = i;
        } else {
            i += 1;
        }
    }
    let ghost before = crate::value::texts(r@);
    let piece: String = string_of(&v, start, v.len());
    let ghost text = piece@;
    r.push(piece);
    assert(crate::value::texts(r@) =~= before.push(text));
    assert(before + seq![text] =~= before.push(text));
    r
}

/// The text of a piece chosen by a 1-based index; a negative index counts from
/// the end; 0, an index out of range and an empty separator give nothing.
pub open spec fn piece_at(s: Seq<char>, sep: Seq<char>, n: int) -> Seq<char> {
    if sep.len() == 0 || n == 0 {
        Seq::empty()
    } else {
        let ps = pieces(s, sep);
        let i = if n > 0 {
            n - 1
        } else {
            ps.len() + n
        };
        if 0 <= i < ps.len() {
            ps[i]
        } else {
            Seq::empty()
        }
    }
}

/// The piece chosen by a 1-based index (see [`piece_at`]).
pub fn split_part(s: &str, sep: &str, n: i64) -> (r: String)
    ensures
        r@ == piece_at(s@, sep@, n as int),
{
    if sep.is_empty() || n == 0 {
        return String::new();
    }
    let ps: Vec<String> = split(s, sep);
    let ghost all = pieces(s@, sep@);
    assert(all.len() == ps@.len());
    if n > 0 {
        if (n as u64 - 1) < ps.len() as u64 {
            let i: usize = (n - 1) as usize;
            assert(all[i as int] == ps@[i as int]@);
            return ps[i].clone();
        }
    } else {
        let back: u64 = (-(n as i128)) as u64;
        if back <= ps.len() as u64 {
            let i: usize = ps.len() - back as usize;
            assert(all[i as int] == ps@[i as int]@);
            return ps[i].clone();
        }
    }
    String::new()
}

// ---------------------------------------------------------------- slices

/// The characters `[from, from + count)` of a text, as far as it reaches.
pub open spec fn slice_text(s: Seq<char>, from: int, count: int) -> Seq<char> {
    if from >= s.len() {
        Seq::empty()
    } else if count >= s.len() - from {
        s.subrange(from, s.len() as int)
    } else {
        s.subrange(from, from + count)
    }
}

/// The characters `[from, from + count)` of a text, as far as it reaches.
pub fn slice(s: &str, from: u64, count: u64) -> (r: String)
    ensures
        r@ == slice_text(s@, from as int, count as int),
{
    let v: Vec<char> = chars_of(s);
    if from >= v.len() as u64 {
        return String::new();
    }
    let a: usize = from as usize;
    if count >= (v.len() - a) as u64 {
        string_of(&v, a, v.len())
    } else {
        string_of(&v, a, a + count as usize)
    }
}

// ---------------------------------------------------------------- paths

/// Is this a path separator? Both kinds count on every platform.
pub open spec fn is_separator(c: char) -> bool {
    c == '/' || c == '\\'
}

/// Where the last character satisfying `f` stands.
pub open spec fn last_where(s: Seq<char>, f: spec_fn(char) -> bool) -> Option<int>
    decreases s.len(),
{
    if s.len() == 0 {
        None
    } else if f(s.last()) {
        Some(s.len() - 1)
    } else {
        last_where(s.drop_last(), f)
    }
}

proof fn lemma_last_where(s: Seq<char>, f: spec_fn(char) -> bool)
    ensures
        match last_where(s, f) {
            Some(i) => 0 <= i < s.len(),
            None => true,
        },
    decreases s.len(),
{
    if s.len() > 0 && !f(s.last()) {
        lemma_last_where(s.drop_last(), f);
    }
}

/// The last separator of a path.
pub open spec fn last_separator(s: Seq<char>) -> Option<int> {
    last_where(s, |c: char| is_separator(c))
}

/// The last dot of a name.
pub open spec fn last_dot(s: Seq<char>) -> Option<int> {
    last_where(s, |c: char| c == '.')
}

fn find_last(v: &Vec<char>, dot: bool) -> (r: Option<usize>)
    ensures
        ({
            let want = if dot {
                last_dot(v@)
            } else {
                last_separator(v@)
            };
            match r {
                Some(i) => want == Some(i as int) && i < v@.len(),
                None => want is None,
            }
        }),
{
    let mut i: usize = v.len();
    assert(v@.take(v@.len() as int) =~= v@);
    while i > 0
        invariant
            i <= v@.len(),
            last_dot(v@) == last_dot(v@.take(i as int)) || !dot,
            last_separator(v@) == last_separator(v@.take(i as int)) || dot,
        decreases i,
    {
        assert(v@.take(i as int).drop_last() =~= v@.take(i - 1));
        let c: char = v[i - 1];
        if (dot && c == '.') || (!dot && (c == '/' || c == '\\')) {
            return Some(i - 1);
        }
        i -= 1;
    }
    None
}

/// The last segment of a path: what follows its last separator.
pub open spec fn basename(s: Seq<char>) -> Seq<char> {
    match last_separator(s) {
        Some(i) => s.subrange(i + 1, s.len() as int),
        None => s,
    }
}

/// The last segment of a path: what follows its last `/` or `\`.
pub fn path_basename(s: &str) -> (r: &str)
    ensures
        r@ == basename(s@),
{
    let v: Vec<char> = chars_of(s);
    let n: usize = v.len();
    match find_last(&v, false) {
        Some(i) => s.substring_char(i + 1, n),
        None => s,
    }
}

/// The last segment without its final extension; a leading dot belongs to the
/// name.
pub open spec fn stem(s: Seq<char>) -> Seq<char> {
    let base = basename(s);
    match last_dot(base) {
        Some(i) => if i > 0 {
            base.subrange(0, i)
        } else {
            base
        },
        None => base,
    }
}

/// The last segment without its final extension.
pub fn path_stem(s: &str) -> (r: String)
    ensures
        r@ == stem(s@),
{
    let base: &str = path_basename(s);
    let v: Vec<char> = chars_of(base);
    match find_last(&v, true) {
        Some(i) => if i > 0 {
            string_of(&v, 0, i)
        } else {
            owned(base)
        },
        None => owned(base),
    }
}

/// Everything before the last separator; `.` where there is none, and the root
/// itself for a path whose only separator leads it.
pub open spec fn dirname(s: Seq<char>) -> Seq<char> {
    match last_separator(s) {
        None => seq!['.'],
        Some(i) => if i == 0 {
            s.subrange(0, 1)
        } else {
            s.subrange(0, i)
        },
    }
}

/// Everything before the last separator (see [`dirname`]).
pub fn path_dirname(s: &str) -> (r: String)
    ensures
        r@ == dirname(s@),
{
    let v: Vec<char> = chars_of(s);
    match find_last(&v, false) {
        None => {
            let mut r: String = String::new();
            r.push('.');
            assert(r@ =~= seq!['.']);
            r
        },
        Some(i) => if i == 0 {
            string_of(&v, 0, 1)
        } else {
            string_of(&v, 0, i)
        },
    }
}

/// The first occurrence of `n` in `s` at or after `i`.
pub open spec fn first_from(s: Seq<char>, n: Seq<char>, i: int) -> Option<int>
    decreases s.len() + 1 - i,
{
    if i < 0 || i > s.len() {
        None
    } else if occurs_at(s, n, i) {
        Some(i)
    } else {
        first_from(s, n, i + 1)
    }
}

/// The first occurrence of `n` in `s`.
pub open spec fn first_of(s: Seq<char>, n: Seq<char>) -> Option<int> {
    first_from(s, n, 0)
}

/// The first occurrence of `n` in `s`.
pub fn find(s: &Vec<char>, n: &Vec<char>) -> (r: Option<usize>)
    ensures
        match r {
            Some(i) => first_of(s@, n@) == Some(i as int) && i + n@.len() <= s@.len(),
            None => first_of(s@, n@) is None,
        },
{
    let mut i: usize = 0;
    while i < s.len()
        invariant
            i <= s@.len(),
            first_of(s@, n@) == first_from(s@, n@, i as int),
        decreases s.len() - i,
    {
        if found_at(s, n, i) {
            return Some(i);
        }
        i += 1;
    }
    if found_at(s, n, i) {
        return Some(i);
    }
    proof {
        reveal_with_fuel(first_from, 2);
    }
    None
}

/// The transport scheme of a uri: `stdin` for `-`, what stands before `://`,
/// else `file`.
pub open spec fn scheme(uri: Seq<char>) -> Seq<char> {
    if uri == seq!['-'] {
        seq!['s', 't', 'd', 'i', 'n']
    } else {
        match first_of(uri, seq![':', '/', '/']) {
            Some(i) => uri.subrange(0, i),
            None => seq!['f', 'i', 'l', 'e'],
        }
    }
}

/// The transport scheme of a uri (see [`scheme`]).
pub fn uri_scheme(uri: &str) -> (r: &str)
    ensures
        r@ == scheme(uri@),
{
    proof {
        reveal_strlit("-");
        reveal_strlit("stdin");
        reveal_strlit("://");
        reveal_strlit("file");
        assert("-"@ =~= seq!['-']);
        assert("stdin"@ =~= seq!['s', 't', 'd', 'i', 'n']);
        assert("://"@ =~= seq![':', '/', '/']);
        assert("file"@ =~= seq!['f', 'i', 'l', 'e']);
    }
    if same_text(uri, "-") {
        return "stdin";
    }
    match find(&chars_of(uri), &chars_of("://")) {
        Some(i) => uri.substring_char(0, i),
        None => "file",
    }
}

// ---------------------------------------------------------------- integers

/// Is this an ASCII digit?
pub open spec fn is_digit(c: char) -> bool {
    '0' <= c <= '9'
}

/// The number written by the digits `s`.
pub open spec fn digits_value(s: Seq<char>) -> int
    decreases s.len(),
{
    if s.len() == 0 {
        0
    } else {
        10 * digits_value(s.drop_last()) + (s.last() as int - 48)
    }
}

/// Is every character a digit?
pub open spec fn all_digits(s: Seq<char>) -> bool {
    forall|i: int| 0 <= i < s.len() ==> is_digit(#[trigger] s[i])
}

/// The integer that a text writes: an optional sign and at least one digit.
pub open spec fn written_int(s: Seq<char>) -> Option<int> {
    if s.len() == 0 {
        None
    } else if s[0] == '-' || s[0] == '+' {
        let rest = s.drop_first();
        if rest.len() > 0 && all_digits(rest) {
            Some(
                if s[0] == '-' {
                    -digits_value(rest)
                } else {
                    digits_value(rest)
                },
            )
        } else {
            None
        }
    } else if all_digits(s) {
        Some(digits_value(s))
    } else {
        None
    }
}

/// The integer that a text writes, where it fits in `i64`.
pub open spec fn parsed_i64(s: Seq<char>) -> Option<i64> {
    match written_int(s) {
        Some(n) => if i64::MIN <= n <= i64::MAX {
            Some(n as i64)
        } else {
            None
        },
        None => None,
    }
}

/// Longer digit strings write larger numbers.
proof fn lemma_digits_grow(s: Seq<char>, k: int)
    requires
        all_digits(s),
        0 <= k <= s.len(),
    ensures
        0 <= digits_value(s.take(k)) <= digits_value(s),
    decreases s.len() - k,
{
    if k < s.len() {
        lemma_digits_grow(s, k + 1);
        assert(s.take(k + 1).drop_last() =~= s.take(k));
        assert(is_digit(s[k]));
        lemma_digits_nonneg(s.take(k));
    } else {
        assert(s.take(k) =~= s);
        lemma_digits_nonneg(s);
    }
}

proof fn lemma_digits_nonneg(s: Seq<char>)
    requires
        all_digits(s),
    ensures
        digits_value(s) >= 0,
    decreases s.len(),
{
    if s.len() > 0 {
        assert(is_digit(s.last()));
        assert(all_digits(s.drop_last()));
        lemma_digits_nonneg(s.drop_last());
    }
}

/// The value of the digits `v[from..]`: an error where one is no digit or there
/// are none; `None` where it is above `limit`.
pub fn read_digits(v: &Vec<char>, from: usize, limit: u64) -> (r: Result<Option<u64>, ()>)
    requires
        from <= v@.len(),
    ensures
        ({
            let s = v@.skip(from as int);
            match r {
                Ok(Some(n)) => s.len() > 0 && all_digits(s) && n == digits_value(s) && n <= limit,
                Ok(None) => s.len() > 0 && all_digits(s) && digits_value(s) > limit,
                Err(_) => s.len() == 0 || !all_digits(s),
            }
        }),
{
    let ghost s = v@.skip(from as int);
    if from == v.len() {
        return Err(());
    }
    let mut all: bool = true;
    for i in from..v.len()
        invariant
            s == v@.skip(from as int),
            from <= v@.len(),
            all == (forall|k: int| 0 <= k < i - from ==> is_digit(#[trigger] s[k])),
    {
        assert(s[i - from] == v@[i as int]);
        let c: char = v[i];
        if !('0' <= c && c <= '9') {
            all = false;
        }
    }
    if !all {
        return Err(());
    }
    let mut n: u64 = 0;
    assert(s.take(0) =~= Seq::<char>::empty());
    for i in from..v.len()
        invariant
            s == v@.skip(from as int),
            from <= v@.len(),
            s.len() > 0,
            all_digits(s),
            n == digits_value(s.take(i - from)),
            n <= limit,
    {
        assert(s[i - from] == v@[i as int]);
        assert(is_digit(s[i - from]));
        assert(s.take(i - from + 1).drop_last() =~= s.take(i - from));
        proof {
            lemma_digits_grow(s, i - from + 1);
        }
        let d: u64 = (v[i] as u32 - 48) as u64;
        let wide: u128 = n as u128 * 10 + d as u128;
        if wide > limit as u128 {
            return Ok(None);
        }
        n = wide as u64;
    }
    assert(s.take(s.len() as int) =~= s);
    Ok(Some(n))
}

/// The integer that a text writes: an optional sign and at least one digit;
/// `None` where it is none or does not fit.
pub fn parse_i64(s: &str) -> (r: Option<i64>)
    ensures
        r == parsed_i64(s@),
{
    let v: Vec<char> = chars_of(s);
    if v.len() == 0 {
        return None;
    }
    let c: char = v[0];
    if c == '-' {
        assert(v@.skip(1) =~= v@.drop_first());
        match read_digits(&v, 1, 0x8000_0000_0000_0000) {
            Ok(Some(n)) => Some((-(n as i128)) as i64),
            _ => None,
        }
    } else if c == '+' {
        assert(v@.skip(1) =~= v@.drop_first());
        match read_digits(&v, 1, 0x7fff_ffff_ffff_ffff) {
            Ok(Some(n)) => Some(n as i64),
            _ => None,
        }
    } else {
        assert(v@.skip(0) =~= v@);
        proof {
            if all_digits(v@) {
                lemma_digits_nonneg(v@);
            }
        }
        match read_digits(&v, 0, 0x7fff_ffff_ffff_ffff) {
            Ok(Some(n)) => Some(n as i64),
            _ => None,
        }
    }
}


/// The number that a text writes without a minus sign, up to `limit`.
pub open spec fn parsed_unsigned(s: Seq<char>, limit: int) -> Option<int> {
    if s.len() > 0 && s[0] == '-' {
        None
    } else {
        match written_int(s) {
            Some(n) => if n <= limit {
                Some(n)
            } else {
                None
            },
            None => None,
        }
    }
}

/// The number that a text writes without a minus sign, up to `limit` (see
/// [`parsed_unsigned`]).
pub fn parse_unsigned(s: &str, limit: u64) -> (r: Option<u64>)
    ensures
        match r {
            Some(n) => parsed_unsigned(s@, limit as int) == Some(n as int),
            None => parsed_unsigned(s@, limit as int) is None,
        },
{
    let v: Vec<char> = chars_of(s);
    if v.len() == 0 {
        return None;
    }
    let c: char = v[0];
    if c == '-' {
        return None;
    }
    let from: usize = if c == '+' {
        1
    } else {
        0
    };
    proof {
        assert(v@.skip(1) =~= v@.drop_first());
        assert(v@.skip(0) =~= v@);
    }
    match read_digits(&v, from, limit) {
        Ok(Some(n)) => Some(n),
        _ => None,
    }
}

// ------------------------------------------------------------ hexadecimal

/// The value of a hexadecimal digit.
pub open spec fn hex_digit(c: char) -> Option<int> {
    if '0' <= c <= '9' {
        Some(c as int - 48)
    } else if 'a' <= c <= 'f' {
        Some(c as int - 87)
    } else if 'A' <= c <= 'F' {
        Some(c as int - 55)
    } else {
        None
    }
}

/// The value of hexadecimal digits, where they are all that there is.
pub open spec fn hex_value(s: Seq<char>) -> Option<int>
    decreases s.len(),
{
    if s.len() == 0 {
        Some(0)
    } else {
        match (hex_value(s.drop_last()), hex_digit(s.last())) {
            (Some(n), Some(d)) => Some(16 * n + d),
            _ => None,
        }
    }
}

/// The number that a text writes with hexadecimal digits and an optional plus
/// sign, where it fits.
pub open spec fn hex_number(s: Seq<char>) -> Option<int> {
    let t = if s.len() > 0 && s[0] == '+' {
        s.skip(1)
    } else {
        s
    };
    if t.len() == 0 {
        None
    } else {
        match hex_value(t) {
            Some(n) => if n <= u64::MAX {
                Some(n)
            } else {
                None
            },
            None => None,
        }
    }
}

proof fn lemma_hex_prefix(s: Seq<char>, n: int)
    requires
        0 <= n <= s.len(),
    ensures
        hex_value(s) is Some ==> hex_value(s.take(n)) is Some && 0 <= hex_value(s.take(n))->Some_0
            <= hex_value(s)->Some_0,
    decreases s.len(),
{
    if n == s.len() {
        assert(s.take(n) =~= s);
        if s.len() > 0 {
            lemma_hex_prefix(s.drop_last(), s.len() - 1);
            assert(s.drop_last().take(s.len() - 1) =~= s.drop_last());
        }
    } else {
        assert(s.drop_last().take(n) =~= s.take(n));
        lemma_hex_prefix(s.drop_last(), n);
    }
}

fn read_hex_digit(c: char) -> (r: Option<u64>)
    ensures
        match r {
            Some(d) => hex_digit(c) == Some(d as int) && d < 16,
            None => hex_digit(c) is None,
        },
{
    if '0' <= c && c <= '9' {
        Some((c as u32 - 48) as u64)
    } else if 'a' <= c && c <= 'f' {
        Some((c as u32 - 87) as u64)
    } else if 'A' <= c && c <= 'F' {
        Some((c as u32 - 55) as u64)
    } else {
        None
    }
}

/// The number that a text writes with hexadecimal digits (see [`hex_number`]).
pub fn read_hex(s: &str) -> (r: Option<u64>)
    ensures
        match r {
            Some(n) => hex_number(s@) == Some(n as int),
            None => hex_number(s@) is None,
        },
{
    let v: Vec<char> = chars_of(s);
    let from: usize = if v.len() > 0 && v[0] == '+' {
        1
    } else {
        0
    };
    let ghost t = v@.skip(from as int);
    assert(v@.skip(0) =~= v@);
    if from == v.len() {
        return None;
    }
    let mut n: u64 = 0;
    assert(t.take(0) =~= Seq::empty());
    for i in from..v.len()
        invariant
            from <= v@.len(),
            t == v@.skip(from as int),
            t.len() > 0,
            t == if v@.len() > 0 && v@[0] == '+' {
                v@.skip(1)
            } else {
                v@
            },
            v@ == s@,
            hex_value(t.take(i - from)) == Some(n as int),
    {
        proof {
            assert(t.take(i - from + 1).drop_last() =~= t.take(i - from));
            assert(t[i - from] == v@[i as int]);
            lemma_hex_prefix(t, i - from + 1);
        }
        match read_hex_digit(v[i]) {
            None => {
                return None;
            },
            Some(d) => {
                let wide: u128 = n as u128 * 16 + d as u128;
                if wide > 0xffff_ffff_ffff_ffff {
                    return None;
                }
                n = wide as u64;
            },
        }
    }
    assert(t.take(t.len() as int) =~= t);
    Some(n)
}

} // verus!
