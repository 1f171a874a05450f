//! Strings as sequences of characters.
//!
//! `String` and `str` are read through their view, the sequence of their
//! characters; the executable helpers here move between the two.
use vstd::prelude::*;
use vstd::utf8::{encode_scalar, encode_utf8};

verus! {

/// `String::push` appends one character.
pub assume_specification[ String::push ](s: &mut String, c: char)
    ensures
        final(s)@ == old(s)@.push(c),
;

/// `String::push_str` appends the characters of its argument.
pub assume_specification[ String::push_str ](s: &mut String, t: &str)
    ensures
        final(s)@ == old(s)@ + t@,
;

/// Two `str`s are equal when they hold the same characters.
pub assume_specification[ <str as PartialEq>::eq ](a: &str, b: &str) -> (r: bool)
    ensures
        r == (a@ == b@),
;

/// `char::from_u32` gives the character with that code; none where the code is
/// a surrogate or above the largest one.
pub assume_specification[ char::from_u32 ](code: u32) -> (r: Option<char>)
    ensures
        r == if 0xd800 <= code <= 0xdfff || code > 0x10ffff {
            None
        } else {
            Some(code as char)
        },
;

/// The characters of `s`, in order.
pub fn chars_of(s: &str) -> (v: Vec<char>)
    ensures
        v@ == s@,
{
    let mut v: Vec<char> = Vec::new();
    for c in it: s.chars()
        invariant
            v@ == s@.take(it.index() as int),
            it.seq() == s@,
    {
        v.push(c);
    }
    v
}

/// The string made of the characters `v[from..to]`.
pub fn string_of(v: &Vec<char>, from: usize, to: usize) -> (s: String)
    requires
        from <= to <= v@.len(),
    ensures
        s@ == v@.subrange(from as int, to as int),
{
    let mut s: String = String::new();
    for i in from..to
        invariant
            from <= to <= v@.len(),
            s@ == v@.subrange(from as int, i as int),
    {
        s.push(v[i]);
        assert(v@.subrange(from as int, i + 1) =~= v@.subrange(from as int, i as int).push(v@[i as int]));
    }
    s
}

/// An owned copy of `s`.
pub fn owned(s: &str) -> (r: String)
    ensures
        r@ == s@,
{
    let mut r: String = String::new();
    r.push_str(s);
    assert(r@ =~= s@);
    r
}

/// Do the two strings hold the same characters?
pub fn same_text(a: &str, b: &str) -> (r: bool)
    ensures
        r == (a@ == b@),
{
    *a == *b
}

/// A character of ASCII is one byte, itself; another is bytes above ASCII.
pub proof fn lemma_scalar_bytes(c: char)
    ensures
        encode_scalar(c as u32).len() > 0,
        c as u32 == c as int,
        c as u32 <= 0x7f ==> c as u8 == c as int && encode_scalar(c as u32) == seq![c as u8],
        c as u32 > 0x7f ==> forall|i: int|
            0 <= i < encode_scalar(c as u32).len() ==> (#[trigger] encode_scalar(c as u32)[i])
                >= 0x80,
{
    let u = c as u32;
    assert(u <= 0x7F ==> (u & 0x7F) as u8 == u) by (bit_vector);
    assert(0xC0u8 | ((u >> 6) & 0x1F) as u8 >= 0x80) by (bit_vector);
    assert(0xE0u8 | ((u >> 12) & 0x0F) as u8 >= 0x80) by (bit_vector);
    assert(0xF0u8 | ((u >> 18) & 0x7) as u8 >= 0x80) by (bit_vector);
    assert(0x80u8 | (u & 0x3F) as u8 >= 0x80) by (bit_vector);
    assert(0x80u8 | ((u >> 6) & 0x3F) as u8 >= 0x80) by (bit_vector);
    assert(0x80u8 | ((u >> 12) & 0x3F) as u8 >= 0x80) by (bit_vector);
    if u <= 0x7f {
        assert(encode_scalar(u) =~= seq![c as u8]);
    }
}

/// A byte of ASCII stands among the bytes of a text where the character stands in
/// the text.
pub proof fn lemma_ascii_bytes(t: Seq<char>, c: char)
    requires
        c as u32 <= 0x7f,
    ensures
        encode_utf8(t).contains(c as u8) == t.contains(c),
    decreases t.len(),
{
    if t.len() > 0 {
        let rest = t.drop_first();
        lemma_ascii_bytes(rest, c);
        lemma_scalar_bytes(t[0]);
        lemma_scalar_bytes(c);
        let (x, y) = (encode_scalar(t[0] as u32), encode_utf8(rest));
        assert(encode_utf8(t) == x + y);
        assert(t =~= seq![t[0]] + rest);
        if encode_utf8(t).contains(c as u8) {
            let k = choose|k: int| 0 <= k < (x + y).len() && (x + y)[k] == c as u8;
            if k < x.len() {
                assert(x[k] == c as u8);
                assert(t[0] as u32 <= 0x7f);
                assert(x[0] == t[0] as u8);
                assert(t[0] as int == c as int);
                assert(t[0] == c);
            } else {
                assert(y[k - x.len()] == c as u8);
                assert(y.contains(c as u8));
                let m = choose|m: int| 0 <= m < rest.len() && rest[m] == c;
                assert(t[m + 1] == c);
            }
        }
        if t.contains(c) {
            let k = choose|k: int| 0 <= k < t.len() && t[k] == c;
            if k == 0 {
                assert((x + y)[0] == c as u8);
            } else {
                assert(rest[k - 1] == c);
                assert(rest.contains(c));
                let m = choose|m: int| 0 <= m < y.len() && y[m] == c as u8;
                assert((x + y)[m + x.len()] == c as u8);
            }
        }
    }
}

/// One line: its only newline is its last character.
pub open spec fn one_line(h: Seq<char>) -> bool {
    &&& h.len() > 0
    &&& h.last() == '\n'
    &&& forall|i: int| 0 <= i < h.len() - 1 ==> (#[trigger] h[i]) != '\n'
}

/// The decimal digit of value `d`.
pub open spec fn digit_char(d: int) -> char {
    (48 + d) as u8 as char
}

/// The decimal numeral of `n`, without leading zeros.
pub open spec fn nat_text(n: nat) -> Seq<char>
    decreases n,
{
    if n < 10 {
        seq![digit_char(n as int)]
    } else {
        nat_text(n / 10).push(digit_char((n % 10) as int))
    }
}

/// The decimal numeral of `n`, with a leading `-` when negative.
pub open spec fn int_text(n: int) -> Seq<char> {
    if n < 0 {
        seq!['-'] + nat_text((-n) as nat)
    } else {
        nat_text(n as nat)
    }
}

/// The digit of value `d`, executably.
pub fn digit(d: u8) -> (c: char)
    requires
        d < 10,
    ensures
        c == digit_char(d as int),
{
    (48 + d) as char
}

/// The decimal numeral of a 128-bit natural number.
pub fn u128_text(n: u128) -> (s: String)
    ensures
        s@ == nat_text(n as nat),
    decreases n,
{
    if n < 10 {
        let mut s: String = String::new();
        s.push(digit(n as u8));
        assert(s@ =~= nat_text(n as nat));
        s
    } else {
        let mut s: String = u128_text(n / 10);
        s.push(digit((n % 10) as u8));
        s
    }
}

/// The decimal numeral of a 64-bit natural number.
pub fn u64_text(n: u64) -> (s: String)
    ensures
        s@ == nat_text(n as nat),
{
    u128_text(n as u128)
}

/// The decimal numeral of a 64-bit integer.
pub fn i64_text(n: i64) -> (s: String)
    ensures
        s@ == int_text(n as int),
{
    if n < 0 {
        let m: u128 = (-(n as i128)) as u128;
        let mut s: String = String::new();
        s.push('-');
        let t: String = u128_text(m);
        s.push_str(t.as_str());
        assert(s@ =~= int_text(n as int));
        s
    } else {
        u128_text(n as u128)
    }
}

/// A numeral is never empty.
pub proof fn lemma_nat_text_len(n: nat)
    ensures
        nat_text(n).len() >= 1,
    decreases n,
{
    if n >= 10 {
        lemma_nat_text_len(n / 10);
    }
}

} // verus!
