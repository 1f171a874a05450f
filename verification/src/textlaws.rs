//! What the functions of texts and numbers give, told by characters and digits, and
//! what a conversion keeps.
use vstd::prelude::*;
use crate::cast::{cast, cast_cell, cast_lane, clean, Outcome};
use crate::chunk::{Batch, Lane};
use crate::eval::{eval, eval_all, func_out};
use crate::expr::{Expr, Func};
use crate::float::{float_of, int_bits, F64};
use crate::func::{day_part, of_text1, skipped, taken, text1, tidy};
use crate::host::{date_answer, float_answer, int_answer, text_answer, tick_list_answer, ticks_answer, HostOp, Log, Query};
use crate::orderlaws::{lemma_integer_double, lemma_small_bits};
use crate::pattern::{class_close, class_has, glob, glob_at, wild, wild_at};
use crate::readback::{lemma_digits_of, lemma_int_parses};
use crate::strings::{basename, first_from, is_space, last_separator, last_where, lowercased, occurs, occurs_at, pieces, pieces_from, replaced, replaced_from, scheme, slice_text, stem, trim_end, trim_start, trimmed, uppercased};
use crate::text::{int_text, nat_text};
use crate::value::{fits, DataType, Date, DateTime, Datum, Duration, TimeUnit};

verus! {

// ----------------------------------------------------------------- arguments

/// The arguments have these values, without a failure.
pub open spec fn given(args: Vec<Expr>, vals: Seq<Datum>, b: Batch, row: int, log: Log) -> bool {
    &&& args@.len() == vals.len()
    &&& forall|i: int|
        0 <= i < vals.len() ==> eval(#[trigger] args@[i], b, row, log) == clean(vals[i])
}

/// The value of a function call.
pub open spec fn call(func: Func, args: Vec<Expr>, b: Batch, row: int, log: Log) -> Outcome {
    eval(Expr::Func { func, args }, b, row, log)
}

proof fn lemma_call(func: Func, args: Vec<Expr>, vals: Seq<Datum>, b: Batch, row: int, log: Log)
    requires
        given(args, vals, b, row, log),
    ensures
        ({
            let outs = eval_all(args, b, row, log);
            &&& call(func, args, b, row, log) == func_out(func, outs, log)
            &&& outs.len() == vals.len()
            &&& forall|i: int| 0 <= i < vals.len() ==> #[trigger] outs[i] == clean(vals[i])
        }),
{
    let outs = eval_all(args, b, row, log);
    assert forall|i: int| 0 <= i < vals.len() implies #[trigger] outs[i] == clean(vals[i]) by {
        assert(eval(args@[i], b, row, log) == clean(vals[i]));
    }
}

// --------------------------------------------------------------------- texts

/// Printing ASCII is no white space; tab, line feed, vertical tab, form feed,
/// carriage return, space and the no-break space are.
pub proof fn lemma_white_space(c: char)
    ensures
        0x21 <= c as u32 <= 0x7e ==> !is_space(c),
        c == ' ' || c == '\t' || c == '\n' || c == '\r' || c == '\x0b' || c == '\x0c' || c
            == '\u{a0}' ==> is_space(c),
        c as u32 <= 0x8 ==> !is_space(c),
{
}

/// One text is another without the white space at its ends: what stands before and
/// behind it is white space, and its own ends are not.
pub open spec fn trims(s: Seq<char>, t: Seq<char>, i: int) -> bool {
    &&& 0 <= i <= i + t.len() <= s.len()
    &&& t == s.subrange(i, i + t.len())
    &&& forall|k: int| 0 <= k < i ==> is_space(#[trigger] s[k])
    &&& forall|k: int| i + t.len() <= k < s.len() ==> is_space(#[trigger] s[k])
    &&& t.len() > 0 ==> !is_space(t[0]) && !is_space(t.last())
}

proof fn lemma_trim_start(s: Seq<char>)
    ensures
        ({
            let t = trim_start(s);
            let i = s.len() - t.len();
            &&& 0 <= i <= s.len()
            &&& t == s.subrange(i, s.len() as int)
            &&& forall|k: int| 0 <= k < i ==> is_space(#[trigger] s[k])
            &&& t.len() > 0 ==> !is_space(t[0])
        }),
    decreases s.len(),
{
    if s.len() > 0 && is_space(s[0]) {
        let rest = s.drop_first();
        lemma_trim_start(rest);
        let t = trim_start(s);
        let i = s.len() - t.len();
        assert(t =~= s.subrange(i, s.len() as int));
        assert forall|k: int| 0 <= k < i implies is_space(#[trigger] s[k]) by {
            if k > 0 {
                assert(is_space(rest[k - 1]));
            }
        }
    } else {
        assert(s =~= s.subrange(0, s.len() as int));
    }
}

proof fn lemma_trim_end(s: Seq<char>)
    ensures
        ({
            let t = trim_end(s);
            &&& t.len() <= s.len()
            &&& t == s.subrange(0, t.len() as int)
            &&& forall|k: int| t.len() <= k < s.len() ==> is_space(#[trigger] s[k])
            &&& t.len() > 0 ==> !is_space(t.last())
        }),
    decreases s.len(),
{
    if s.len() > 0 && is_space(s.last()) {
        let rest = s.drop_last();
        lemma_trim_end(rest);
        let t = trim_end(s);
        assert(t =~= s.subrange(0, t.len() as int));
        assert forall|k: int| t.len() <= k < s.len() implies is_space(#[trigger] s[k]) by {
            if k < s.len() - 1 {
                assert(is_space(rest[k]));
            }
        }
    } else {
        assert(s =~= s.subrange(0, s.len() as int));
    }
}

/// A trimmed text is the text between the white space at its ends.
pub proof fn lemma_trimmed_between(s: Seq<char>)
    ensures
        exists|i: int| #[trigger] trims(s, trimmed(s), i),
{
    let a = trim_start(s);
    lemma_trim_start(s);
    lemma_trim_end(a);
    let t = trimmed(s);
    let i = s.len() - a.len();
    assert(t =~= s.subrange(i, i + t.len()));
    assert forall|k: int| i + t.len() <= k < s.len() implies is_space(#[trigger] s[k]) by {
        assert(is_space(a[k - i]));
    }
    if t.len() > 0 {
        assert(t[0] == a[0]);
    }
    assert(trims(s, t, i));
}

/// One text stands in another at a place: character by character.
pub open spec fn stands_at(h: Seq<char>, n: Seq<char>, i: int) -> bool {
    &&& 0 <= i <= h.len() - n.len()
    &&& forall|k: int| 0 <= k < n.len() ==> h[i + k] == #[trigger] n[k]
}

proof fn lemma_stands(h: Seq<char>, n: Seq<char>, i: int)
    ensures
        occurs_at(h, n, i) == stands_at(h, n, i),
{
    if occurs_at(h, n, i) {
        assert forall|k: int| 0 <= k < n.len() implies h[i + k] == #[trigger] n[k] by {
            assert(h.subrange(i, i + n.len())[k] == h[i + k]);
        }
    }
    if stands_at(h, n, i) {
        assert(h.subrange(i, i + n.len()) =~= n);
    }
}

proof fn lemma_one_text(func: Func, args: Vec<Expr>, s: Seq<char>, b: Batch, row: int, log: Log)
    requires
        given(args, seq![Datum::Str(s)], b, row, log),
        of_text1(func),
    ensures
        call(func, args, b, row, log) == clean(text1(func, s)),
{
    lemma_call(func, args, seq![Datum::Str(s)], b, row, log);
    let outs = eval_all(args, b, row, log);
    assert(outs[0] == clean(Datum::Str(s)));
}

/// `trim` cuts the white space at both ends off.
pub proof fn lemma_trim_call(args: Vec<Expr>, s: Seq<char>, b: Batch, row: int, log: Log)
    requires
        given(args, seq![Datum::Str(s)], b, row, log),
    ensures
        call(Func::Trim, args, b, row, log) matches Ok((Datum::Str(t), fails)) && fails == 0
            && exists|i: int| #[trigger] trims(s, t, i),
{
    let out = call(Func::Trim, args, b, row, log);
    lemma_one_text(Func::Trim, args, s, b, row, log);
    lemma_trimmed_between(s);
    let i = choose|i: int| #[trigger] trims(s, trimmed(s), i);
    assert(out == clean(Datum::Str(trimmed(s))));
    assert(out->Ok_0.0->Str_0 == trimmed(s));
    assert(trims(s, out->Ok_0.0->Str_0, i));
}

/// The functions of one text: `len` is the number of characters, `upper` and `lower`
/// change the case.
pub proof fn lemma_text_functions(args: Vec<Expr>, s: Seq<char>, b: Batch, row: int, log: Log)
    requires
        given(args, seq![Datum::Str(s)], b, row, log),
    ensures
        s.len() <= i64::MAX ==> (call(Func::Len, args, b, row, log) matches Ok(
            (Datum::I64(n), fails),
        ) && fails == 0 && n == s.len()),
        call(Func::Upper, args, b, row, log) == clean(Datum::Str(uppercased(s))),
        call(Func::Lower, args, b, row, log) == clean(Datum::Str(lowercased(s))),
{
    lemma_one_text(Func::Len, args, s, b, row, log);
    lemma_one_text(Func::Upper, args, s, b, row, log);
    lemma_one_text(Func::Lower, args, s, b, row, log);
}

/// `contains` holds where the second text stands anywhere in the first, `starts_with`
/// where it stands at the start, `ends_with` where it stands at the end.
pub proof fn lemma_text_predicates(
    args: Vec<Expr>,
    h: Seq<char>,
    n: Seq<char>,
    b: Batch,
    row: int,
    log: Log,
)
    requires
        given(args, seq![Datum::Str(h), Datum::Str(n)], b, row, log),
    ensures
        call(Func::Contains, args, b, row, log) == clean(
            Datum::Bool(exists|i: int| #[trigger] stands_at(h, n, i)),
        ),
        call(Func::StartsWith, args, b, row, log) == clean(Datum::Bool(stands_at(h, n, 0))),
        call(Func::EndsWith, args, b, row, log) == clean(
            Datum::Bool(stands_at(h, n, h.len() - n.len())),
        ),
{
    let vals = seq![Datum::Str(h), Datum::Str(n)];
    lemma_call(Func::Contains, args, vals, b, row, log);
    lemma_call(Func::StartsWith, args, vals, b, row, log);
    lemma_call(Func::EndsWith, args, vals, b, row, log);
    lemma_stands(h, n, 0);
    lemma_stands(h, n, h.len() - n.len());
    if occurs(h, n) {
        let i = choose|i: int| #[trigger] occurs_at(h, n, i);
        lemma_stands(h, n, i);
        assert(stands_at(h, n, i));
    }
    if exists|i: int| #[trigger] stands_at(h, n, i) {
        let i = choose|i: int| #[trigger] stands_at(h, n, i);
        lemma_stands(h, n, i);
        assert(occurs_at(h, n, i));
    }
}

proof fn lemma_substr_call(
    args: Vec<Expr>,
    s: Seq<char>,
    n: i64,
    c: i64,
    x: F64,
    y: F64,
    b: Batch,
    row: int,
    log: Log,
)
    requires
        x == float_of(n as int),
        y == float_of(c as int),
    ensures
        given(args, seq![Datum::Str(s), Datum::I64(n), Datum::I64(c)], b, row, log) ==> call(
            Func::Substr,
            args,
            b,
            row,
            log,
        ) == clean(Datum::Str(slice_text(s, skipped(x), taken(y)))),
        given(args, seq![Datum::Str(s), Datum::I64(n)], b, row, log) ==> call(
            Func::Substr,
            args,
            b,
            row,
            log,
        ) == clean(Datum::Str(slice_text(s, skipped(x), u64::MAX as int))),
{
    let three = seq![Datum::Str(s), Datum::I64(n), Datum::I64(c)];
    let two = seq![Datum::Str(s), Datum::I64(n)];
    let outs = eval_all(args, b, row, log);
    if given(args, three, b, row, log) {
        lemma_call(Func::Substr, args, three, b, row, log);
        assert(outs[0] == clean(Datum::Str(s)));
        assert(outs[1] == clean(Datum::I64(n)));
        assert(outs[2] == clean(Datum::I64(c)));
    }
    if given(args, two, b, row, log) {
        lemma_call(Func::Substr, args, two, b, row, log);
        assert(outs[0] == clean(Datum::Str(s)));
        assert(outs[1] == clean(Datum::I64(n)));
    }
}

/// `substr` from the `n`-th character on, counted from 1, for `c` characters: as many
/// of them as there are. A start of 1 or less is the first; without a count it goes
/// to the end.
pub proof fn lemma_substr_characters(
    args: Vec<Expr>,
    s: Seq<char>,
    n: i64,
    c: i64,
    b: Batch,
    row: int,
    log: Log,
)
    requires
        -0x20_0000_0000_0000 <= n <= 0x20_0000_0000_0000,
        -0x20_0000_0000_0000 <= c <= 0x20_0000_0000_0000,
        s.len() <= u64::MAX,
    ensures
        ({
            let from = if n < 1 {
                0
            } else {
                n - 1
            };
            let left = if from < s.len() {
                s.len() - from
            } else {
                0
            };
            let most = if c < 0 {
                0
            } else {
                c as int
            };
            &&& given(args, seq![Datum::Str(s), Datum::I64(n), Datum::I64(c)], b, row, log) ==> (call(
                Func::Substr,
                args,
                b,
                row,
                log,
            ) matches Ok((Datum::Str(t), fails)) && fails == 0 && t.len() == (if most < left {
                most
            } else {
                left
            }) && forall|k: int| 0 <= k < t.len() ==> #[trigger] t[k] == s[from + k])
            &&& given(args, seq![Datum::Str(s), Datum::I64(n)], b, row, log) ==> (call(
                Func::Substr,
                args,
                b,
                row,
                log,
            ) matches Ok((Datum::Str(t), fails)) && fails == 0 && t.len() == left && forall|k: int|
                0 <= k < t.len() ==> #[trigger] t[k] == s[from + k])
        }),
{
    lemma_integer_double(n as int);
    lemma_integer_double(c as int);
    let (x, y) = (float_of(n as int), float_of(c as int));
    lemma_substr_call(args, s, n, c, x, y, b, row, log);
    let from = skipped(x);
    let left = if from < s.len() {
        s.len() - from
    } else {
        0
    };
    let t = slice_text(s, from, taken(y));
    let u = slice_text(s, from, u64::MAX as int);
    assert(t.len() == if taken(y) < left {
        taken(y)
    } else {
        left
    });
    assert(u.len() == left);
}

/// A text falls apart at the first place where another stands in it.
pub open spec fn first_cut(s: Seq<char>, n: Seq<char>, p: Seq<char>, q: Seq<char>) -> bool {
    &&& s == p + n + q
    &&& forall|i: int| 0 <= i < p.len() ==> !(#[trigger] stands_at(s, n, i))
}

/// Does the one text stand nowhere in the other?
pub open spec fn stands_nowhere(s: Seq<char>, n: Seq<char>) -> bool {
    forall|i: int| !(#[trigger] stands_at(s, n, i))
}

proof fn lemma_replaced_part(s: Seq<char>, from: Seq<char>, to: Seq<char>, p: Seq<char>, q: Seq<char>, i: int)
    requires
        from.len() > 0,
        s == p + q,
        p.len() <= i <= s.len(),
    ensures
        replaced_from(s, from, to, i) == replaced_from(q, from, to, i - p.len()),
    decreases s.len() - i,
{
    let j = i - p.len();
    if i < s.len() {
        lemma_stands(s, from, i);
        lemma_stands(q, from, j);
        assert(stands_at(s, from, i) == stands_at(q, from, j)) by {
            if stands_at(s, from, i) {
                assert forall|k: int| 0 <= k < from.len() implies q[j + k] == #[trigger] from[k] by {
                    assert(s[i + k] == from[k]);
                }
            }
            if stands_at(q, from, j) {
                assert forall|k: int| 0 <= k < from.len() implies s[i + k] == #[trigger] from[k] by {
                    assert(q[j + k] == from[k]);
                }
            }
        }
        if stands_at(s, from, i) {
            lemma_replaced_part(s, from, to, p, q, i + from.len());
        } else {
            lemma_replaced_part(s, from, to, p, q, i + 1);
        }
    } else {
        assert(s.skip(i) =~= q.skip(j));
    }
}

proof fn lemma_replaced_lead(s: Seq<char>, from: Seq<char>, to: Seq<char>, i: int, e: int)
    requires
        from.len() > 0,
        0 <= i <= e <= s.len(),
        forall|k: int| i <= k < e ==> !(#[trigger] stands_at(s, from, k)),
    ensures
        replaced_from(s, from, to, i) == s.subrange(i, e) + replaced_from(s, from, to, e),
    decreases e - i,
{
    if i < e {
        lemma_stands(s, from, i);
        assert(!stands_at(s, from, i));
        lemma_replaced_lead(s, from, to, i + 1, e);
        assert(seq![s[i]] + (s.subrange(i + 1, e) + replaced_from(s, from, to, e)) =~= s.subrange(
            i,
            e,
        ) + replaced_from(s, from, to, e));
    } else {
        assert(s.subrange(i, e) + replaced_from(s, from, to, e) =~= replaced_from(s, from, to, e));
    }
}

/// `replace` puts the new text in the place of the old one where it stands first, and
/// goes on behind it; a text in which the old one does not stand stays as it is, and
/// so does any text where the old one is empty.
pub proof fn lemma_replaced_each(s: Seq<char>, from: Seq<char>, to: Seq<char>, p: Seq<char>, q: Seq<char>)
    ensures
        from.len() == 0 ==> replaced(s, from, to) == s,
        from.len() > 0 && stands_nowhere(s, from) ==> replaced(s, from, to) == s,
        from.len() > 0 && first_cut(s, from, p, q) ==> replaced(s, from, to) == p + to + replaced(
            q,
            from,
            to,
        ),
{
    if from.len() > 0 && stands_nowhere(s, from) {
        lemma_replaced_lead(s, from, to, 0, s.len() as int);
        assert(replaced(s, from, to) =~= s);
    }
    if from.len() > 0 && first_cut(s, from, p, q) {
        let e = p.len() as int;
        lemma_replaced_lead(s, from, to, 0, e);
        assert(s.subrange(0, e) =~= p);
        assert forall|k: int| 0 <= k < from.len() implies s[e + k] == #[trigger] from[k] by {}
        assert(stands_at(s, from, e));
        lemma_stands(s, from, e);
        assert(s == (p + from) + q);
        lemma_replaced_part(s, from, to, p + from, q, e + from.len());
        assert(replaced(s, from, to) =~= p + to + replaced(q, from, to));
    }
}

/// `replace` as a call is [`replaced`] of the three texts.
pub proof fn lemma_replace_call(
    args: Vec<Expr>,
    s: Seq<char>,
    from: Seq<char>,
    to: Seq<char>,
    b: Batch,
    row: int,
    log: Log,
)
    requires
        given(args, seq![Datum::Str(s), Datum::Str(from), Datum::Str(to)], b, row, log),
    ensures
        call(Func::Replace, args, b, row, log) == clean(Datum::Str(replaced(s, from, to))),
{
    lemma_call(
        Func::Replace,
        args,
        seq![Datum::Str(s), Datum::Str(from), Datum::Str(to)],
        b,
        row,
        log,
    );
}

proof fn lemma_pieces_part(s: Seq<char>, sep: Seq<char>, p: Seq<char>, q: Seq<char>, start: int, i: int)
    requires
        sep.len() > 0,
        s == p + q,
        p.len() <= start <= i <= s.len(),
    ensures
        pieces_from(s, sep, start, i) == pieces_from(q, sep, start - p.len(), i - p.len()),
    decreases s.len() - i,
{
    let (a, j) = (start - p.len(), i - p.len());
    if i < s.len() {
        lemma_stands(s, sep, i);
        lemma_stands(q, sep, j);
        assert(stands_at(s, sep, i) == stands_at(q, sep, j)) by {
            if stands_at(s, sep, i) {
                assert forall|k: int| 0 <= k < sep.len() implies q[j + k] == #[trigger] sep[k] by {
                    assert(s[i + k] == sep[k]);
                }
            }
            if stands_at(q, sep, j) {
                assert forall|k: int| 0 <= k < sep.len() implies s[i + k] == #[trigger] sep[k] by {
                    assert(q[j + k] == sep[k]);
                }
            }
        }
        if stands_at(s, sep, i) {
            lemma_pieces_part(s, sep, p, q, i + sep.len(), i + sep.len());
            assert(s.subrange(start, i) =~= q.subrange(a, j));
        } else {
            lemma_pieces_part(s, sep, p, q, start, i + 1);
        }
    } else {
        assert(s.subrange(start, s.len() as int) =~= q.subrange(a, q.len() as int));
    }
}

proof fn lemma_pieces_lead(s: Seq<char>, sep: Seq<char>, i: int, e: int)
    requires
        sep.len() > 0,
        0 <= i <= e <= s.len(),
        forall|k: int| i <= k < e ==> !(#[trigger] stands_at(s, sep, k)),
    ensures
        pieces_from(s, sep, 0, i) == pieces_from(s, sep, 0, e),
    decreases e - i,
{
    if i < e {
        lemma_stands(s, sep, i);
        assert(!stands_at(s, sep, i));
        lemma_pieces_lead(s, sep, i + 1, e);
    }
}

/// The pieces of a text: what stands before the first separator, followed by the
/// pieces of what stands behind it; a text without the separator is one piece.
pub proof fn lemma_pieces_each(s: Seq<char>, sep: Seq<char>, p: Seq<char>, q: Seq<char>)
    requires
        sep.len() > 0,
    ensures
        stands_nowhere(s, sep) ==> pieces(s, sep) == seq![s],
        first_cut(s, sep, p, q) ==> pieces(s, sep) == seq![p] + pieces(q, sep),
{
    if stands_nowhere(s, sep) {
        lemma_pieces_lead(s, sep, 0, s.len() as int);
        assert(s.subrange(0, s.len() as int) =~= s);
    }
    if first_cut(s, sep, p, q) {
        let e = p.len() as int;
        lemma_pieces_lead(s, sep, 0, e);
        assert forall|k: int| 0 <= k < sep.len() implies s[e + k] == #[trigger] sep[k] by {}
        assert(stands_at(s, sep, e));
        lemma_stands(s, sep, e);
        assert(s.subrange(0, e) =~= p);
        assert(s == (p + sep) + q);
        lemma_pieces_part(s, sep, p + sep, q, e + sep.len(), e + sep.len());
    }
}

/// `split_part` is the piece of that number, from 1 on, or from the end where it is
/// negative; there is nothing at 0 and past either end.
pub proof fn lemma_split_part_is_piece(
    args: Vec<Expr>,
    s: Seq<char>,
    sep: Seq<char>,
    n: i64,
    b: Batch,
    row: int,
    log: Log,
)
    requires
        sep.len() > 0,
        -0x20_0000_0000_0000 <= n <= 0x20_0000_0000_0000,
        given(args, seq![Datum::Str(s), Datum::Str(sep), Datum::I64(n)], b, row, log),
    ensures
        call(Func::SplitPart, args, b, row, log) matches Ok((Datum::Str(t), fails)) && fails == 0 && {
            let ps = pieces(s, sep);
            &&& 1 <= n <= ps.len() ==> t == ps[n - 1]
            &&& -ps.len() <= n <= -1 ==> t == ps[ps.len() + n]
            &&& n == 0 || n > ps.len() || n < -ps.len() ==> t.len() == 0
        },
{
    lemma_integer_double(n as int);
    lemma_call(
        Func::SplitPart,
        args,
        seq![Datum::Str(s), Datum::Str(sep), Datum::I64(n)],
        b,
        row,
        log,
    );
}

/// A path falls apart at its last separator, of either kind.
pub open spec fn last_cut(s: Seq<char>, i: int) -> bool {
    &&& 0 <= i < s.len()
    &&& s[i] == '/' || s[i] == '\\'
    &&& forall|k: int| i < k < s.len() ==> (#[trigger] s[k]) != '/' && s[k] != '\\'
}

/// No separator stands in the path.
pub open spec fn uncut(s: Seq<char>) -> bool {
    forall|k: int| 0 <= k < s.len() ==> (#[trigger] s[k]) != '/' && s[k] != '\\'
}

proof fn lemma_last_stands(s: Seq<char>, f: spec_fn(char) -> bool)
    ensures
        match last_where(s, f) {
            Some(i) => 0 <= i < s.len() && f(s[i]) && forall|k: int|
                i < k < s.len() ==> !f(#[trigger] s[k]),
            None => forall|k: int| 0 <= k < s.len() ==> !f(#[trigger] s[k]),
        },
    decreases s.len(),
{
    if s.len() > 0 && !f(s.last()) {
        let up = s.drop_last();
        lemma_last_stands(up, f);
        assert forall|k: int| 0 <= k < up.len() implies up[k] == #[trigger] s[k] by {}
    }
}

/// The parts of a path: its name behind the last separator, and what stands before
/// it; a path without one is all name, in `.`; and the root stays.
pub proof fn lemma_path_parts(args: Vec<Expr>, s: Seq<char>, i: int, b: Batch, row: int, log: Log)
    requires
        given(args, seq![Datum::Str(s)], b, row, log),
        last_cut(s, i) || uncut(s),
    ensures
        last_cut(s, i) ==> call(Func::Basename, args, b, row, log) == clean(
            Datum::Str(s.subrange(i + 1, s.len() as int)),
        ),
        last_cut(s, i) && i > 0 ==> call(Func::Dirname, args, b, row, log) == clean(
            Datum::Str(s.subrange(0, i)),
        ),
        last_cut(s, i) && i == 0 ==> call(Func::Dirname, args, b, row, log) == clean(
            Datum::Str(seq![s[0]]),
        ),
        uncut(s) ==> call(Func::Basename, args, b, row, log) == clean(Datum::Str(s)),
        uncut(s) ==> call(Func::Dirname, args, b, row, log) == clean(Datum::Str(seq!['.'])),
{
    let vals = seq![Datum::Str(s)];
    lemma_call(Func::Basename, args, vals, b, row, log);
    lemma_call(Func::Dirname, args, vals, b, row, log);
    let f = |c: char| crate::strings::is_separator(c);
    lemma_last_stands(s, f);
    if last_cut(s, i) {
        assert(f(s[i]));
        let j = last_separator(s)->0;
        if j < i {
            assert(!f(s[i]));
        } else if j > i {
            assert(f(s[j]));
        }
        assert(s.subrange(0, 1) =~= seq![s[0]]);
    } else {
        if let Some(j) = last_separator(s) {
            assert(f(s[j]));
        }
    }
}

/// The stem of a path is its name without what stands from the last dot on; a dot
/// that leads the name is part of it, and a name without a dot is all stem.
pub proof fn lemma_stem_before_dot(args: Vec<Expr>, s: Seq<char>, b: Batch, row: int, log: Log)
    requires
        given(args, seq![Datum::Str(s)], b, row, log),
    ensures
        call(Func::Stem, args, b, row, log) matches Ok((Datum::Str(t), fails)) && fails == 0 && {
            let name = basename(s);
            &&& t.len() <= name.len()
            &&& t == name.subrange(0, t.len() as int)
            &&& t.len() < name.len() ==> {
                &&& t.len() > 0
                &&& name[t.len() as int] == '.'
                &&& forall|k: int| t.len() < k < name.len() ==> (#[trigger] name[k]) != '.'
            }
            &&& t.len() == name.len() ==> forall|k: int|
                0 < k < name.len() ==> (#[trigger] name[k]) != '.'
        },
{
    lemma_call(Func::Stem, args, seq![Datum::Str(s)], b, row, log);
    let name = basename(s);
    let f = |c: char| c == '.';
    lemma_last_stands(name, f);
    let t = stem(s);
    assert(t =~= name.subrange(0, t.len() as int));
    assert forall|k: int| t.len() < k < name.len() implies (#[trigger] name[k]) != '.' by {
        if t.len() < name.len() {
            assert(!f(name[k]));
        }
    }
    if t.len() == name.len() {
        assert forall|k: int| 0 < k < name.len() implies (#[trigger] name[k]) != '.' by {
            assert(!f(name[k]));
        }
    }
}

/// The scheme of a uri is what stands before the first `://`; without it the uri is a
/// file, and a hyphen alone is standard input.
pub proof fn lemma_scheme_before_mark(uri: Seq<char>, p: Seq<char>, q: Seq<char>)
    ensures
        uri == seq!['-'] ==> scheme(uri) == seq!['s', 't', 'd', 'i', 'n'],
        uri != seq!['-'] && first_cut(uri, seq![':', '/', '/'], p, q) ==> scheme(uri) == p,
        uri != seq!['-'] && stands_nowhere(uri, seq![':', '/', '/']) ==> scheme(uri) == seq![
            'f',
            'i',
            'l',
            'e',
        ],
{
    let mark = seq![':', '/', '/'];
    if uri != seq!['-'] && first_cut(uri, mark, p, q) {
        let e = p.len() as int;
        assert forall|k: int| 0 <= k < mark.len() implies uri[e + k] == #[trigger] mark[k] by {}
        assert(stands_at(uri, mark, e));
        lemma_first_place(uri, mark, 0, e);
        assert(uri.subrange(0, e) =~= p);
    }
    if stands_nowhere(uri, mark) {
        lemma_no_place(uri, mark, 0);
    }
}

proof fn lemma_first_place(s: Seq<char>, n: Seq<char>, i: int, e: int)
    requires
        0 <= i <= e,
        stands_at(s, n, e),
        forall|k: int| i <= k < e ==> !(#[trigger] stands_at(s, n, k)),
    ensures
        first_from(s, n, i) == Some(e),
    decreases e - i,
{
    lemma_stands(s, n, i);
    if i < e {
        assert(!stands_at(s, n, i));
        lemma_first_place(s, n, i + 1, e);
    }
}

proof fn lemma_no_place(s: Seq<char>, n: Seq<char>, i: int)
    requires
        0 <= i,
        stands_nowhere(s, n),
    ensures
        first_from(s, n, i) is None,
    decreases s.len() + 1 - i,
{
    if i <= s.len() {
        lemma_stands(s, n, i);
        assert(!stands_at(s, n, i));
        lemma_no_place(s, n, i + 1);
    }
}

// ------------------------------------------------------------------ patterns

/// No wildcard stands in the pattern.
pub open spec fn literal(p: Seq<char>, star: char, one: char) -> bool {
    forall|k: int| 0 <= k < p.len() ==> (#[trigger] p[k]) != star && p[k] != one
}

proof fn lemma_wild_literal(t: Seq<char>, p: Seq<char>, star: char, one: char, i: int, j: int)
    requires
        0 <= i <= t.len(),
        0 <= j <= p.len(),
        forall|k: int| j <= k < p.len() ==> (#[trigger] p[k]) != star,
    ensures
        wild_at(t, p, star, one, i, j) <==> {
            &&& t.len() - i == p.len() - j
            &&& forall|k: int| j <= k < p.len() ==> (#[trigger] p[k] == one || p[k] == t[i + k - j])
        },
    decreases p.len() - j,
{
    if j < p.len() {
        assert(p[j] != star);
        if i < t.len() {
            lemma_wild_literal(t, p, star, one, i + 1, j + 1);
            assert(wild_at(t, p, star, one, i, j) ==> forall|k: int|
                j <= k < p.len() ==> (#[trigger] p[k] == one || p[k] == t[i + k - j])) by {
                if wild_at(t, p, star, one, i, j) {
                    assert forall|k: int| j <= k < p.len() implies (#[trigger] p[k] == one || p[k]
                        == t[i + k - j]) by {
                        if k > j {
                            assert(p[k] == one || p[k] == t[(i + 1) + k - (j + 1)]);
                        }
                    }
                }
            }
            if t.len() - i == p.len() - j && (forall|k: int|
                j <= k < p.len() ==> (#[trigger] p[k] == one || p[k] == t[i + k - j])) {
                assert(p[j] == one || p[j] == t[i + j - j]);
                assert forall|k: int| j + 1 <= k < p.len() implies (#[trigger] p[k] == one || p[k]
                    == t[(i + 1) + k - (j + 1)]) by {
                    assert(p[k] == one || p[k] == t[i + k - j]);
                }
            }
        }
    }
}

proof fn lemma_like_call(args: Vec<Expr>, t: Seq<char>, p: Seq<char>, b: Batch, row: int, log: Log)
    requires
        given(args, seq![Datum::Str(t), Datum::Str(p)], b, row, log),
    ensures
        call(Func::Like, args, b, row, log) == clean(Datum::Bool(wild(t, p, '%', '_'))),
{
    lemma_call(Func::Like, args, seq![Datum::Str(t), Datum::Str(p)], b, row, log);
    let outs = eval_all(args, b, row, log);
    assert(outs[0] == clean(Datum::Str(t)));
    assert(outs[1] == clean(Datum::Str(p)));
}

/// A `like` pattern without `%` matches the texts of its length that agree with it
/// but for the places of `_`.
pub proof fn lemma_like_without_star(args: Vec<Expr>, t: Seq<char>, p: Seq<char>, b: Batch, row: int, log: Log)
    requires
        given(args, seq![Datum::Str(t), Datum::Str(p)], b, row, log),
        forall|k: int| 0 <= k < p.len() ==> (#[trigger] p[k]) != '%',
    ensures
        call(Func::Like, args, b, row, log) == clean(
            Datum::Bool(
                t.len() == p.len() && forall|k: int|
                    0 <= k < p.len() ==> (#[trigger] p[k] == '_' || p[k] == t[k]),
            ),
        ),
{
    lemma_like_call(args, t, p, b, row, log);
    lemma_wild_literal(t, p, '%', '_', 0, 0);
    if wild(t, p, '%', '_') {
        assert forall|k: int| 0 <= k < p.len() implies (#[trigger] p[k] == '_' || p[k] == t[k]) by {
            assert(p[k] == '_' || p[k] == t[0 + k - 0]);
        }
    }
    if t.len() == p.len() && forall|k: int|
        0 <= k < p.len() ==> (#[trigger] p[k] == '_' || p[k] == t[k]) {
        assert forall|k: int| 0 <= k < p.len() implies (#[trigger] p[k] == '_' || p[k] == t[0 + k - 0]) by {
            assert(p[k] == '_' || p[k] == t[k]);
        }
    }
}

proof fn lemma_wild_lead(t: Seq<char>, p: Seq<char>, star: char, one: char, a: int, j: int)
    requires
        0 <= j <= a < p.len(),
        p[a] == star,
        forall|k: int| 0 <= k < a ==> (#[trigger] p[k]) != star && p[k] != one,
        j <= t.len(),
    ensures
        wild_at(t, p, star, one, j, j) <==> (a <= t.len() && (forall|k: int|
            j <= k < a ==> #[trigger] p[k] == t[k]) && wild_at(t, p, star, one, a, a)),
    decreases a - j,
{
    if j < a {
        assert(p[j] != star && p[j] != one);
        if j < t.len() {
            lemma_wild_lead(t, p, star, one, a, j + 1);
        }
    }
}

proof fn lemma_wild_star_rest(t: Seq<char>, p: Seq<char>, star: char, one: char, a: int, i: int)
    requires
        0 <= a < p.len(),
        p[a] == star,
        0 <= i <= t.len(),
        forall|k: int| a < k < p.len() ==> (#[trigger] p[k]) != star && p[k] != one,
    ensures
        wild_at(t, p, star, one, i, a) <==> ({
            let n = p.len() - a - 1;
            &&& n <= t.len() - i
            &&& forall|k: int| a < k < p.len() ==> #[trigger] p[k] == t[t.len() - p.len() + k]
        }),
    decreases t.len() - i,
{
    lemma_wild_literal(t, p, star, one, i, a + 1);
    let n = p.len() - a - 1;
    if i < t.len() {
        lemma_wild_star_rest(t, p, star, one, a, i + 1);
    }
    if n == t.len() - i {
        assert forall|k: int| a < k < p.len() implies t[i + k - (a + 1)] == #[trigger] t[t.len()
            - p.len() + k] by {}
        if forall|k: int| a < k < p.len() ==> #[trigger] p[k] == t[t.len() - p.len() + k] {
            assert forall|k: int| a + 1 <= k < p.len() implies (#[trigger] p[k] == one || p[k] == t[i + k
                - (a + 1)]) by {
                assert(p[k] == t[t.len() - p.len() + k]);
            }
        }
        if wild_at(t, p, star, one, i, a + 1) {
            assert forall|k: int| a < k < p.len() implies #[trigger] p[k] == t[t.len() - p.len() + k] by {
                assert(p[k] != star && p[k] != one);
                assert(p[k] == t[i + k - (a + 1)]);
            }
        }
    }
}

proof fn lemma_wild_one_star(t: Seq<char>, p: Seq<char>, a: int)
    requires
        0 <= a < p.len(),
        p[a] == '%',
        literal(p.subrange(0, a), '%', '_'),
        literal(p.subrange(a + 1, p.len() as int), '%', '_'),
    ensures
        wild(t, p, '%', '_') == (t.len() >= p.len() - 1 && stands_at(t, p.subrange(0, a), 0)
            && stands_at(
            t,
            p.subrange(a + 1, p.len() as int),
            t.len() - (p.len() - a - 1),
        )),
{
    let (x, y) = (p.subrange(0, a), p.subrange(a + 1, p.len() as int));
    let n = p.len() - a - 1;
    assert forall|k: int| 0 <= k < a implies (#[trigger] p[k]) != '%' && p[k] != '_' by {
        assert(x[k] == p[k]);
    }
    assert forall|k: int| a < k < p.len() implies (#[trigger] p[k]) != '%' && p[k] != '_' by {
        assert(y[k - a - 1] == p[k]);
    }
    lemma_wild_lead(t, p, '%', '_', a, 0);
    if a <= t.len() {
        lemma_wild_star_rest(t, p, '%', '_', a, a);
    }
    if wild(t, p, '%', '_') {
        assert forall|k: int| 0 <= k < x.len() implies t[0 + k] == #[trigger] x[k] by {
            assert(p[k] == t[k]);
        }
        assert forall|k: int| 0 <= k < y.len() implies t[t.len() - n + k] == #[trigger] y[k] by {
            assert(p[a + 1 + k] == t[t.len() - p.len() + (a + 1 + k)]);
        }
    }
    if t.len() >= p.len() - 1 && stands_at(t, x, 0) && stands_at(t, y, t.len() - n) {
        assert forall|k: int| 0 <= k < a implies #[trigger] p[k] == t[k] by {
            assert(t[0 + k] == x[k]);
        }
        assert forall|k: int| a < k < p.len() implies #[trigger] p[k] == t[t.len() - p.len() + k] by {
            assert(t[t.len() - n + (k - a - 1)] == y[k - a - 1]);
        }
    }
}

/// A `like` pattern with one `%` between two plain parts matches the texts that start
/// with the one and end with the other, without overlap.
pub proof fn lemma_like_with_star(
    args: Vec<Expr>,
    t: Seq<char>,
    p: Seq<char>,
    a: int,
    b: Batch,
    row: int,
    log: Log,
)
    requires
        given(args, seq![Datum::Str(t), Datum::Str(p)], b, row, log),
        0 <= a < p.len(),
        p[a] == '%',
        literal(p.subrange(0, a), '%', '_'),
        literal(p.subrange(a + 1, p.len() as int), '%', '_'),
    ensures
        call(Func::Like, args, b, row, log) == clean(
            Datum::Bool(
                t.len() >= p.len() - 1 && stands_at(t, p.subrange(0, a), 0) && stands_at(
                    t,
                    p.subrange(a + 1, p.len() as int),
                    t.len() - (p.len() - a - 1),
                ),
            ),
        ),
{
    lemma_like_call(args, t, p, b, row, log);
    lemma_wild_one_star(t, p, a);
}

/// A glob without a star and a class matches the texts of its length that agree with
/// it but for the places of `?`.
pub proof fn lemma_glob_without_star(t: Seq<char>, p: Seq<char>, i: int, j: int)
    requires
        0 <= i <= t.len(),
        0 <= j <= p.len(),
        forall|k: int| j <= k < p.len() ==> (#[trigger] p[k]) != '*' && p[k] != '[',
    ensures
        glob_at(t, p, i, j) <==> {
            &&& t.len() - i == p.len() - j
            &&& forall|k: int| j <= k < p.len() ==> (#[trigger] p[k] == '?' || p[k] == t[i + k - j])
        },
        i == 0 && j == 0 ==> glob(t, p) == glob_at(t, p, 0, 0),
    decreases p.len() - j,
{
    if j < p.len() {
        assert(p[j] != '*' && p[j] != '[');
        if i < t.len() {
            lemma_glob_without_star(t, p, i + 1, j + 1);
            if glob_at(t, p, i, j) {
                assert forall|k: int| j <= k < p.len() implies (#[trigger] p[k] == '?' || p[k] == t[i
                    + k - j]) by {
                    if k > j {
                        assert(p[k] == '?' || p[k] == t[(i + 1) + k - (j + 1)]);
                    }
                }
            }
            if t.len() - i == p.len() - j && (forall|k: int|
                j <= k < p.len() ==> (#[trigger] p[k] == '?' || p[k] == t[i + k - j])) {
                assert(p[j] == '?' || p[j] == t[i + j - j]);
                assert forall|k: int| j + 1 <= k < p.len() implies (#[trigger] p[k] == '?' || p[k]
                    == t[(i + 1) + k - (j + 1)]) by {
                    assert(p[k] == '?' || p[k] == t[i + k - j]);
                }
            }
        }
    }
}

/// A class of a glob stands for one character: one of its members, one from the first
/// to the last of a range, or with `!` one that is no member.
pub proof fn lemma_glob_classes(t: Seq<char>, a: char, b: char)
    requires
        a != ']',
        a != '!',
        b != ']',
        a != '-',
        b != '-',
    ensures
        glob(t, seq!['[', a, b, ']']) <==> t.len() == 1 && (t[0] == a || t[0] == b),
        glob(t, seq!['[', '!', a, b, ']']) <==> t.len() == 1 && t[0] != a && t[0] != b,
        glob(t, seq!['[', a, '-', b, ']']) <==> t.len() == 1 && a <= t[0] <= b,
{
    reveal_with_fuel(class_close, 5);
    reveal_with_fuel(class_has, 5);
    reveal_with_fuel(glob_at, 3);
    let (p, q, r) = (
        seq!['[', a, b, ']'],
        seq!['[', '!', a, b, ']'],
        seq!['[', a, '-', b, ']'],
    );
    assert(class_close(p, 1, 1) == 3);
    assert(class_close(q, 2, 2) == 4);
    assert(class_close(r, 1, 1) == 4);
    if t.len() > 0 {
        let c = t[0];
        assert(class_has(p, 1, 1, c) <==> c == a || c == b);
        assert(class_has(q, 2, 2, c) <==> c == a || c == b);
        assert(class_has(r, 1, 1, c) <==> a <= c <= b);
    }
    assert(glob_at(t, p, 1, 4) <==> t.len() == 1);
    assert(glob_at(t, q, 1, 5) <==> t.len() == 1);
    assert(glob_at(t, r, 1, 5) <==> t.len() == 1);
}

// ------------------------------------------------------------------- numbers

/// `abs` of an integer is its size; of a double it is the double without its sign,
/// as an integer where it is one.
pub proof fn lemma_abs_is_size(args: Vec<Expr>, n: i64, b: Batch, row: int, log: Log)
    requires
        given(args, seq![Datum::I64(n)], b, row, log),
        -0x20_0000_0000_0000 < n < 0x20_0000_0000_0000,
    ensures
        call(Func::Abs, args, b, row, log) matches Ok((Datum::I64(m), fails)) && fails == 0 && m == (
        if n < 0 {
            -n
        } else {
            n as int
        }),
{
    lemma_abs_call(args, n, float_of(n as int), b, row, log);
    lemma_abs_double(n);
}

proof fn lemma_abs_call(args: Vec<Expr>, n: i64, x: F64, b: Batch, row: int, log: Log)
    requires
        given(args, seq![Datum::I64(n)], b, row, log),
        x == float_of(n as int),
    ensures
        call(Func::Abs, args, b, row, log) == clean(tidy(x.abs_value())),
{
    lemma_call(Func::Abs, args, seq![Datum::I64(n)], b, row, log);
    let outs = eval_all(args, b, row, log);
    assert(outs[0] == clean(Datum::I64(n)));
}

proof fn lemma_abs_double(n: i64)
    requires
        -0x20_0000_0000_0000 < n < 0x20_0000_0000_0000,
    ensures
        tidy(float_of(n as int).abs_value()) matches Datum::I64(m) && m == (if n < 0 {
            -n
        } else {
            n as int
        }),
{
    let m = if n < 0 {
        -n
    } else {
        n as int
    };
    lemma_integer_double(n as int);
    lemma_integer_double(m);
    assert(float_of(n as int).abs_value() == float_of(m)) by {
        if n != 0 {
            lemma_small_bits(m as nat);
        }
        if n < 0 {
            assert(int_bits(n as int) == int_bits(m) + 0x8000_0000_0000_0000);
        }
    }
}

/// What `round`, `floor` and `ceil` give is the host's answer to that question, as an
/// integer where it is a small one.
pub proof fn lemma_rounding_asks(args: Vec<Expr>, x: F64, r: i64, b: Batch, row: int, log: Log)
    requires
        given(args, seq![Datum::F64(x)], b, row, log),
        -0x20_0000_0000_0000 < r < 0x20_0000_0000_0000,
    ensures
        float_answer(log, Query { op: HostOp::Round, args: seq![Datum::F64(x)] }) == Ok::<F64, Query>(
            float_of(r as int),
        ) ==> call(Func::Round, args, b, row, log) == clean(Datum::I64(r)),
        float_answer(log, Query { op: HostOp::Floor, args: seq![Datum::F64(x)] }) == Ok::<F64, Query>(
            float_of(r as int),
        ) ==> call(Func::Floor, args, b, row, log) == clean(Datum::I64(r)),
        float_answer(log, Query { op: HostOp::Ceil, args: seq![Datum::F64(x)] }) == Ok::<F64, Query>(
            float_of(r as int),
        ) ==> call(Func::Ceil, args, b, row, log) == clean(Datum::I64(r)),
{
    let vals = seq![Datum::F64(x)];
    lemma_call(Func::Round, args, vals, b, row, log);
    lemma_call(Func::Floor, args, vals, b, row, log);
    lemma_call(Func::Ceil, args, vals, b, row, log);
    lemma_integer_double(r as int);
}

// --------------------------------------------------------------------- times

/// The time of day of an instant is what its ticks leave over of whole days, and
/// never negative.
pub proof fn lemma_time_of_day_left_over(args: Vec<Expr>, t: DateTime, b: Batch, row: int, log: Log)
    requires
        given(args, seq![Datum::DateTime(t)], b, row, log),
    ensures
        call(Func::Time, args, b, row, log) matches Ok((Datum::Time(d), fails)) && fails == 0 && {
            &&& d.unit == t.unit
            &&& 0 <= d.ticks < 86_400 * t.unit.per_sec()
            &&& exists|days: int| #[trigger] whole_days(t, d.ticks, days)
        },
{
    lemma_time_call(args, t, b, row, log);
    lemma_day_part(t);
}

proof fn lemma_time_call(args: Vec<Expr>, t: DateTime, b: Batch, row: int, log: Log)
    requires
        given(args, seq![Datum::DateTime(t)], b, row, log),
    ensures
        call(Func::Time, args, b, row, log) == clean(Datum::Time(day_part(t))),
{
    lemma_call(Func::Time, args, seq![Datum::DateTime(t)], b, row, log);
    let outs = eval_all(args, b, row, log);
    assert(outs[0] == clean(Datum::DateTime(t)));
}

proof fn lemma_day_part(t: DateTime)
    ensures
        ({
            let d = day_part(t);
            &&& d.unit == t.unit
            &&& 0 <= d.ticks < 86_400 * t.unit.per_sec()
            &&& exists|days: int| #[trigger] whole_days(t, d.ticks, days)
        }),
{
    let day = t.unit.per_sec() * 86_400;
    let n = t.ticks as int;
    let (q, r) = (n / day, n % day);
    assert(n == day * q + r && 0 <= r < day) by (nonlinear_arith)
        requires
            q == n / day,
            r == n % day,
            day > 0,
    ;
    assert(day * q == q * day) by (nonlinear_arith);
    assert(day_part(t).ticks == r);
    assert(whole_days(t, day_part(t).ticks, q));
}

/// An instant is so many days and the rest.
pub open spec fn whole_days(t: DateTime, rest: i64, days: int) -> bool {
    t.ticks == days * (t.unit.per_sec() * 86_400) + rest
}

/// An instant falls on a weekend where its weekday, counted from Monday as 0, is 5 or
/// 6.
pub proof fn lemma_weekend_by_weekday(args: Vec<Expr>, d: Datum, n: i64, b: Batch, row: int, log: Log)
    requires
        given(args, seq![d], b, row, log),
        call(Func::Weekday, args, b, row, log) == clean(Datum::I64(n)),
    ensures
        call(Func::IsWeekend, args, b, row, log) == clean(Datum::Bool(n >= 5)),
{
    lemma_call(Func::Weekday, args, seq![d], b, row, log);
    lemma_call(Func::IsWeekend, args, seq![d], b, row, log);
}

/// A calendar field of an instant is the host's answer for that field: year, month,
/// day, hour, minute and second in this order.
pub proof fn lemma_calendar_fields(args: Vec<Expr>, t: DateTime, which: u8, n: i64, b: Batch, row: int, log: Log)
    requires
        given(args, seq![Datum::DateTime(t)], b, row, log),
        int_answer(log, Query { op: HostOp::Field { which }, args: seq![Datum::DateTime(t)] }) == Ok::<
            i64,
            Query,
        >(n),
    ensures
        which == 0 ==> call(Func::Year, args, b, row, log) == clean(Datum::I64(n)),
        which == 1 ==> call(Func::Month, args, b, row, log) == clean(Datum::I64(n)),
        which == 2 ==> call(Func::Day, args, b, row, log) == clean(Datum::I64(n)),
        which == 3 ==> call(Func::Hour, args, b, row, log) == clean(Datum::I64(n)),
        which == 4 ==> call(Func::Minute, args, b, row, log) == clean(Datum::I64(n)),
        which == 5 ==> call(Func::Second, args, b, row, log) == clean(Datum::I64(n)),
{
    let vals = seq![Datum::DateTime(t)];
    lemma_call(Func::Year, args, vals, b, row, log);
    lemma_call(Func::Month, args, vals, b, row, log);
    lemma_call(Func::Day, args, vals, b, row, log);
    lemma_call(Func::Hour, args, vals, b, row, log);
    lemma_call(Func::Minute, args, vals, b, row, log);
    lemma_call(Func::Second, args, vals, b, row, log);
}

/// An instant is cut to a boundary, or to the start of its bucket, by the host, which
/// is told the instant, and the boundary without white space around it or the width;
/// the unit stays. Where the host finds no bucket it is missing.
pub proof fn lemma_cut_instants(
    args: Vec<Expr>,
    t: DateTime,
    to: Seq<char>,
    w: Duration,
    n: i64,
    b: Batch,
    row: int,
    log: Log,
)
    ensures
        given(args, seq![Datum::DateTime(t), Datum::Str(to)], b, row, log) && int_answer(
            log,
            Query { op: HostOp::Truncate, args: seq![Datum::DateTime(t), Datum::Str(trimmed(to))] },
        ) == Ok::<i64, Query>(n) ==> call(Func::Trunc, args, b, row, log) == clean(
            Datum::DateTime(DateTime { ticks: n, unit: t.unit }),
        ),
        given(args, seq![Datum::DateTime(t), Datum::Duration(w)], b, row, log) && ticks_answer(
            log,
            Query { op: HostOp::Bucket, args: seq![Datum::DateTime(t), Datum::Duration(w)] },
        ) == Ok::<Option<i64>, Query>(Some(n)) ==> call(Func::Bucket, args, b, row, log) == clean(
            Datum::DateTime(DateTime { ticks: n, unit: t.unit }),
        ),
        given(args, seq![Datum::DateTime(t), Datum::Duration(w)], b, row, log) && ticks_answer(
            log,
            Query { op: HostOp::Bucket, args: seq![Datum::DateTime(t), Datum::Duration(w)] },
        ) == Ok::<Option<i64>, Query>(None) ==> call(Func::Bucket, args, b, row, log) == clean(
            Datum::Null,
        ),
{
    let (x, y) = (
        seq![Datum::DateTime(t), Datum::Str(to)],
        seq![Datum::DateTime(t), Datum::Duration(w)],
    );
    let outs = eval_all(args, b, row, log);
    if given(args, x, b, row, log) {
        lemma_call(Func::Trunc, args, x, b, row, log);
        assert(outs[0] == clean(Datum::DateTime(t)));
        assert(outs[1] == clean(Datum::Str(to)));
    }
    if given(args, y, b, row, log) {
        lemma_call(Func::Bucket, args, y, b, row, log);
        assert(outs[0] == clean(Datum::DateTime(t)));
        assert(outs[1] == clean(Datum::Duration(w)));
    }
}

/// The windows that hold an instant start where the host says, one after the other, in
/// the instant's unit; the size of the windows and the step between them are told in
/// this order.
pub proof fn lemma_window_starts(
    args: Vec<Expr>,
    t: DateTime,
    size: Duration,
    hop: Duration,
    s: Seq<Datum>,
    b: Batch,
    row: int,
    log: Log,
)
    requires
        given(
            args,
            seq![Datum::DateTime(t), Datum::Duration(size), Datum::Duration(hop)],
            b,
            row,
            log,
        ),
        tick_list_answer(
            log,
            Query {
                op: HostOp::Hops,
                args: seq![Datum::DateTime(t), Datum::Duration(size), Datum::Duration(hop)],
            },
        ) == Ok::<Option<Seq<Datum>>, Query>(Some(s)),
    ensures
        call(Func::Hops, args, b, row, log) matches Ok((Datum::List(v), fails)) && fails == 0 && v.len()
            == s.len() && forall|i: int|
            0 <= i < s.len() ==> (s[i] matches Datum::I64(n) ==> #[trigger] v[i] == Datum::DateTime(
                DateTime { ticks: n, unit: t.unit },
            )),
{
    let vals = seq![Datum::DateTime(t), Datum::Duration(size), Datum::Duration(hop)];
    let outs = eval_all(args, b, row, log);
    lemma_call(Func::Hops, args, vals, b, row, log);
    assert(outs[0] == clean(Datum::DateTime(t)));
    assert(outs[1] == clean(Datum::Duration(size)));
    assert(outs[2] == clean(Datum::Duration(hop)));
}

/// An instant in a format is the host's text of the instant and the format; its date
/// is the host's.
pub proof fn lemma_instants_shown(
    args: Vec<Expr>,
    t: DateTime,
    format: Seq<char>,
    s: Seq<char>,
    day: i32,
    b: Batch,
    row: int,
    log: Log,
)
    ensures
        given(args, seq![Datum::DateTime(t), Datum::Str(format)], b, row, log) && text_answer(
            log,
            Query { op: HostOp::FormatDateTime, args: seq![Datum::DateTime(t), Datum::Str(format)] },
        ) == Ok::<Seq<char>, Query>(s) ==> call(Func::Format, args, b, row, log) == clean(
            Datum::Str(s),
        ),
        given(args, seq![Datum::DateTime(t)], b, row, log) && date_answer(
            log,
            Query { op: HostOp::DateOf, args: seq![Datum::DateTime(t)] },
        ) == Ok::<i32, Query>(day) ==> call(Func::Date, args, b, row, log) == clean(
            Datum::Date(Date { epoch_day: day }),
        ),
{
    let (x, y) = (seq![Datum::DateTime(t), Datum::Str(format)], seq![Datum::DateTime(t)]);
    let outs = eval_all(args, b, row, log);
    if given(args, x, b, row, log) {
        lemma_call(Func::Format, args, x, b, row, log);
        assert(outs[0] == clean(Datum::DateTime(t)));
        assert(outs[1] == clean(Datum::Str(format)));
    }
    if given(args, y, b, row, log) {
        lemma_call(Func::Date, args, y, b, row, log);
        assert(outs[0] == clean(Datum::DateTime(t)));
    }
}

// ------------------------------------------------------------------ numerals

/// A numeral is written digit by digit: a number below ten is its digit, and ten
/// times a number and a digit is the number's numeral followed by the digit's.
pub proof fn lemma_numeral_digits(n: nat, d: nat)
    requires
        d < 10,
    ensures
        nat_text(0) == seq!['0'],
        nat_text(1) == seq!['1'],
        nat_text(2) == seq!['2'],
        nat_text(3) == seq!['3'],
        nat_text(4) == seq!['4'],
        nat_text(5) == seq!['5'],
        nat_text(6) == seq!['6'],
        nat_text(7) == seq!['7'],
        nat_text(8) == seq!['8'],
        nat_text(9) == seq!['9'],
        n > 0 ==> nat_text(10 * n + d) == nat_text(n) + nat_text(d),
        n > 0 ==> int_text(-n) == seq!['-'] + nat_text(n),
        int_text(n as int) == nat_text(n),
{
    if n > 0 {
        assert((10 * n + d) / 10 == n && (10 * n + d) % 10 == d);
        assert(nat_text(10 * n + d) =~= nat_text(n) + nat_text(d));
    }
}

// --------------------------------------------------------------- conversions

/// A value of the type asked for stays as it is: integers, doubles, truth values,
/// texts, instants, spans, dates, and times of day in seconds.
pub proof fn lemma_cast_to_own_type(d: Datum, ty: DataType, log: Log)
    requires
        fits(d, ty),
        d is I64 || d is F64 || d is Bool || d is Str || d is DateTime || d is Duration || d is Date
            || d is Resource || (d is Time && d->Time_0.unit == TimeUnit::Sec),
    ensures
        cast(d, ty, log) == clean(d),
{
}

/// An integer as a text is read as that integer again.
pub proof fn lemma_integer_through_text(n: i64, log: Log)
    ensures
        cast(Datum::I64(n), DataType::Str, log) == clean(Datum::Str(int_text(n as int))),
        cast(Datum::Str(int_text(n as int)), DataType::I64, log) == clean(Datum::I64(n)),
{
    let s = int_text(n as int);
    lemma_int_parses(n);
    lemma_digits_of(
        (if n < 0 {
            -n
        } else {
            n as int
        }) as nat,
    );
    assert(s.len() >= 1);
    assert(!is_space(s[0])) by {
        if n >= 0 {
            assert(crate::strings::is_digit(s[0]));
        }
    }
    assert(!is_space(s.last())) by {
        let t = nat_text(
            (if n < 0 {
                -n
            } else {
                n as int
            }) as nat,
        );
        assert(crate::strings::is_digit(t[t.len() - 1]));
        assert(s.last() == t[t.len() - 1]);
    }
    assert(trim_start(s) == s);
    assert(trim_end(s) == s);
}

/// A truth value as a text or an integer is read as that truth value again: `true`
/// and `false`, 1 and 0.
pub proof fn lemma_truth_through_others(v: bool, log: Log)
    ensures
        cast(Datum::Bool(true), DataType::Str, log) == clean(Datum::Str(seq!['t', 'r', 'u', 'e'])),
        cast(Datum::Bool(false), DataType::Str, log) == clean(
            Datum::Str(seq!['f', 'a', 'l', 's', 'e']),
        ),
        cast(Datum::Bool(true), DataType::I64, log) == clean(Datum::I64(1)),
        cast(Datum::Bool(false), DataType::I64, log) == clean(Datum::I64(0)),
        cast(cast(Datum::Bool(v), DataType::Str, log)->Ok_0.0, DataType::Bool, log) == clean(
            Datum::Bool(v),
        ),
        cast(cast(Datum::Bool(v), DataType::I64, log)->Ok_0.0, DataType::Bool, log) == clean(
            Datum::Bool(v),
        ),
        forall|n: i64|
            #[trigger] cast(Datum::I64(n), DataType::Bool, log) == clean(Datum::Bool(n != 0)),
{
    let t = seq!['t', 'r', 'u', 'e'];
    let f = seq!['f', 'a', 'l', 's', 'e'];
    assert(!is_space('t') && !is_space('e') && !is_space('f'));
    assert(trim_start(t) == t && trim_end(t) == t);
    assert(trim_start(f) == f && trim_end(f) == f);
    assert(crate::strings::ascii_lowered(t) =~= t);
    assert(crate::strings::ascii_lowered(f).len() == 5);
    assert(f.len() != seq!['1'].len());
}

/// An integer of up to 53 bits is the same after a turn through doubles.
pub proof fn lemma_integer_through_double(n: i64, log: Log)
    requires
        -0x20_0000_0000_0000 <= n <= 0x20_0000_0000_0000,
    ensures
        cast(Datum::I64(n), DataType::F64, log) matches Ok((Datum::F64(x), fails)) && fails == 0
            && cast(Datum::F64(x), DataType::I64, log) == clean(Datum::I64(n)),
{
    lemma_integer_double(n as int);
}

/// A missing value stays missing in numbers and times, a blank text is missing there
/// without a failure.
pub proof fn lemma_cast_of_nothing(s: Seq<char>, ty: DataType, log: Log)
    ensures
        ty is I64 || ty is F64 || ty is Decimal || ty is DateTime || ty is Duration || ty is Date
            || ty is Time ==> cast(Datum::Null, ty, log) == clean(Datum::Null),
        (ty is I64 || ty is F64 || ty is Decimal) && (forall|i: int|
            0 <= i < s.len() ==> is_space(#[trigger] s[i])) ==> cast(Datum::Str(s), ty, log) == clean(
            Datum::Null,
        ),
{
    if forall|i: int| 0 <= i < s.len() ==> is_space(#[trigger] s[i]) {
        lemma_trimmed_between(s);
        let t = trimmed(s);
        let i = choose|i: int| #[trigger] trims(s, t, i);
        if t.len() > 0 {
            assert(t[0] == s[i]);
        }
    }
}

/// A time as an integer is its count, and an integer as a time has that count.
pub proof fn lemma_time_through_count(n: i64, unit: TimeUnit, log: Log)
    ensures
        ({
            let t = Datum::DateTime(DateTime { ticks: n, unit });
            let s = Datum::Duration(Duration { ticks: n, unit });
            &&& cast(t, DataType::I64, log) == clean(Datum::I64(n))
            &&& cast(s, DataType::I64, log) == clean(Datum::I64(n))
            &&& cast(Datum::I64(n), DataType::DateTime { unit }, log) == clean(t)
            &&& cast(Datum::I64(n), DataType::Duration { unit }, log) == clean(s)
        }),
{
}

proof fn lemma_cast_cells_each(s: Seq<Datum>, ty: DataType, log: Log, n: nat)
    requires
        n <= s.len(),
    ensures
        crate::cast::cast_cells(s, ty, log, n) matches Ok((c, k)) ==> {
            &&& c.len() == n
            &&& forall|i: int|
                0 <= i < n ==> (cast_cell(s[i], ty, log) matches Ok((d, f)) && d == #[trigger] c[i])
        },
    decreases n,
{
    if n > 0 {
        lemma_cast_cells_each(s, ty, log, (n - 1) as nat);
    }
}

/// A converted column has, row by row, what its cells convert to, missing ones
/// missing; and it is of the type asked for.
pub proof fn lemma_cast_column_by_cell(c: Lane, ty: DataType, log: Log)
    requires
        !(ty is Null || ty is Struct || ty is List),
        cast_lane(c, ty, log) is Ok,
    ensures
        ({
            let l = cast_lane(c, ty, log)->Ok_0.0;
            &&& l.dtype == ty
            &&& l.cells.len() == c.cells.len()
            &&& forall|i: int|
                0 <= i < c.cells.len() ==> (if c.cells[i] is Null {
                    #[trigger] l.cells[i] is Null
                } else {
                    cast(c.cells[i], ty, log) matches Ok((d, f)) && d == l.cells[i]
                })
        }),
{
    lemma_cast_cells_each(c.cells, ty, log, c.cells.len());
}

} // verus!
