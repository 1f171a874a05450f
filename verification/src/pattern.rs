//! Text pattern matching: SQL `LIKE`, shell globs and regular expressions.
use vstd::prelude::*;
use crate::text::chars_of;

verus! {

// ---------------------------------------------------------------- LIKE

/// Does the text from `i` on match the pattern from `j` on, where `star`
/// stands for any run of characters (also an empty one), `one` for exactly one
/// character, and every other character for itself?
pub open spec fn wild_at(t: Seq<char>, p: Seq<char>, star: char, one: char, i: int, j: int) -> bool
    decreases p.len() - j, t.len() - i,
{
    if j >= p.len() {
        i == t.len()
    } else if p[j] == star {
        wild_at(t, p, star, one, i, j + 1) || (i < t.len() && wild_at(t, p, star, one, i + 1, j))
    } else if p[j] == one {
        i < t.len() && wild_at(t, p, star, one, i + 1, j + 1)
    } else {
        i < t.len() && t[i] == p[j] && wild_at(t, p, star, one, i + 1, j + 1)
    }
}

/// Does the whole text match the whole wildcard pattern?
pub open spec fn wild(t: Seq<char>, p: Seq<char>, star: char, one: char) -> bool {
    wild_at(t, p, star, one, 0, 0)
}

/// A star in a pattern absorbs any number of characters: the text from `i` on
/// matches just when the rest of the pattern matches from some later point.
pub proof fn lemma_star_absorbs(t: Seq<char>, p: Seq<char>, star: char, one: char, i: int, j: int)
    requires
        0 <= i <= t.len(),
        0 <= j < p.len(),
        p[j] == star,
    ensures
        wild_at(t, p, star, one, i, j) <==> (exists|k: int|
            i <= k <= t.len() && #[trigger] wild_at(t, p, star, one, k, j + 1)),
    decreases t.len() - i,
{
    if i < t.len() {
        lemma_star_absorbs(t, p, star, one, i + 1, j);
    }
    if wild_at(t, p, star, one, i, j) {
        if !wild_at(t, p, star, one, i, j + 1) {
            let k = choose|k: int|
                i + 1 <= k <= t.len() && #[trigger] wild_at(t, p, star, one, k, j + 1);
            assert(wild_at(t, p, star, one, k, j + 1));
        }
    }
}

/// A star-free stretch of the pattern consumes as many characters as it is long.
proof fn lemma_segment(t: Seq<char>, p: Seq<char>, star: char, one: char, k: int, a: int, b: int)
    requires
        0 <= a <= b <= p.len(),
        forall|j: int| a <= j < b ==> #[trigger] p[j] != star,
        wild_at(t, p, star, one, k, a),
        0 <= k <= t.len(),
    ensures
        k + (b - a) <= t.len(),
        wild_at(t, p, star, one, k + (b - a), b),
    decreases b - a,
{
    if a < b {
        assert(p[a] != star);
        lemma_segment(t, p, star, one, k + 1, a + 1, b);
    }
}

/// At the end of the text only stars may remain.
proof fn lemma_trailing(t: Seq<char>, p: Seq<char>, star: char, one: char, j: int)
    requires
        0 <= j <= p.len(),
    ensures
        wild_at(t, p, star, one, t.len() as int, j) <==> (forall|k: int|
            j <= k < p.len() ==> #[trigger] p[k] == star),
    decreases p.len() - j,
{
    if j < p.len() {
        lemma_trailing(t, p, star, one, j + 1);
    }
}

/// Matches from some start at or after `c`.
spec fn wild_from(t: Seq<char>, p: Seq<char>, star: char, one: char, c: int, j: int) -> bool {
    exists|k: int| c <= k <= t.len() && #[trigger] wild_at(t, p, star, one, k, j)
}

/// Wildcard match with one restart point: on a mismatch the match resumes just
/// after the last star, which then absorbs one character more. No recursion, so
/// a pattern of many stars stays cheap.
pub fn wildcard_match(text: &str, pat: &str, star: char, one: char) -> (r: bool)
    ensures
        r == wild(text@, pat@, star, one),
{
    let t: Vec<char> = chars_of(text);
    let p: Vec<char> = chars_of(pat);
    let mut ti: usize = 0;
    let mut pi: usize = 0;
    let mut last_star: Option<usize> = None;
    let mut consumed: usize = 0;
    while ti < t.len()
        invariant
            t@ == text@,
            p@ == pat@,
            ti <= t.len(),
            pi <= p.len(),
            consumed <= ti,
            last_star matches Some(ls) ==> {
                &&& ls < pi
                &&& p@[ls as int] == star
                &&& ti - consumed == pi - (ls + 1)
                &&& forall|j: int| ls < j < pi ==> #[trigger] p@[j] != star
                &&& (wild(t@, p@, star, one) <==> wild_from(
                    t@,
                    p@,
                    star,
                    one,
                    consumed as int,
                    ls + 1,
                ))
                &&& (wild_at(t@, p@, star, one, consumed as int, ls + 1) <==> wild_at(
                    t@,
                    p@,
                    star,
                    one,
                    ti as int,
                    pi as int,
                ))
            },
            last_star is None ==> {
                &&& consumed == 0
                &&& forall|j: int| 0 <= j < pi ==> #[trigger] p@[j] != star
                &&& (wild(t@, p@, star, one) <==> wild_at(
                    t@,
                    p@,
                    star,
                    one,
                    ti as int,
                    pi as int,
                ))
            },
        decreases
                p.len() - (if last_star is Some {
                    last_star->0 + 1
                } else {
                    0
                }),
                t.len() - consumed,
                t.len() - ti,
    {
        if pi < p.len() && p[pi] == star {
            proof {
                lemma_star_absorbs(t@, p@, star, one, ti as int, pi as int);
                if let Some(ls) = last_star {
                    if wild_from(t@, p@, star, one, consumed as int, ls + 1) {
                        let k = choose|k: int|
                            consumed <= k <= t@.len() && #[trigger] wild_at(
                                t@,
                                p@,
                                star,
                                one,
                                k,
                                ls + 1,
                            );
                        lemma_segment(t@, p@, star, one, k, ls + 1, pi as int);
                        let m = k + (pi - (ls + 1));
                        lemma_star_absorbs(t@, p@, star, one, m, pi as int);
                        let n = choose|n: int|
                            m <= n <= t@.len() && #[trigger] wild_at(t@, p@, star, one, n, pi + 1);
                        assert(ti <= n);
                        assert(wild_from(t@, p@, star, one, ti as int, pi + 1));
                    }
                    if wild_from(t@, p@, star, one, ti as int, pi + 1) {
                        assert(wild_at(t@, p@, star, one, consumed as int, ls + 1));
                        assert(wild_from(t@, p@, star, one, consumed as int, ls + 1));
                    }
                }
            }
            last_star = Some(pi);
            consumed = ti;
            pi += 1;
        } else if pi < p.len() && (p[pi] == one || p[pi] == t[ti]) {
            ti += 1;
            pi += 1;
        } else if let Some(ls) = last_star {
            proof {
                assert(!wild_at(t@, p@, star, one, ti as int, pi as int));
                if wild_from(t@, p@, star, one, consumed as int, ls + 1) {
                    let k = choose|k: int|
                        consumed <= k <= t@.len() && #[trigger] wild_at(
                            t@,
                            p@,
                            star,
                            one,
                            k,
                            ls + 1,
                        );
                    assert(k != consumed);
                    assert(wild_from(t@, p@, star, one, consumed + 1, ls + 1));
                }
            }
            pi = ls + 1;
            consumed += 1;
            ti = consumed;
        } else {
            return false;
        }
    }
    proof {
        lemma_trailing(t@, p@, star, one, pi as int);
        if let Some(ls) = last_star {
            if wild_from(t@, p@, star, one, consumed as int, ls + 1) {
                let k = choose|k: int|
                    consumed <= k <= t@.len() && #[trigger] wild_at(t@, p@, star, one, k, ls + 1);
                lemma_segment(t@, p@, star, one, k, ls + 1, pi as int);
                assert(k == consumed);
            }
            if wild_at(t@, p@, star, one, consumed as int, ls + 1) {
                assert(wild_from(t@, p@, star, one, consumed as int, ls + 1));
            }
        }
    }
    let ghost at = pi as int;
    while pi < p.len() && p[pi] == star
        invariant
            0 <= at <= pi <= p.len(),
            forall|k: int| at <= k < pi ==> #[trigger] p@[k] == star,
        decreases p.len() - pi,
    {
        pi += 1;
    }
    proof {
        if pi < p.len() {
            assert(p@[pi as int] != star);
        }
    }
    pi == p.len()
}

/// SQL `LIKE`: `%` matches any run of characters (also an empty one), `_`
/// matches exactly one; matching is case-sensitive and there is no escape.
pub fn like_match(text: &str, pat: &str) -> (r: bool)
    ensures
        r == wild(text@, pat@, '%', '_'),
{
    wildcard_match(text, pat, '%', '_')
}

// ---------------------------------------------------------------- glob

/// Is there a range `a-z` at position `j` of a character class?
pub open spec fn class_range(p: Seq<char>, j: int) -> bool {
    j + 2 < p.len() && p[j + 1] == '-' && p[j + 2] != ']'
}

/// Where the class whose members start at `start` is closed, reading from `j`:
/// the first `]` that is not itself the first member, or the pattern's length
/// when there is none.
pub open spec fn class_close(p: Seq<char>, start: int, j: int) -> int
    decreases p.len() - j,
{
    if j >= p.len() {
        p.len() as int
    } else if p[j] == ']' && j != start {
        j
    } else if class_range(p, j) {
        class_close(p, start, j + 3)
    } else {
        class_close(p, start, j + 1)
    }
}

/// Does some member of the class, reading from `j`, hold the character `c`?
pub open spec fn class_has(p: Seq<char>, start: int, j: int, c: char) -> bool
    decreases p.len() - j,
{
    if j >= p.len() || (p[j] == ']' && j != start) {
        false
    } else if class_range(p, j) {
        (p[j] <= c && c <= p[j + 2]) || class_has(p, start, j + 3, c)
    } else {
        c == p[j] || class_has(p, start, j + 1, c)
    }
}

/// Where the members of the class opened at `j` start: after `[` and the
/// optional `!`.
pub open spec fn class_start(p: Seq<char>, j: int) -> int {
    if j + 1 < p.len() && p[j + 1] == '!' {
        j + 2
    } else {
        j + 1
    }
}

/// Does the text from `i` on match the glob from `j` on? `*` stands for any
/// run, `?` for one character, `[..]` for one character of the class and
/// `[!..]` for one outside of it; an unclosed class matches nothing.
pub open spec fn glob_at(t: Seq<char>, p: Seq<char>, i: int, j: int) -> bool
    decreases p.len() - j, t.len() - i,
{
    if j >= p.len() {
        i == t.len()
    } else if p[j] == '*' {
        glob_at(t, p, i, j + 1) || (i < t.len() && glob_at(t, p, i + 1, j))
    } else if p[j] == '?' {
        i < t.len() && glob_at(t, p, i + 1, j + 1)
    } else if p[j] == '[' {
        let start = class_start(p, j);
        let close = class_close(p, start, start);
        &&& i < t.len()
        &&& close < p.len()
        &&& class_has(p, start, start, t[i]) != (start == j + 2)
        &&& (close > j ==> glob_at(t, p, i + 1, close + 1))
    } else {
        i < t.len() && t[i] == p[j] && glob_at(t, p, i + 1, j + 1)
    }
}

/// Does the whole text match the whole glob?
pub open spec fn glob(t: Seq<char>, p: Seq<char>) -> bool {
    glob_at(t, p, 0, 0)
}

/// A `*` in a glob absorbs any number of characters.
pub proof fn lemma_glob_star_absorbs(t: Seq<char>, p: Seq<char>, i: int, j: int)
    requires
        0 <= i <= t.len(),
        0 <= j < p.len(),
        p[j] == '*',
    ensures
        glob_at(t, p, i, j) <==> (exists|k: int|
            i <= k <= t.len() && #[trigger] glob_at(t, p, k, j + 1)),
    decreases t.len() - i,
{
    if i < t.len() {
        lemma_glob_star_absorbs(t, p, i + 1, j);
    }
    if glob_at(t, p, i, j) {
        if !glob_at(t, p, i, j + 1) {
            let k = choose|k: int| i + 1 <= k <= t.len() && #[trigger] glob_at(t, p, k, j + 1);
            assert(glob_at(t, p, k, j + 1));
        }
    }
}

/// A class closes at or after the point reading starts from.
proof fn lemma_class_close(p: Seq<char>, start: int, j: int)
    requires
        0 <= j <= p.len() || j <= p.len() + 3,
    ensures
        class_close(p, start, j) >= j || class_close(p, start, j) == p.len(),
        class_close(p, start, j) <= p.len(),
    decreases p.len() - j,
{
    if j >= p.len() {
    } else if p[j] == ']' && j != start {
    } else if class_range(p, j) {
        lemma_class_close(p, start, j + 3);
    } else {
        lemma_class_close(p, start, j + 1);
    }
}

/// Glob match of `t[ti..]` against `p[pi..]`.
pub fn glob_rec(t: &Vec<char>, ti: usize, p: &Vec<char>, pi: usize) -> (r: bool)
    requires
        ti <= t@.len(),
        pi <= p@.len(),
    ensures
        r == glob_at(t@, p@, ti as int, pi as int),
    decreases p@.len() - pi,
{
    if pi == p.len() {
        return ti == t.len();
    }
    let c: char = p[pi];
    if c == '*' {
        proof {
            lemma_glob_star_absorbs(t@, p@, ti as int, pi as int);
        }
        let mut k: usize = ti;
        loop
            invariant
                ti <= k <= t@.len(),
                pi < p@.len(),
                p@.len() <= usize::MAX,
                glob_at(t@, p@, ti as int, pi as int) <==> (exists|k: int|
                    ti <= k <= t@.len() && #[trigger] glob_at(t@, p@, k, pi + 1)),
                p@[pi as int] == '*',
                forall|m: int| ti <= m < k ==> !#[trigger] glob_at(t@, p@, m, pi + 1),
            decreases t@.len() - k,
        {
            if glob_rec(t, k, p, pi + 1) {
                return true;
            }
            if k == t.len() {
                return false;
            }
            k += 1;
        }
    }
    if c == '?' {
        return ti < t.len() && glob_rec(t, ti + 1, p, pi + 1);
    }
    if c == '[' {
        if ti >= t.len() {
            return false;
        }
        let tc: char = t[ti];
        let negate: bool = pi + 1 < p.len() && p[pi + 1] == '!';
        let start: usize = if negate { pi + 2 } else { pi + 1 };
        let mut j: usize = start;
        let mut matched: bool = false;
        while j < p.len() && (p[j] != ']' || j == start)
            invariant
                start <= j,
                start <= p@.len() + 3,
                p@.len() <= usize::MAX,
                j <= p@.len(),
                class_close(p@, start as int, start as int) == class_close(p@, start as int, j as int),
                class_has(p@, start as int, start as int, tc) == (matched || class_has(
                    p@,
                    start as int,
                    j as int,
                    tc,
                )),
            decreases p@.len() - j,
        {
            if p.len() - j > 2 && p[j + 1] == '-' && p[j + 2] != ']' {
                if tc >= p[j] && tc <= p[j + 2] {
                    matched = true;
                }
                j += 3;
            } else {
                if tc == p[j] {
                    matched = true;
                }
                j += 1;
            }
        }
        if j >= p.len() {
            return false;
        }
        proof {
            lemma_class_close(p@, start as int, start as int);
        }
        if matched != negate {
            return glob_rec(t, ti + 1, p, j + 1);
        }
        return false;
    }
    ti < t.len() && t[ti] == c && glob_rec(t, ti + 1, p, pi + 1)
}

/// Shell glob over a whole string: `*` any run, `?` one character, `[abc]`,
/// `[a-z]` and `[!abc]` classes; case-sensitive.
pub fn glob_match(text: &str, pat: &str) -> (r: bool)
    ensures
        r == glob(text@, pat@),
{
    let t: Vec<char> = chars_of(text);
    let p: Vec<char> = chars_of(pat);
    glob_rec(&t, 0, &p, 0)
}

// ---------------------------------------------------------------- regular expressions

/// What the `regex` crate says of a pattern and a text: `None` when
/// `Regex::new` refuses the pattern, else whether the compiled expression's
/// `is_match` finds a match anywhere in the text.
pub uninterp spec fn regex_outcome(pat: Seq<char>, text: Seq<char>) -> Option<bool>;

/// `regex::Regex::new` on `pat` and, where it compiles, `Regex::is_match` on
/// `text`. Both are functions of their arguments; which patterns compile and
/// which texts they match is the crate's own syntax and is not restated here.
#[verifier::external_body]
fn regex_search(pat: &str, text: &str) -> (r: Option<bool>)
    ensures
        r == regex_outcome(pat@, text@),
{
    regex::Regex::new(pat).ok().map(|re| re.is_match(text))
}

/// A search outcome as a truth value: a pattern that does not compile matches
/// nothing.
pub fn regexp_verdict(outcome: Option<bool>) -> (r: bool)
    ensures
        r == (outcome == Some(true)),
{
    match outcome {
        Some(b) => b,
        None => false,
    }
}

/// Does `text` contain a match of the regular expression `pat`? An invalid
/// pattern matches nothing.
pub fn regexp_match(text: &str, pat: &str) -> (r: bool)
    ensures
        r == (regex_outcome(pat@, text@) == Some(true)),
{
    regexp_verdict(regex_search(pat, text))
}

} // verus!
