//! A file of JSON lines in ranges that are looked at apart: where the ranges lie,
//! what one of them tells of the columns, and what all of them tell together.
use vstd::prelude::*;
use crate::compare::agree;
use crate::host::{Answers, Ask};
use crate::infer::{find_name, keys_of, lemma_name_place, lemma_runs_infer_the_same, merged, name_place, nothing, seen_all, sound, tidy_value, type_of, type_views, Infer, InferV, JType, JTypeV};
use crate::jcolumn::{lemma_type_readable, readable};
use crate::json::Members;
use crate::jsonl::{in_row, known, named, names_of, plans, read_lines, row_views, rows_from, Row};
use crate::value::{dup_texts, texts, DataType, Datum};

verus! {

// ------------------------------------------------------------------ ranges

/// About where range `i` of `nparts` starts in a file of `len` bytes.
pub fn probe_at(len: u64, i: u64, nparts: u64) -> (r: u64)
    requires
        i < nparts,
    ensures
        r == (len * i) / (nparts as int),
        r <= len,
{
    let ghost x = (len * i) / (nparts as int);
    proof {
        assert(len * i <= len * nparts && 0 <= len * i <= 0xffff_ffff_ffff_ffff
            * 0xffff_ffff_ffff_ffff) by (nonlinear_arith)
            requires
                i < nparts,
        ;
        assert((len * i) / (nparts as int) <= len && 0 <= (len * i) / (nparts as int)) by (nonlinear_arith)
            requires
                0 <= len * i <= len * nparts,
                nparts > 0,
        ;
    }
    ((len as u128 * i as u128) / (nparts as u128)) as u64
}

/// The bounds after the first `n` line ends: one that moves forward and lies
/// within the file is taken.
pub open spec fn bounds(len: u64, ends: Seq<u64>, n: nat) -> Seq<u64>
    decreases n,
{
    if n == 0 {
        seq![0u64]
    } else {
        let b = bounds(len, ends, (n - 1) as nat);
        if b.last() < ends[n - 1] < len {
            b.push(ends[n - 1])
        } else {
            b
        }
    }
}

/// The ranges between the bounds, the last up to the end of the file.
pub open spec fn ranges(b: Seq<u64>, len: u64) -> Seq<(u64, u64)> {
    Seq::new(
        b.len(),
        |i: int|
            (
                b[i],
                if i + 1 < b.len() {
                    b[i + 1]
                } else {
                    len
                },
            ),
    )
}

proof fn lemma_bounds(len: u64, ends: Seq<u64>, n: nat)
    requires
        len > 0,
        n <= ends.len(),
    ensures
        bounds(len, ends, n).len() >= 1,
        bounds(len, ends, n)[0] == 0,
        forall|i: int, j: int|
            0 <= i < j < bounds(len, ends, n).len() ==> bounds(len, ends, n)[i] < bounds(
                len,
                ends,
                n,
            )[j],
        forall|i: int| 0 <= i < bounds(len, ends, n).len() ==> bounds(len, ends, n)[i] < len,
        forall|i: int|
            0 < i < bounds(len, ends, n).len() ==> ends.contains(#[trigger] bounds(len, ends, n)[i]),
    decreases n,
{
    if n > 0 {
        lemma_bounds(len, ends, (n - 1) as nat);
        assert(ends.contains(ends[n - 1]));
    }
}

/// The ranges cover the file exactly: the first starts at its start, each starts
/// where the one before it ends, the last ends at its end, none is empty, and
/// every inner bound is one of the line ends.
pub proof fn lemma_ranges_cover(len: u64, ends: Seq<u64>)
    requires
        len > 0,
    ensures
        ({
            let r = ranges(bounds(len, ends, ends.len()), len);
            &&& r.len() >= 1
            &&& r[0].0 == 0
            &&& r.last().1 == len
            &&& forall|i: int| 0 <= i < r.len() ==> (#[trigger] r[i]).0 < r[i].1
            &&& forall|i: int, j: int|
                0 <= i && j == i + 1 && j < r.len() ==> (#[trigger] r[i]).1 == (#[trigger] r[j]).0
            &&& forall|i: int| 0 < i < r.len() ==> ends.contains((#[trigger] r[i]).0)
        }),
{
    lemma_bounds(len, ends, ends.len());
}

/// The ranges of a file of `len` bytes, where `ends` are the ends of the lines at
/// the places of [`probe_at`], in order; `None` where the file is empty.
pub fn snap_ranges(len: u64, ends: &Vec<u64>) -> (r: Option<Vec<(u64, u64)>>)
    ensures
        r is None <==> len == 0,
        r matches Some(v) ==> v@ == ranges(bounds(len, ends@, ends@.len()), len),
{
    if len == 0 {
        return None;
    }
    let mut out: Vec<(u64, u64)> = Vec::new();
    let mut start: u64 = 0;
    for i in 0..ends.len()
        invariant
            start == bounds(len, ends@, i as nat).last(),
            bounds(len, ends@, i as nat).len() == out@.len() + 1,
            forall|k: int|
                0 <= k < out@.len() ==> (#[trigger] out@[k]) == (
                    bounds(len, ends@, i as nat)[k],
                    bounds(len, ends@, i as nat)[k + 1],
                ),
    {
        let e: u64 = ends[i];
        if start < e && e < len {
            out.push((start, e));
            start = e;
        }
    }
    out.push((start, len));
    assert(out@ =~= ranges(bounds(len, ends@, ends@.len()), len));
    Some(out)
}

// --------------------------------------------------------------- inference

/// What a range tells: every name that its rows have and what is known of it, the
/// names of its first row, and how many lines were malformed.
#[derive(Debug)]
pub struct RangeInfer {
    pub names: Vec<String>,
    pub infers: Vec<Infer>,
    pub first_names: Option<Vec<String>>,
    pub bad_rows: usize,
}

/// The names are those that have values, each once, and what is known of each is
/// what its values tell.
pub open spec fn tells(names: Seq<String>, infers: Seq<Infer>, f: spec_fn(Seq<char>) -> Seq<Datum>) -> bool {
    &&& names.len() == infers.len()
    &&& texts(names).no_duplicates()
    &&& forall|i: int|
        0 <= i < names.len() ==> (#[trigger] infers[i])@ == seen_all(nothing(), f(names[i]@))
            && sound(infers[i]@)
    &&& forall|k: Seq<char>| (#[trigger] f(k)).len() > 0 <==> texts(names).contains(k)
}

impl RangeInfer {
    /// What the rows of a range tell.
    pub open spec fn of(&self, rows: Seq<Row>, bad: nat) -> bool {
        &&& tells(self.names@, self.infers@, |k: Seq<char>| named(rows, k))
        &&& self.bad_rows == bad
        &&& match self.first_names {
            Some(v) => rows.len() > 0 && texts(v@) == keys_of(rows[0]),
            None => rows.len() == 0,
        }
    }

    /// Every name has what is known of it.
    pub open spec fn wf(&self) -> bool {
        &&& self.names@.len() == self.infers@.len()
        &&& forall|i: int| 0 <= i < self.infers@.len() ==> sound((#[trigger] self.infers@[i])@)
    }

    /// What is known of a name.
    pub open spec fn of_name(&self, k: Seq<char>) -> Option<InferV> {
        match name_place(texts(self.names@), k) {
            None => None,
            Some(i) => Some(self.infers@[i]@),
        }
    }
}

proof fn lemma_seen_all_push(s: Seq<Datum>, d: Datum)
    ensures
        seen_all(nothing(), s.push(d)) == crate::infer::seen(seen_all(nothing(), s), d),
{
    assert(s.push(d).drop_last() =~= s);
}

/// One member more.
fn note(
    names: &mut Vec<String>,
    infers: &mut Vec<Infer>,
    member: &(String, crate::value::Value),
    Ghost(f): Ghost<spec_fn(Seq<char>) -> Seq<Datum>>,
    Ghost(g): Ghost<spec_fn(Seq<char>) -> Seq<Datum>>,
)
    requires
        tells(old(names)@, old(infers)@, f),
        forall|k: Seq<char>|
            #[trigger] g(k) == if k == member.0@ {
                f(k).push(member.1@)
            } else {
                f(k)
            },
    ensures
        tells(final(names)@, final(infers)@, g),
{
    let ghost was = names@;
    let ghost knew = infers@;
    proof {
        lemma_name_place(texts(was), member.0@);
    }
    match find_name(names, member.0.as_str()) {
        Some(i) => {
            infers[i].observe(&member.1);
            proof {
                lemma_seen_all_push(f(member.0@), member.1@);
                assert forall|j: int| 0 <= j < names@.len() implies (#[trigger] infers@[j])@
                    == seen_all(nothing(), g(names@[j]@)) && sound(infers@[j]@) by {
                    assert(texts(was)[j] == names@[j]@);
                    assert(knew[j]@ == seen_all(nothing(), f(names@[j]@)));
                    assert(g(names@[j]@) == g(names@[j]@));
                }
                assert forall|k: Seq<char>| (#[trigger] g(k)).len() > 0 <==> texts(
                    names@,
                ).contains(k) by {
                    assert(f(k).len() > 0 <==> texts(was).contains(k));
                    assert(texts(was)[i as int] == member.0@);
                }
            }
        },
        None => {
            let mut inf: Infer = Infer::new();
            inf.observe(&member.1);
            names.push(member.0.clone());
            infers.push(inf);
            proof {
                let k0 = member.0@;
                assert(texts(names@) =~= texts(was).push(k0));
                assert(f(k0).len() > 0 <==> texts(was).contains(k0));
                assert(f(k0) =~= Seq::empty());
                lemma_seen_all_push(f(k0), member.1@);
                assert(seen_all(nothing(), f(k0)) == nothing());
                assert forall|j: int| 0 <= j < names@.len() implies (#[trigger] infers@[j])@
                    == seen_all(nothing(), g(names@[j]@)) && sound(infers@[j]@) by {
                    if j < was.len() {
                        assert(texts(was)[j] == names@[j]@);
                        assert(texts(was).contains(names@[j]@));
                        assert(knew[j]@ == seen_all(nothing(), f(names@[j]@)));
                    }
                    assert(g(names@[j]@) == g(names@[j]@));
                }
                assert forall|k: Seq<char>| (#[trigger] g(k)).len() > 0 <==> texts(
                    names@,
                ).contains(k) by {
                    assert(f(k).len() > 0 <==> texts(was).contains(k));
                    if k == k0 {
                        assert(texts(names@)[was.len() as int] == k0);
                    } else {
                        if texts(was).contains(k) {
                            let j = choose|j: int| 0 <= j < was.len() && texts(was)[j] == k;
                            assert(texts(names@)[j] == k);
                        }
                        if texts(names@).contains(k) {
                            let j = choose|j: int| 0 <= j < names@.len() && texts(names@)[j] == k;
                            assert(texts(was)[j] == k);
                        }
                    }
                }
            }
        },
    }
}

/// The values of a name in the rows before `r` and in the first `c` members of
/// row `r`.
spec fn so_far(rows: Seq<Row>, r: int, c: int) -> spec_fn(Seq<char>) -> Seq<Datum> {
    |k: Seq<char>| named(rows.take(r), k) + in_row(rows[r].take(c), k)
}

/// Looks at the lines of one range. Every name is looked at, since the names of
/// the first row of the file may stand in another range.
pub fn infer_range(lines: &Vec<String>, host: &Answers) -> (r: Result<RangeInfer, Ask>)
    ensures
        agree(
            r,
            rows_from(texts(lines@), 0, host@),
            |a: RangeInfer, b: (Seq<Row>, nat)| a.of(b.0, b.1) && a.wf(),
        ),
{
    let (rows, bad_rows) = match read_lines(lines, host) {
        Err(a) => {
            return Err(a);
        },
        Ok(x) => x,
    };
    let ghost rv = row_views(rows@);
    let mut names: Vec<String> = Vec::new();
    let mut infers: Vec<Infer> = Vec::new();
    assert(rv.take(0) =~= Seq::empty());
    for i in 0..rows.len()
        invariant
            rv == row_views(rows@),
            tells(names@, infers@, |k: Seq<char>| named(rv.take(i as int), k)),
    {
        let row: &Members = &rows[i];
        let size: usize = row.len();
        let ghost mv = rv[i as int];
        proof {
            let f = |k: Seq<char>| named(rv.take(i as int), k);
            let g = so_far(rv, i as int, 0);
            assert(mv.take(0) =~= Seq::empty());
            assert forall|k: Seq<char>| #[trigger] g(k) == f(k) by {
                assert(g(k) =~= named(rv.take(i as int), k));
            }
            lemma_same_telling(names@, infers@, f, g);
        }
        for c in 0..size
            invariant
                rv == row_views(rows@),
                i < rows@.len(),
                *row == rows@[i as int],
                size == row@.len(),
                mv == rv[i as int],
                tells(names@, infers@, so_far(rv, i as int, c as int)),
        {
            let ghost f = so_far(rv, i as int, c as int);
            let ghost g = so_far(rv, i as int, c + 1);
            proof {
                assert(mv.take(c + 1).drop_last() =~= mv.take(c as int));
                assert(mv[c as int] == (row@[c as int].0@, row@[c as int].1@));
                assert forall|k: Seq<char>|
                    #[trigger] g(k) == if k == row@[c as int].0@ {
                        f(k).push(row@[c as int].1@)
                    } else {
                        f(k)
                    } by {
                    if k == row@[c as int].0@ {
                        assert(g(k) =~= f(k).push(row@[c as int].1@));
                    }
                }
            }
            note(&mut names, &mut infers, &row[c], Ghost(f), Ghost(g));
        }
        proof {
            let f = so_far(rv, i as int, size as int);
            let g = |k: Seq<char>| named(rv.take(i + 1), k);
            assert(mv.take(size as int) =~= mv);
            assert(rv.take(i + 1).drop_last() =~= rv.take(i as int));
            assert forall|k: Seq<char>| #[trigger] g(k) == f(k) by {}
            lemma_same_telling(names@, infers@, f, g);
        }
    }
    assert(rv.take(rows@.len() as int) =~= rv);
    let first_names: Option<Vec<String>> = if rows.len() == 0 {
        None
    } else {
        Some(names_of(&rows[0]))
    };
    Ok(RangeInfer { names, infers, first_names, bad_rows })
}

proof fn lemma_same_telling(
    names: Seq<String>,
    infers: Seq<Infer>,
    f: spec_fn(Seq<char>) -> Seq<Datum>,
    g: spec_fn(Seq<char>) -> Seq<Datum>,
)
    requires
        tells(names, infers, f),
        forall|k: Seq<char>| #[trigger] g(k) == f(k),
    ensures
        tells(names, infers, g),
{
    assert forall|i: int| 0 <= i < names.len() implies (#[trigger] infers[i])@ == seen_all(
        nothing(),
        g(names[i]@),
    ) && sound(infers[i]@) by {
        assert(g(names[i]@) == f(names[i]@));
    }
    assert forall|k: Seq<char>| (#[trigger] g(k)).len() > 0 <==> texts(names).contains(k) by {
        assert(f(k).len() > 0 <==> texts(names).contains(k));
    }
}

// -------------------------------------------------------------------- plan

/// What the first `n` ranges tell of a name, put together in order.
pub open spec fn together(parts: Seq<RangeInfer>, n: nat, k: Seq<char>) -> Option<InferV>
    decreases n,
{
    if n == 0 {
        None
    } else {
        match (together(parts, (n - 1) as nat, k), parts[n - 1].of_name(k)) {
            (None, x) => x,
            (Some(a), None) => Some(a),
            (Some(a), Some(b)) => Some(merged(a, b)),
        }
    }
}

/// The names of the first row of the earliest range that has one.
pub open spec fn first_names(parts: Seq<RangeInfer>, n: nat) -> Option<Seq<Seq<char>>>
    decreases n,
{
    if n == 0 {
        None
    } else {
        match (first_names(parts, (n - 1) as nat), parts[n - 1].first_names) {
            (Some(v), _) => Some(v),
            (None, Some(v)) => Some(texts(v@)),
            (None, None) => None,
        }
    }
}

/// The malformed lines of the first `n` ranges.
pub open spec fn all_bad(parts: Seq<RangeInfer>, n: nat) -> nat
    decreases n,
{
    if n == 0 {
        0
    } else {
        all_bad(parts, (n - 1) as nat) + parts[n - 1].bad_rows as nat
    }
}

/// The type of a name that ranges tell together: text where no range knows it.
pub open spec fn together_type(parts: Seq<RangeInfer>, k: Seq<char>) -> JTypeV {
    match together(parts, parts.len(), k) {
        Some(a) => type_of(a),
        None => JTypeV::Scalar(DataType::Str),
    }
}

fn merge_name(parts: &Vec<RangeInfer>, k: &str) -> (r: JType)
    requires
        forall|i: int| 0 <= i < parts@.len() ==> (#[trigger] parts@[i]).wf(),
    ensures
        r@ == together_type(parts@, k@),
        readable(r@),
{
    let mut all: Option<Infer> = None;
    for i in 0..parts.len()
        invariant
            forall|i: int| 0 <= i < parts@.len() ==> (#[trigger] parts@[i]).wf(),
            match (all, together(parts@, i as nat, k@)) {
                (Some(a), Some(b)) => a@ == b && sound(b),
                (None, None) => true,
                _ => false,
            },
    {
        assert(parts@[i as int].wf());
        if let Some(p) = find_name(&parts[i].names, k) {
            let o: &Infer = &parts[i].infers[p];
            assert(sound(o@));
            all = match all {
                None => Some(o.dup()),
                Some(mut a) => {
                    a.merge(o);
                    Some(a)
                },
            };
        }
    }
    match all {
        Some(a) => {
            proof {
                lemma_type_readable(a@);
            }
            a.resolve()
        },
        None => JType::Scalar(DataType::Str),
    }
}

/// Puts together what the ranges of a file tell, in order: the names come from
/// the earliest range that has a row, other names are dropped, and the malformed
/// lines are added up. `None` where no range has a row, and where the first row
/// has no names.
pub fn plan_parallel(parts: &Vec<RangeInfer>) -> (r: Option<(Vec<String>, Vec<JType>, usize)>)
    requires
        forall|i: int| 0 <= i < parts@.len() ==> (#[trigger] parts@[i]).wf(),
        all_bad(parts@, parts@.len()) <= usize::MAX,
    ensures
        match (r, first_names(parts@, parts@.len())) {
            (Some((names, types, bad)), Some(v)) => v.len() > 0 && plans(
                names@,
                types@,
                (v, Seq::new(v.len(), |j: int| together_type(parts@, v[j]))),
            ) && bad == all_bad(parts@, parts@.len()),
            (None, Some(v)) => v.len() == 0,
            (None, None) => true,
            _ => false,
        },
{
    let mut names: Option<Vec<String>> = None;
    let mut bad: usize = 0;
    for i in 0..parts.len()
        invariant
            all_bad(parts@, parts@.len()) <= usize::MAX,
            bad == all_bad(parts@, i as nat),
            match (names, first_names(parts@, i as nat)) {
                (Some(a), Some(b)) => texts(a@) == b,
                (None, None) => true,
                _ => false,
            },
    {
        proof {
            lemma_bad_grows(parts@, (i + 1) as nat, parts@.len());
        }
        bad = bad + parts[i].bad_rows;
        if names.is_none() {
            if let Some(v) = &parts[i].first_names {
                names = Some(dup_texts(v));
            }
        }
    }
    match names {
        None => None,
        Some(names) => {
            assert(texts(names@).len() == names@.len());
            if names.len() == 0 {
                return None;
            }
            let mut types: Vec<JType> = Vec::new();
            for j in 0..names.len()
                invariant
                    forall|i: int| 0 <= i < parts@.len() ==> (#[trigger] parts@[i]).wf(),
                    types@.len() == j,
                    forall|k: int|
                        0 <= k < j ==> (#[trigger] types@[k])@ == together_type(parts@, names@[k]@)
                            && readable(types@[k]@),
            {
                types.push(merge_name(parts, names[j].as_str()));
            }
            proof {
                let v = texts(names@);
                assert(type_views(types@) =~= Seq::new(
                    v.len(),
                    |j: int| together_type(parts@, v[j]),
                ));
            }
            Some((names, types, bad))
        },
    }
}

proof fn lemma_bad_grows(parts: Seq<RangeInfer>, n: nat, m: nat)
    requires
        n <= m,
    ensures
        all_bad(parts, n) <= all_bad(parts, m),
    decreases m - n,
{
    if n < m {
        lemma_bad_grows(parts, n, (m - 1) as nat);
    }
}

proof fn lemma_named_split(x: Seq<Row>, y: Seq<Row>, k: Seq<char>)
    ensures
        named(x + y, k) == named(x, k) + named(y, k),
    decreases y.len(),
{
    if y.len() == 0 {
        assert(x + y =~= x);
        assert(named(x, k) + named(y, k) =~= named(x, k));
    } else {
        lemma_named_split(x, y.drop_last(), k);
        assert((x + y).drop_last() =~= x + y.drop_last());
        assert(named(x + y, k) =~= named(x, k) + named(y, k));
    }
}

/// Two ranges looked at apart tell of a name what one pass over their rows
/// tells. No object holds a name twice.
pub proof fn lemma_ranges_tell_the_same(a: RangeInfer, x: Seq<Row>, b: RangeInfer, y: Seq<Row>, k: Seq<char>)
    requires
        a.of(x, a.bad_rows as nat),
        b.of(y, b.bad_rows as nat),
        forall|i: int| 0 <= i < named(x, k).len() ==> tidy_value(#[trigger] named(x, k)[i]),
        forall|i: int| 0 <= i < named(y, k).len() ==> tidy_value(#[trigger] named(y, k)[i]),
    ensures
        match together(seq![a, b], 2, k) {
            Some(t) => t == known(x + y, k),
            None => named(x + y, k).len() == 0,
        },
        together_type(seq![a, b], k) == type_of(known(x + y, k)),
{
    lemma_named_split(x, y, k);
    lemma_runs_infer_the_same(named(x, k), named(y, k));
    lemma_of_name(a, x, k);
    lemma_of_name(b, y, k);
    let p = seq![a, b];
    reveal_with_fuel(together, 3);
    assert(together(p, 1, k) == a.of_name(k));
    if named(x, k).len() == 0 {
        assert(named(x, k) + named(y, k) =~= named(y, k));
    }
    if named(y, k).len() == 0 {
        assert(named(x, k) + named(y, k) =~= named(x, k));
    }
}

proof fn lemma_of_name(a: RangeInfer, x: Seq<Row>, k: Seq<char>)
    requires
        a.of(x, a.bad_rows as nat),
    ensures
        match a.of_name(k) {
            Some(i) => i == known(x, k) && named(x, k).len() > 0,
            None => named(x, k).len() == 0,
        },
{
    let f = |k: Seq<char>| named(x, k);
    lemma_name_place(texts(a.names@), k);
    assert(f(k).len() > 0 <==> texts(a.names@).contains(k));
}

} // verus!
