//! Choosing rows of a chunk, and the composite keys of rows.
use vstd::prelude::*;
use crate::cast::{render, rendered};
use crate::chunk::{gathered, gathered_lane, index_in, index_of, lemma_gathered_wf, lemma_index_in, batches, Batch, Chunk, FieldV};
use crate::compare::{agree, lemma_text_order_equal, lemma_text_order_reversed, lemma_text_order_less, rank_texts, text_order};
use crate::float::Rank;
use crate::host::{Answers, Ask, Log, Query};
use crate::value::texts;

verus! {

/// The numbers below `n` on which `f` holds, in ascending order; the first
/// question that comes up, where one does.
pub open spec fn kept(f: spec_fn(int) -> Result<bool, Query>, n: nat) -> Result<Seq<usize>, Query>
    decreases n,
{
    if n == 0 {
        Ok(Seq::empty())
    } else {
        match kept(f, (n - 1) as nat) {
            Err(q) => Err(q),
            Ok(s) => match f(n - 1) {
                Err(q) => Err(q),
                Ok(yes) => Ok(
                    if yes {
                        s.push((n - 1) as usize)
                    } else {
                        s
                    },
                ),
            },
        }
    }
}

/// What is kept is exactly what `f` holds on, each once and in order.
pub proof fn lemma_kept(f: spec_fn(int) -> Result<bool, Query>, n: nat)
    requires
        n <= usize::MAX,
    ensures
        kept(f, n) matches Ok(s) ==> {
            &&& forall|i: int| 0 <= i < s.len() ==> (#[trigger] s[i]) < n && f(s[i] as int) == Ok::<
                bool,
                Query,
            >(true)
            &&& forall|i: int, j: int| 0 <= i < j < s.len() ==> (#[trigger] s[i]) < (#[trigger] s[j])
            &&& forall|r: usize|
                r < n && (#[trigger] f(r as int)) == Ok::<bool, Query>(true) ==> s.contains(r)
            &&& s.len() <= n
        },
    decreases n,
{
    if n > 0 {
        lemma_kept(f, (n - 1) as nat);
        if let Ok(s) = kept(f, (n - 1) as nat) {
            if let Ok(t) = kept(f, n) {
                assert forall|r: usize| r < n && (#[trigger] f(r as int)) == Ok::<bool, Query>(
                    true,
                ) implies t.contains(r) by {
                    if r < n - 1 {
                        assert(s.contains(r));
                        let k = choose|k: int| 0 <= k < s.len() && s[k] == r;
                        assert(t[k] == r);
                    } else {
                        assert(t[s.len() as int] == r);
                    }
                }
            }
        }
    }
}

/// A question that comes up among the first rows comes up among all.
pub proof fn lemma_kept_stops(f: spec_fn(int) -> Result<bool, Query>, n: nat, m: nat)
    requires
        kept(f, n) is Err,
        n <= m,
    ensures
        kept(f, m) == kept(f, n),
    decreases m,
{
    if n < m {
        lemma_kept_stops(f, n, (m - 1) as nat);
    }
}

/// An ascending list of `n` numbers below `n` is the list of all of them.
proof fn lemma_all_kept(s: Seq<usize>, n: nat, i: int)
    requires
        s.len() == n,
        forall|i: int| 0 <= i < s.len() ==> (#[trigger] s[i]) < n,
        forall|i: int, j: int| 0 <= i < j < s.len() ==> (#[trigger] s[i]) < (#[trigger] s[j]),
        0 <= i < n,
    ensures
        s[i] == i,
{
    lemma_rank_low(s, i);
    lemma_rank_high(s, n, i);
}

proof fn lemma_rank_low(s: Seq<usize>, i: int)
    requires
        forall|i: int, j: int| 0 <= i < j < s.len() ==> (#[trigger] s[i]) < (#[trigger] s[j]),
        0 <= i < s.len(),
    ensures
        s[i] >= i,
    decreases i,
{
    if i > 0 {
        lemma_rank_low(s, i - 1);
        assert(s[i - 1] < s[i]);
    }
}

proof fn lemma_rank_high(s: Seq<usize>, n: nat, i: int)
    requires
        s.len() == n,
        forall|i: int| 0 <= i < s.len() ==> (#[trigger] s[i]) < n,
        forall|i: int, j: int| 0 <= i < j < s.len() ==> (#[trigger] s[i]) < (#[trigger] s[j]),
        0 <= i < n,
    ensures
        s[i] <= i,
    decreases n - i,
{
    if i < n - 1 {
        lemma_rank_high(s, n, i + 1);
        assert(s[i] < s[i + 1]);
    }
}

/// Gathering every row in order gives the chunk itself.
pub proof fn lemma_gather_all(b: Batch, s: Seq<usize>)
    requires
        b.wf(),
        s.len() == b.len,
        forall|i: int| 0 <= i < s.len() ==> (#[trigger] s[i]) == i,
    ensures
        gathered(b, s) == b,
{
    assert forall|c: int| 0 <= c < b.columns.len() implies gathered_lane(
        #[trigger] b.columns[c],
        s,
    ) == b.columns[c] by {
        assert(gathered_lane(b.columns[c], s).cells =~= b.columns[c].cells);
    }
    assert(gathered(b, s).columns =~= b.columns);
}

/// What an operator that keeps rows hands on: the kept rows, or nothing where
/// there are none.
pub open spec fn emitted(b: Batch, keep: Seq<usize>) -> Seq<Batch> {
    if keep.len() == 0 {
        Seq::empty()
    } else {
        seq![gathered(b, keep)]
    }
}

/// What an operator that keeps rows hands on (see [`emitted`]). A chunk of which
/// all rows are kept passes as it is.
pub fn emit(chunk: &Chunk, keep: &Vec<usize>) -> (r: Vec<Chunk>)
    requires
        chunk@.wf(),
        forall|i: int| 0 <= i < keep@.len() ==> (#[trigger] keep@[i]) < chunk.len,
        forall|i: int, j: int| 0 <= i < j < keep@.len() ==> (#[trigger] keep@[i]) < (#[trigger] keep@[j]),
    ensures
        batches(r@) == emitted(chunk@, keep@),
        all_wf(batches(r@)),
{
    let mut r: Vec<Chunk> = Vec::new();
    if keep.len() == 0 {
        assert(batches(r@) =~= Seq::empty());
        return r;
    }
    proof {
        lemma_gathered_wf(chunk@, keep@);
    }
    if keep.len() == chunk.len {
        proof {
            assert forall|i: int| 0 <= i < keep@.len() implies (#[trigger] keep@[i]) == i by {
                lemma_all_kept(keep@, chunk@.len, i);
            }
            lemma_gather_all(chunk@, keep@);
        }
        r.push(chunk.dup());
    } else {
        r.push(chunk.gather(keep));
    }
    assert(batches(r@) =~= seq![gathered(chunk@, keep@)]);
    r
}

/// Every chunk of a list is well formed.
pub open spec fn all_wf(s: Seq<Batch>) -> bool {
    forall|i: int| 0 <= i < s.len() ==> (#[trigger] s[i]).wf()
}

// ------------------------------------------------------------------ keys

/// The places of the named columns, the unknown names left out.
pub open spec fn known(fields: Seq<FieldV>, names: Seq<Seq<char>>) -> Seq<usize>
    decreases names.len(),
{
    if names.len() == 0 {
        Seq::empty()
    } else {
        let up = known(fields, names.drop_last());
        match index_in(fields, names.last()) {
            Some(i) => up.push(i as usize),
            None => up,
        }
    }
}

/// Every place is that of a field.
pub open spec fn within(fields: Seq<FieldV>, at: Seq<usize>) -> bool {
    forall|i: int| 0 <= i < at.len() ==> (#[trigger] at[i]) < fields.len()
}

/// The places of the named columns, the unknown names left out.
pub fn known_columns(chunk: &Chunk, names: &Vec<String>) -> (r: Vec<usize>)
    ensures
        r@ == known(chunk@.fields, texts(names@)),
        within(chunk@.fields, r@),
{
    let mut r: Vec<usize> = Vec::new();
    let ghost t = texts(names@);
    for n in 0..names.len()
        invariant
            t == texts(names@),
            r@ == known(chunk@.fields, t.take(n as int)),
            within(chunk@.fields, r@),
    {
        proof {
            assert(t.take(n + 1).drop_last() =~= t.take(n as int));
            assert(t.take(n + 1).last() == names@[n as int]@);
        }
        match index_of(&chunk.fields, names[n].as_str()) {
            Some(i) => {
                r.push(i);
            },
            None => {},
        }
    }
    assert(t.take(t.len() as int) =~= t);
    r
}

/// The first of the names that is no column.
pub open spec fn unknown(fields: Seq<FieldV>, names: Seq<Seq<char>>) -> Option<int>
    decreases names.len(),
{
    if names.len() == 0 {
        None
    } else {
        match unknown(fields, names.drop_last()) {
            Some(i) => Some(i),
            None => if index_in(fields, names.last()) is None {
                Some(names.len() - 1)
            } else {
                None
            },
        }
    }
}

/// The places of the named columns, in order; else the number of the first name
/// that is no column.
pub fn resolve_names(chunk: &Chunk, names: &Vec<String>) -> (r: Result<Vec<usize>, usize>)
    ensures
        match r {
            Ok(at) => unknown(chunk@.fields, texts(names@)) is None && at@ == known(
                chunk@.fields,
                texts(names@),
            ) && at@.len() == names@.len() && within(chunk@.fields, at@),
            Err(i) => unknown(chunk@.fields, texts(names@)) == Some(i as int) && i < names@.len(),
        },
{
    let mut r: Vec<usize> = Vec::new();
    let ghost t = texts(names@);
    for n in 0..names.len()
        invariant
            t == texts(names@),
            r@ == known(chunk@.fields, t.take(n as int)),
            r@.len() == n,
            unknown(chunk@.fields, t.take(n as int)) is None,
            within(chunk@.fields, r@),
    {
        proof {
            assert(t.take(n + 1).drop_last() =~= t.take(n as int));
            assert(t.take(n + 1).last() == names@[n as int]@);
        }
        match index_of(&chunk.fields, names[n].as_str()) {
            Some(i) => {
                r.push(i);
            },
            None => {
                proof {
                    lemma_unknown_stays(chunk@.fields, t, n + 1);
                }
                return Err(n);
            },
        }
    }
    assert(t.take(t.len() as int) =~= t);
    Ok(r)
}

proof fn lemma_unknown_stays(fields: Seq<FieldV>, names: Seq<Seq<char>>, n: int)
    requires
        0 <= n <= names.len(),
        unknown(fields, names.take(n)) is Some,
    ensures
        unknown(fields, names) == unknown(fields, names.take(n)),
    decreases names.len(),
{
    if n < names.len() {
        assert(names.drop_last().take(n) =~= names.take(n));
        lemma_unknown_stays(fields, names.drop_last(), n);
    } else {
        assert(names.take(n) =~= names);
    }
}

/// Known places are places of fields.
pub proof fn lemma_known_within(fields: Seq<FieldV>, names: Seq<Seq<char>>)
    requires
        fields.len() <= usize::MAX,
    ensures
        within(fields, known(fields, names)),
        unknown(fields, names) is None ==> known(fields, names).len() == names.len(),
    decreases names.len(),
{
    if names.len() > 0 {
        lemma_known_within(fields, names.drop_last());
        lemma_index_in(fields, names.last());
    }
}

/// The places of all columns.
pub open spec fn every(n: nat) -> Seq<usize> {
    Seq::new(n, |i: int| i as usize)
}

/// The columns that an operator looks at: the named ones, or all of them where
/// none is named.
pub open spec fn targets(b: Batch, names: Seq<Seq<char>>) -> Seq<usize> {
    if names.len() == 0 {
        every(b.columns.len())
    } else {
        known(b.fields, names)
    }
}

/// The columns that an operator looks at (see [`targets`]).
pub fn target_columns(chunk: &Chunk, names: &Vec<String>) -> (r: Vec<usize>)
    requires
        chunk@.wf(),
    ensures
        r@ == targets(chunk@, texts(names@)),
        forall|i: int| 0 <= i < r@.len() ==> (#[trigger] r@[i]) < chunk@.columns.len(),
{
    if names.len() == 0 {
        let mut r: Vec<usize> = Vec::new();
        for i in 0..chunk.columns.len()
            invariant
                r@.len() == i,
                forall|k: int| 0 <= k < i ==> (#[trigger] r@[k]) == k,
        {
            r.push(i);
        }
        assert(r@ =~= every(chunk@.columns.len()));
        r
    } else {
        known_columns(chunk, names)
    }
}

/// The texts of a row's cells in the given columns.
pub open spec fn key_parts(b: Batch, at: Seq<usize>, row: int, n: nat, log: Log) -> Result<
    Seq<Seq<char>>,
    Query,
>
    decreases n,
{
    if n == 0 {
        Ok(Seq::empty())
    } else {
        match key_parts(b, at, row, (n - 1) as nat, log) {
            Err(q) => Err(q),
            Ok(s) => match rendered(b.cell(row, at[n - 1] as int), log) {
                Err(q) => Err(q),
                Ok(t) => Ok(s.push(t)),
            },
        }
    }
}

proof fn lemma_parts_stop(b: Batch, at: Seq<usize>, row: int, n: nat, m: nat, log: Log)
    requires
        key_parts(b, at, row, n, log) is Err,
        n <= m,
    ensures
        key_parts(b, at, row, m, log) == key_parts(b, at, row, n, log),
    decreases m,
{
    if n < m {
        lemma_parts_stop(b, at, row, n, (m - 1) as nat, log);
    }
}

/// A row's key has one part for each column.
pub proof fn lemma_parts_len(b: Batch, at: Seq<usize>, row: int, n: nat, log: Log)
    ensures
        key_parts(b, at, row, n, log) matches Ok(s) ==> s.len() == n,
    decreases n,
{
    if n > 0 {
        lemma_parts_len(b, at, row, (n - 1) as nat, log);
    }
}

/// The texts of a row's cells in the given columns (see [`key_parts`]).
pub fn parts_of(chunk: &Chunk, at: &Vec<usize>, row: usize, host: &Answers) -> (r: Result<
    Vec<String>,
    Ask,
>)
    requires
        chunk@.wf(),
        row < chunk.len,
        forall|i: int| 0 <= i < at@.len() ==> (#[trigger] at@[i]) < chunk@.columns.len(),
    ensures
        agree(
            r,
            key_parts(chunk@, at@, row as int, at@.len(), host@),
            |a: Vec<String>, b: Seq<Seq<char>>| texts(a@) == b,
        ),
{
    let mut out: Vec<String> = Vec::new();
    assert(texts(out@) =~= Seq::empty());
    for n in 0..at.len()
        invariant
            chunk@.wf(),
            row < chunk.len,
            forall|i: int| 0 <= i < at@.len() ==> (#[trigger] at@[i]) < chunk@.columns.len(),
            key_parts(chunk@, at@, row as int, n as nat, host@) == Ok::<Seq<Seq<char>>, Query>(
                texts(out@),
            ),
    {
        let ghost before = texts(out@);
        let v = chunk.value(row, at[n]);
        match render(&v, host) {
            Ok(t) => {
                out.push(t);
                assert(texts(out@) =~= before.push(t@));
            },
            Err(a) => {
                proof {
                    assert(key_parts(chunk@, at@, row as int, (n + 1) as nat, host@) is Err);
                    lemma_parts_stop(
                        chunk@,
                        at@,
                        row as int,
                        (n + 1) as nat,
                        at@.len(),
                        host@,
                    );
                }
                return Err(a);
            },
        }
    }
    Ok(out)
}

/// Texts joined by the unit separator.
pub open spec fn joined(parts: Seq<Seq<char>>) -> Seq<char>
    decreases parts.len(),
{
    if parts.len() == 0 {
        Seq::empty()
    } else if parts.len() == 1 {
        parts[0]
    } else {
        joined(parts.drop_last()).push('\u{1f}') + parts.last()
    }
}

/// Texts joined by the unit separator.
pub fn join_parts(parts: &Vec<String>) -> (r: String)
    ensures
        r@ == joined(texts(parts@)),
{
    let mut s: String = String::new();
    let ghost t = texts(parts@);
    for n in 0..parts.len()
        invariant
            t == texts(parts@),
            s@ == joined(t.take(n as int)),
    {
        proof {
            assert(t.take(n + 1).drop_last() =~= t.take(n as int));
            assert(t.take(n + 1).last() == parts@[n as int]@);
            assert(t.take(n + 1)[0] == t[0]);
        }
        if n > 0 {
            s.push('\u{1f}');
        }
        s.push_str(parts[n].as_str());
        assert(n == 0 ==> s@ =~= parts@[0]@);
    }
    assert(t.take(t.len() as int) =~= t);
    s
}

/// A row's composite key: the texts of its cells in the given columns, joined.
pub open spec fn row_key(b: Batch, at: Seq<usize>, row: int, log: Log) -> Result<Seq<char>, Query> {
    match key_parts(b, at, row, at.len(), log) {
        Ok(p) => Ok(joined(p)),
        Err(q) => Err(q),
    }
}

/// A row's composite key (see [`row_key`]).
pub fn join_key_at(chunk: &Chunk, at: &Vec<usize>, row: usize, host: &Answers) -> (r: Result<
    String,
    Ask,
>)
    requires
        chunk@.wf(),
        row < chunk.len,
        forall|i: int| 0 <= i < at@.len() ==> (#[trigger] at@[i]) < chunk@.columns.len(),
    ensures
        agree(r, row_key(chunk@, at@, row as int, host@), |a: String, b: Seq<char>| a@ == b),
{
    match parts_of(chunk, at, row, host) {
        Ok(p) => Ok(join_parts(&p)),
        Err(a) => Err(a),
    }
}

/// Texts that hold no separator: what a parsed field can hold.
pub open spec fn plain_parts(p: Seq<Seq<char>>) -> bool {
    forall|i: int, j: int|
        0 <= i < p.len() && 0 <= j < p[i].len() ==> (#[trigger] p[i][j]) != '\u{1f}'
}

/// Distinct key tuples never collide: of as many parts each, with no separator
/// inside them, equal keys come from equal parts.
pub proof fn lemma_keys_never_collide(a: Seq<Seq<char>>, b: Seq<Seq<char>>)
    requires
        a.len() == b.len(),
        plain_parts(a),
        plain_parts(b),
        joined(a) == joined(b),
    ensures
        a == b,
    decreases a.len(),
{
    if a.len() == 0 {
        assert(a =~= b);
    } else if a.len() == 1 {
        assert(a =~= b);
    } else {
        let (x, y) = (joined(a.drop_last()), joined(b.drop_last()));
        let (u, v) = (a.last(), b.last());
        let s = x.push('\u{1f}') + u;
        assert(s == y.push('\u{1f}') + v);
        assert(a[a.len() - 1] == u && b[b.len() - 1] == v);
        if x.len() < y.len() {
            assert(s[y.len() as int] == '\u{1f}');
            assert(s[y.len() as int] == u[y.len() - x.len() - 1]);
            assert(a[a.len() - 1][y.len() - x.len() - 1] != '\u{1f}');
        } else if y.len() < x.len() {
            assert(s[x.len() as int] == '\u{1f}');
            assert(s[x.len() as int] == v[x.len() - y.len() - 1]);
            assert(b[b.len() - 1][x.len() - y.len() - 1] != '\u{1f}');
        }
        assert(x =~= s.take(x.len() as int));
        assert(y =~= s.take(y.len() as int));
        assert(u =~= s.skip(x.len() as int + 1));
        assert(v =~= s.skip(y.len() as int + 1));
        assert forall|i: int, j: int|
            0 <= i < a.drop_last().len() && 0 <= j < a.drop_last()[i].len() implies (
        #[trigger] a.drop_last()[i][j]) != '\u{1f}' by {
            assert(a[i][j] != '\u{1f}');
        }
        assert forall|i: int, j: int|
            0 <= i < b.drop_last().len() && 0 <= j < b.drop_last()[i].len() implies (
        #[trigger] b.drop_last()[i][j]) != '\u{1f}' by {
            assert(b[i][j] != '\u{1f}');
        }
        lemma_keys_never_collide(a.drop_last(), b.drop_last());
        assert(a =~= a.drop_last().push(u));
        assert(b =~= b.drop_last().push(v));
    }
}

// ---------------------------------------------------------- ordered key lists

/// A list of texts in strictly ascending order.
pub open spec fn ascending(s: Seq<Seq<char>>) -> bool {
    forall|i: int, j: int|
        0 <= i < j < s.len() ==> text_order(#[trigger] s[i], #[trigger] s[j]) == Rank::Less
}

/// Is `i` the place of `key` in an ascending list: after all lesser texts, and
/// before all others?
pub open spec fn place_of(s: Seq<Seq<char>>, key: Seq<char>, i: int) -> bool {
    &&& 0 <= i <= s.len()
    &&& forall|k: int| 0 <= k < i ==> text_order(#[trigger] s[k], key) == Rank::Less
    &&& forall|k: int| i <= k < s.len() ==> text_order(#[trigger] s[k], key) != Rank::Less
}

/// The place of a key in an ascending list.
pub fn find_key(keys: &Vec<String>, key: &str) -> (r: usize)
    requires
        ascending(texts(keys@)),
    ensures
        place_of(texts(keys@), key@, r as int),
{
    let ghost s = texts(keys@);
    let mut lo: usize = 0;
    let mut hi: usize = keys.len();
    while lo < hi
        invariant
            s == texts(keys@),
            ascending(s),
            lo <= hi <= keys@.len(),
            forall|k: int| 0 <= k < lo ==> text_order(#[trigger] s[k], key@) == Rank::Less,
            forall|k: int| hi <= k < s.len() ==> text_order(#[trigger] s[k], key@) != Rank::Less,
        decreases hi - lo,
    {
        let mid: usize = lo + (hi - lo) / 2;
        assert(s[mid as int] == keys@[mid as int]@);
        match rank_texts(keys[mid].as_str(), key) {
            Rank::Less => {
                assert forall|k: int| 0 <= k < mid + 1 implies text_order(#[trigger] s[k], key@)
                    == Rank::Less by {
                    if k < mid {
                        lemma_text_order_less(s[k], s[mid as int], key@);
                    }
                }
                lo = mid + 1;
            },
            _ => {
                assert forall|k: int| mid <= k < s.len() implies text_order(#[trigger] s[k], key@)
                    != Rank::Less by {
                    if k > mid && text_order(s[k], key@) == Rank::Less {
                        lemma_text_order_less(s[mid as int], s[k], key@);
                    }
                }
                hi = mid;
            },
        }
    }
    lo
}

/// There is only one place of a key.
pub proof fn lemma_one_place(s: Seq<Seq<char>>, key: Seq<char>, i: int, j: int)
    requires
        place_of(s, key, i),
        place_of(s, key, j),
    ensures
        i == j,
{
    if i < j {
        assert(text_order(s[i], key) == Rank::Less);
    }
    if j < i {
        assert(text_order(s[j], key) == Rank::Less);
    }
}

/// A key is in an ascending list exactly where it stands at its place, and put
/// there it keeps the list ascending.
pub proof fn lemma_place(s: Seq<Seq<char>>, key: Seq<char>, i: int)
    requires
        ascending(s),
        place_of(s, key, i),
    ensures
        s.contains(key) <==> (i < s.len() && s[i] == key),
        !s.contains(key) ==> ascending(s.insert(i, key)),
{
    lemma_text_order_equal(key, key);
    if s.contains(key) {
        let k = choose|k: int| 0 <= k < s.len() && s[k] == key;
        assert(k >= i) by {
            if k < i {
                assert(text_order(s[k], key) == Rank::Less);
            }
        }
        if k > i {
            assert(text_order(s[i], s[k]) == Rank::Less);
            assert(text_order(s[i], key) != Rank::Less);
        }
    } else {
        let t = s.insert(i, key);
        assert forall|a: int, b: int| 0 <= a < b < t.len() implies text_order(
            #[trigger] t[a],
            #[trigger] t[b],
        ) == Rank::Less by {
            if a < i && b < i {
                assert(text_order(s[a], s[b]) == Rank::Less);
            } else if a > i && b > i {
                assert(text_order(s[a - 1], s[b - 1]) == Rank::Less);
            } else if b == i {
                assert(text_order(s[a], key) == Rank::Less);
            } else if a == i {
                assert(text_order(s[b - 1], key) != Rank::Less);
                assert(s[b - 1] != key);
                lemma_text_order_equal(s[b - 1], key);
                lemma_text_order_reversed(s[b - 1], key);
            } else {
                assert(text_order(s[a], s[b - 1]) == Rank::Less);
            }
        }
    }
}

} // verus!
