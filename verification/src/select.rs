//! Operators that choose rows: filter, fused filter and projection, dropna,
//! distinct and take.
use vstd::prelude::*;
use crate::cast::{render, rendered};
use crate::chunk::{batches, gathered, Batch, Chunk};
use crate::compare::agree;
use crate::event::{message3, ErrorScope, EventV, OpCtx, Severity};
use crate::expr::Expr;
use crate::host::{text_answer, Answers, Ask, Log, Query};
use crate::kernel::{passing, select_rows, selected};
use crate::rows::{all_wf, ascending, emit, emitted, every, find_key, join_key_at, kept, known, lemma_kept, lemma_kept_stops, lemma_place, resolve_names, row_key, target_columns, targets, unknown};
use crate::shape::{list_names, listing, pick, picked};
use crate::text::{owned, same_text};
use crate::value::texts;

verus! {

// ---------------------------------------------------------------- filter

/// What a filter hands on.
pub open spec fn filtered(preds: Seq<Expr>, b: Batch, log: Log) -> Result<Seq<Batch>, Query> {
    match selected(preds, b, log) {
        Ok(keep) => Ok(emitted(b, keep)),
        Err(q) => Err(q),
    }
}

/// `filter`: the rows in which a predicate holds.
pub struct Filter {
    /// The predicate, as the one member of a conjunction.
    pub preds: Vec<Expr>,
}

impl Filter {
    /// A filter by one predicate.
    pub fn new(pred: Expr) -> (r: Filter)
        ensures
            r.preds@ == seq![pred],
    {
        let mut preds: Vec<Expr> = Vec::new();
        preds.push(pred);
        assert(preds@ =~= seq![pred]);
        Filter { preds }
    }

    /// The rows of a chunk that pass.
    pub fn process(&self, chunk: &Chunk, host: &Answers) -> (r: Result<Vec<Chunk>, Ask>)
        requires
            chunk@.wf(),
        ensures
            agree(
                r,
                filtered(self.preds@, chunk@, host@),
                |a: Vec<Chunk>, b: Seq<Batch>| batches(a@) == b && all_wf(b),
            ),
    {
        match select_rows(&self.preds, chunk, host) {
            Err(a) => Err(a),
            Ok(keep) => {
                proof {
                    lemma_kept(|row: int| passing(self.preds@, chunk@, row, host@), chunk@.len);
                }
                Ok(emit(chunk, &keep))
            },
        }
    }
}

/// A filter keeps exactly the rows in which every predicate holds, in order.
pub proof fn lemma_filter_keeps(preds: Seq<Expr>, b: Batch, log: Log, row: usize)
    requires
        b.len <= usize::MAX,
        row < b.len,
        selected(preds, b, log) is Ok,
        passing(preds, b, row as int, log) is Ok,
    ensures
        selected(preds, b, log)->Ok_0.contains(row) <==> passing(preds, b, row as int, log) == Ok::<
            bool,
            Query,
        >(true),
{
    let f = |r: int| passing(preds, b, r, log);
    lemma_kept(f, b.len);
    let s = selected(preds, b, log)->Ok_0;
    if s.contains(row) {
        let k = choose|k: int| 0 <= k < s.len() && s[k] == row;
        assert(f(s[k] as int) == Ok::<bool, Query>(true));
    }
    assert(f(row as int) == passing(preds, b, row as int, log));
}

// ------------------------------------------------- fused filter and project

/// What a fused filter and projection hands on, where no name is unknown.
pub open spec fn fused(preds: Seq<Expr>, at: Seq<usize>, b: Batch, log: Log) -> Result<Seq<Batch>, Query> {
    match selected(preds, b, log) {
        Err(q) => Err(q),
        Ok(keep) => Ok(
            if keep.len() == 0 {
                Seq::empty()
            } else {
                seq![picked(gathered(b, keep), at)]
            },
        ),
    }
}

/// Fusing changes nothing: a fused filter and projection hands on what the
/// projection makes of what the filter hands on.
pub proof fn lemma_fusion(preds: Seq<Expr>, at: Seq<usize>, b: Batch, log: Log)
    ensures
        match (fused(preds, at, b, log), filtered(preds, b, log)) {
            (Ok(x), Ok(y)) => x == Seq::new(y.len(), |i: int| picked(y[i], at)),
            (Err(p), Err(q)) => p == q,
            _ => false,
        },
{
    if let (Ok(x), Ok(y)) = (fused(preds, at, b, log), filtered(preds, b, log)) {
        assert(x =~= Seq::new(y.len(), |i: int| picked(y[i], at)));
    }
}

/// Consecutive filters and an optional projection in one pass: only the
/// projected columns are gathered, at the rows that stay. Where a name is no
/// column all columns stay, with a warning.
pub struct FilterProject {
    pub preds: Vec<Expr>,
    pub fields: Option<Vec<String>>,
}

impl FilterProject {
    /// What becomes of a chunk.
    pub fn process(&self, chunk: &Chunk, ctx: &mut OpCtx, host: &Answers) -> (r: Result<Vec<Chunk>, Ask>)
        requires
            chunk@.wf(),
        ensures
            match (selected(self.preds@, chunk@, host@), self.fields) {
                (Err(q), _) => r matches Err(a) && a@ == q && final(ctx)@ == old(ctx)@,
                (Ok(keep), None) => r matches Ok(v) && batches(v@) == emitted(chunk@, keep)
                    && all_wf(batches(v@)) && final(ctx)@ == old(ctx)@,
                (Ok(keep), Some(names)) => if keep.len() == 0 {
                    r matches Ok(v) && v@.len() == 0 && final(ctx)@ == old(ctx)@
                } else if unknown(chunk@.fields, texts(names@)) is None {
                    r matches Ok(v) && batches(v@) == seq![
                        picked(gathered(chunk@, keep), known(chunk@.fields, texts(names@))),
                    ] && all_wf(batches(v@)) && final(ctx)@ == old(ctx)@
                } else {
                    match (r, text_answer(host@, listing(texts(names@)))) {
                        (Ok(v), Ok(list)) => {
                            &&& batches(v@) == seq![gathered(chunk@, keep)]
                            &&& all_wf(batches(v@))
                            &&& final(ctx)@ == old(ctx)@.raised(
                                (EventV {
                                    chunk: Some(chunk.id),
                                    ..old(ctx)@.event(
                                        Severity::Warn,
                                        ErrorScope::Chunk,
                                        "fused project: unknown field in "@ + list,
                                    )
                                }),
                            )
                        },
                        (Err(a), Err(q)) => a@ == q && final(ctx)@ == old(ctx)@,
                        _ => false,
                    }
                },
            },
    {
        let keep: Vec<usize> = match select_rows(&self.preds, chunk, host) {
            Err(a) => {
                return Err(a);
            },
            Ok(k) => k,
        };
        proof {
            lemma_kept(|row: int| passing(self.preds@, chunk@, row, host@), chunk@.len);
        }
        let names: &Vec<String> = match &self.fields {
            None => {
                return Ok(emit(chunk, &keep));
            },
            Some(f) => f,
        };
        let mut out: Vec<Chunk> = Vec::new();
        if keep.len() == 0 {
            return Ok(out);
        }
        match resolve_names(chunk, names) {
            Ok(at) => {
                let rows = chunk.gather(&keep);
                out.push(pick(&rows, &at));
                assert(batches(out@) =~= seq![picked(gathered(chunk@, keep@), at@)]);
                Ok(out)
            },
            Err(_) => match list_names(names, host) {
                Err(a) => Err(a),
                Ok(list) => {
                    let m = message3("fused project: unknown field in ", list.as_str(), "");
                    proof {
                        reveal_strlit("");
                        assert(m@ =~= "fused project: unknown field in "@ + list@);
                    }
                    ctx.warn_at(m, chunk.id);
                    out.push(chunk.gather(&keep));
                    assert(batches(out@) =~= seq![gathered(chunk@, keep@)]);
                    Ok(out)
                },
            },
        }
    }
}

// ---------------------------------------------------------------- dropna

/// No one of the first `n` cells of a row prints as the empty text.
pub open spec fn no_blank(b: Batch, at: Seq<usize>, row: int, n: nat, log: Log) -> Result<bool, Query>
    decreases n,
{
    if n == 0 {
        Ok(true)
    } else {
        match no_blank(b, at, row, (n - 1) as nat, log) {
            Err(q) => Err(q),
            Ok(false) => Ok(false),
            Ok(true) => match rendered(b.cell(row, at[n - 1] as int), log) {
                Err(q) => Err(q),
                Ok(t) => Ok(t.len() > 0),
            },
        }
    }
}

proof fn lemma_blank_stays(b: Batch, at: Seq<usize>, row: int, n: nat, m: nat, log: Log)
    requires
        no_blank(b, at, row, n, log) != Ok::<bool, Query>(true),
        n <= m,
    ensures
        no_blank(b, at, row, m, log) == no_blank(b, at, row, n, log),
    decreases m,
{
    if n < m {
        lemma_blank_stays(b, at, row, n, (m - 1) as nat, log);
    }
}

fn row_filled(chunk: &Chunk, at: &Vec<usize>, row: usize, host: &Answers) -> (r: Result<bool, Ask>)
    requires
        chunk@.wf(),
        row < chunk.len,
        forall|i: int| 0 <= i < at@.len() ==> (#[trigger] at@[i]) < chunk@.columns.len(),
    ensures
        agree(r, no_blank(chunk@, at@, row as int, at@.len(), host@), |a: bool, b: bool| a == b),
{
    for n in 0..at.len()
        invariant
            chunk@.wf(),
            row < chunk.len,
            forall|i: int| 0 <= i < at@.len() ==> (#[trigger] at@[i]) < chunk@.columns.len(),
            no_blank(chunk@, at@, row as int, n as nat, host@) == Ok::<bool, Query>(true),
    {
        let v = chunk.value(row, at[n]);
        match render(&v, host) {
            Err(a) => {
                proof {
                    lemma_blank_stays(chunk@, at@, row as int, (n + 1) as nat, at@.len(), host@);
                }
                return Err(a);
            },
            Ok(t) => {
                if is_blank(t.as_str()) {
                    proof {
                        lemma_blank_stays(
                            chunk@,
                            at@,
                            row as int,
                            (n + 1) as nat,
                            at@.len(),
                            host@,
                        );
                    }
                    return Ok(false);
                }
            },
        }
    }
    Ok(true)
}

/// Is the text empty?
pub fn is_blank(t: &str) -> (r: bool)
    ensures
        r == (t@.len() == 0),
{
    proof {
        reveal_strlit("");
        if t@.len() == 0 {
            assert(t@ =~= ""@);
        }
    }
    same_text(t, "")
}

/// The rows that `dropna` keeps.
pub open spec fn filled_rows(b: Batch, names: Seq<Seq<char>>, log: Log) -> Result<Seq<usize>, Query> {
    let at = targets(b, names);
    kept(|row: int| no_blank(b, at, row, at.len(), log), b.len)
}

/// `dropna`: drops the rows that have a blank cell in one of the named columns,
/// or in any column where none is named.
pub struct DropNa {
    pub cols: Vec<String>,
}

impl DropNa {
    /// The rows of a chunk without blanks.
    pub fn process(&self, chunk: &Chunk, host: &Answers) -> (r: Result<Vec<Chunk>, Ask>)
        requires
            chunk@.wf(),
        ensures
            agree(
                r,
                filled_rows(chunk@, texts(self.cols@), host@),
                |a: Vec<Chunk>, keep: Seq<usize>|
                    batches(a@) == emitted(chunk@, keep) && all_wf(batches(a@)),
            ),
    {
        let at: Vec<usize> = target_columns(chunk, &self.cols);
        let ghost f = |row: int| no_blank(chunk@, at@, row, at@.len(), host@);
        let mut keep: Vec<usize> = Vec::new();
        for row in 0..chunk.len
            invariant
                chunk@.wf(),
                at@ == targets(chunk@, texts(self.cols@)),
                forall|i: int| 0 <= i < at@.len() ==> (#[trigger] at@[i]) < chunk@.columns.len(),
                f == (|row: int| no_blank(chunk@, at@, row, at@.len(), host@)),
                kept(f, row as nat) == Ok::<Seq<usize>, Query>(keep@),
        {
            match row_filled(chunk, &at, row, host) {
                Err(a) => {
                    proof {
                        lemma_kept_stops(f, (row + 1) as nat, chunk@.len);
                    }
                    return Err(a);
                },
                Ok(b) => {
                    if b {
                        keep.push(row);
                    }
                },
            }
        }
        proof {
            lemma_kept(f, chunk@.len);
        }
        Ok(emit(chunk, &keep))
    }
}

// -------------------------------------------------------------- distinct

/// The keys of the first `n` rows.
pub open spec fn row_keys(b: Batch, at: Seq<usize>, n: nat, log: Log) -> Result<Seq<Seq<char>>, Query>
    decreases n,
{
    if n == 0 {
        Ok(Seq::empty())
    } else {
        match row_keys(b, at, (n - 1) as nat, log) {
            Err(q) => Err(q),
            Ok(s) => match row_key(b, at, n - 1, log) {
                Err(q) => Err(q),
                Ok(k) => Ok(s.push(k)),
            },
        }
    }
}

proof fn lemma_row_keys_stop(b: Batch, at: Seq<usize>, n: nat, m: nat, log: Log)
    requires
        row_keys(b, at, n, log) is Err,
        n <= m,
    ensures
        row_keys(b, at, m, log) == row_keys(b, at, n, log),
    decreases m,
{
    if n < m {
        lemma_row_keys_stop(b, at, n, (m - 1) as nat, log);
    }
}

/// There is one key for each row.
pub proof fn lemma_row_keys_len(b: Batch, at: Seq<usize>, n: nat, log: Log)
    ensures
        row_keys(b, at, n, log) matches Ok(s) ==> s.len() == n,
    decreases n,
{
    if n > 0 {
        lemma_row_keys_len(b, at, (n - 1) as nat, log);
    }
}

/// The keys of all rows of a chunk (see [`row_keys`]).
pub fn keys_of(chunk: &Chunk, at: &Vec<usize>, host: &Answers) -> (r: Result<Vec<String>, Ask>)
    requires
        chunk@.wf(),
        forall|i: int| 0 <= i < at@.len() ==> (#[trigger] at@[i]) < chunk@.columns.len(),
    ensures
        agree(
            r,
            row_keys(chunk@, at@, chunk@.len, host@),
            |a: Vec<String>, b: Seq<Seq<char>>| texts(a@) == b && b.len() == chunk@.len,
        ),
{
    let mut out: Vec<String> = Vec::new();
    assert(texts(out@) =~= Seq::empty());
    for row in 0..chunk.len
        invariant
            chunk@.wf(),
            forall|i: int| 0 <= i < at@.len() ==> (#[trigger] at@[i]) < chunk@.columns.len(),
            row_keys(chunk@, at@, row as nat, host@) == Ok::<Seq<Seq<char>>, Query>(texts(out@)),
            out@.len() == row,
    {
        let ghost before = texts(out@);
        match join_key_at(chunk, at, row, host) {
            Err(a) => {
                proof {
                    lemma_row_keys_stop(chunk@, at@, (row + 1) as nat, chunk@.len, host@);
                }
                return Err(a);
            },
            Ok(k) => {
                out.push(k);
                assert(texts(out@) =~= before.push(k@));
            },
        }
    }
    Ok(out)
}

/// Is this the first row with its key, counting the keys seen before?
pub open spec fn first_seen(keys: Seq<Seq<char>>, seen: Set<Seq<char>>, row: int) -> bool {
    !seen.contains(keys[row]) && forall|j: int| 0 <= j < row ==> #[trigger] keys[j] != keys[row]
}

/// The keys seen after a run of rows.
pub open spec fn seen_after(keys: Seq<Seq<char>>, seen: Set<Seq<char>>, n: int) -> Set<Seq<char>> {
    Set::new(|k: Seq<char>| seen.contains(k) || keys.take(n).contains(k))
}

/// The rows that `distinct` keeps.
pub open spec fn first_rows(keys: Seq<Seq<char>>, seen: Set<Seq<char>>) -> Result<Seq<usize>, Query> {
    kept(|row: int| Ok(first_seen(keys, seen, row)), keys.len())
}

/// What `distinct` keeps does not depend on how the rows are cut into chunks: a
/// row is a first occurrence after the rows before it, in its chunk or in
/// earlier ones, all the same.
pub proof fn lemma_distinct_any_cut(x: Seq<Seq<char>>, y: Seq<Seq<char>>, seen: Set<Seq<char>>, row: int)
    requires
        0 <= row < x.len() + y.len(),
    ensures
        first_seen(x + y, seen, row) == if row < x.len() {
            first_seen(x, seen, row)
        } else {
            first_seen(y, seen_after(x, seen, x.len() as int), row - x.len())
        },
{
    let z = x + y;
    assert(x.take(x.len() as int) =~= x);
    if row < x.len() {
        assert forall|j: int| 0 <= j < row implies z[j] == x[j] by {}
        if first_seen(z, seen, row) {
            assert forall|j: int| 0 <= j < row implies #[trigger] x[j] != x[row] by {
                assert(z[j] != z[row]);
            }
        }
    } else {
        let i = row - x.len();
        let after = seen_after(x, seen, x.len() as int);
        if first_seen(z, seen, row) {
            if x.contains(y[i]) {
                let j = choose|j: int| 0 <= j < x.len() && x[j] == y[i];
                assert(z[j] != z[row]);
            }
            assert forall|j: int| 0 <= j < i implies #[trigger] y[j] != y[i] by {
                assert(z[x.len() + j] != z[row]);
            }
        }
        if first_seen(y, after, i) {
            assert forall|j: int| 0 <= j < row implies #[trigger] z[j] != z[row] by {
                if j < x.len() {
                    assert(x.contains(x[j]));
                    assert(z[j] == x[j]);
                } else {
                    assert(y[j - x.len()] != y[i]);
                }
            }
        }
    }
}

/// `distinct`: keeps the first row of each key, over all chunks.
pub struct Distinct {
    pub keys: Vec<String>,
    /// The keys seen so far, in order.
    pub seen: Vec<String>,
}

impl Distinct {
    /// The keys seen so far are in order.
    pub open spec fn wf(&self) -> bool {
        ascending(texts(self.seen@))
    }

    /// The keys seen so far.
    pub open spec fn seen_keys(&self) -> Set<Seq<char>> {
        Set::new(|k: Seq<char>| texts(self.seen@).contains(k))
    }

    /// Nothing seen yet.
    pub fn new(keys: Vec<String>) -> (r: Distinct)
        ensures
            r.wf(),
            r.keys == keys,
            r.seen_keys() == Set::<Seq<char>>::empty(),
    {
        let r = Distinct { keys, seen: Vec::new() };
        assert(r.seen_keys() =~= Set::<Seq<char>>::empty());
        r
    }

    /// Notes a key; was it new?
    fn note(&mut self, key: &str) -> (fresh: bool)
        requires
            old(self).wf(),
        ensures
            final(self).wf(),
            final(self).keys == old(self).keys,
            fresh == !old(self).seen_keys().contains(key@),
            final(self).seen_keys() == old(self).seen_keys().insert(key@),
    {
        let at: usize = find_key(&self.seen, key);
        let ghost s = texts(self.seen@);
        proof {
            lemma_place(s, key@, at as int);
        }
        if at < self.seen.len() && same_text(self.seen[at].as_str(), key) {
            assert(s[at as int] == key@);
            assert(self.seen_keys() =~= old(self).seen_keys().insert(key@));
            return false;
        }
        self.seen.insert(at, owned(key));
        proof {
            let t = texts(self.seen@);
            assert(t =~= s.insert(at as int, key@));
            assert forall|k: Seq<char>| t.contains(k) == (s.contains(k) || k == key@) by {
                if t.contains(k) {
                    let i = choose|i: int| 0 <= i < t.len() && t[i] == k;
                    if i < at {
                        assert(s[i] == k);
                    } else if i > at {
                        assert(s[i - 1] == k);
                    }
                }
                if s.contains(k) {
                    let i = choose|i: int| 0 <= i < s.len() && s[i] == k;
                    if i < at {
                        assert(t[i] == k);
                    } else {
                        assert(t[i + 1] == k);
                    }
                }
                if k == key@ {
                    assert(t[at as int] == k);
                }
            }
            assert(self.seen_keys() =~= old(self).seen_keys().insert(key@));
        }
        true
    }

    /// The rows of a chunk that are the first with their keys. A question leaves
    /// everything as it was.
    pub fn process(&mut self, chunk: &Chunk, host: &Answers) -> (r: Result<Vec<Chunk>, Ask>)
        requires
            old(self).wf(),
            chunk@.wf(),
        ensures
            final(self).wf(),
            final(self).keys == old(self).keys,
            ({
                let at = targets(chunk@, texts(old(self).keys@));
                match (r, row_keys(chunk@, at, chunk@.len, host@)) {
                    (Ok(v), Ok(keys)) => {
                        &&& first_rows(keys, old(self).seen_keys()) is Ok
                        &&& batches(v@) == emitted(
                            chunk@,
                            first_rows(keys, old(self).seen_keys())->Ok_0,
                        )
                        &&& all_wf(batches(v@))
                        &&& final(self).seen_keys() == seen_after(
                            keys,
                            old(self).seen_keys(),
                            keys.len() as int,
                        )
                    },
                    (Err(a), Err(q)) => a@ == q && final(self).seen_keys() == old(
                        self,
                    ).seen_keys(),
                    _ => false,
                }
            }),
    {
        let at: Vec<usize> = target_columns(chunk, &self.keys);
        let keys: Vec<String> = match keys_of(chunk, &at, host) {
            Err(a) => {
                return Err(a);
            },
            Ok(k) => k,
        };
        let ghost ks = texts(keys@);
        let ghost seen = self.seen_keys();
        let ghost f = |row: int| Ok::<bool, Query>(first_seen(ks, seen, row));
        let mut keep: Vec<usize> = Vec::new();
        assert(seen_after(ks, seen, 0) =~= seen);
        for row in 0..keys.len()
            invariant
                self.wf(),
                self.keys == old(self).keys,
                ks == texts(keys@),
                f == (|row: int| Ok::<bool, Query>(first_seen(ks, seen, row))),
                self.seen_keys() == seen_after(ks, seen, row as int),
                kept(f, row as nat) == Ok::<Seq<usize>, Query>(keep@),
        {
            proof {
                let k = ks[row as int];
                assert(k == keys@[row as int]@);
                let before = ks.take(row as int);
                assert(before.contains(k) <==> exists|j: int|
                    0 <= j < row && #[trigger] ks[j] == k) by {
                    if before.contains(k) {
                        let j = choose|j: int| 0 <= j < before.len() && before[j] == k;
                        assert(ks[j] == k);
                    }
                    if exists|j: int| 0 <= j < row && #[trigger] ks[j] == k {
                        let j = choose|j: int| 0 <= j < row && #[trigger] ks[j] == k;
                        assert(before[j] == k);
                    }
                }
                assert(seen_after(ks, seen, row as int).insert(k) =~= seen_after(
                    ks,
                    seen,
                    row + 1,
                )) by {
                    let after = ks.take(row + 1);
                    assert(after =~= before.push(k));
                    assert forall|x: Seq<char>| after.contains(x) == (before.contains(x) || x
                        == k) by {
                        if after.contains(x) {
                            let j = choose|j: int| 0 <= j < after.len() && after[j] == x;
                            if j < row {
                                assert(before[j] == x);
                            }
                        }
                        if before.contains(x) {
                            let j = choose|j: int| 0 <= j < before.len() && before[j] == x;
                            assert(after[j] == x);
                        }
                        assert(after[row as int] == k);
                    }
                }
            }
            if self.note(keys[row].as_str()) {
                keep.push(row);
            }
        }
        proof {
            lemma_kept(f, ks.len());
        }
        Ok(emit(chunk, &keep))
    }
}

// ------------------------------------------------------------------ take

/// The number of rows of `n` that a budget lets through.
pub open spec fn let_through(budget: nat, n: nat) -> nat {
    if n <= budget {
        n
    } else {
        budget
    }
}

/// `take N` does not depend on how the rows are cut into chunks: of two chunks in
/// turn as many rows pass as of both in one.
pub proof fn lemma_take_any_cut(budget: nat, a: nat, b: nat)
    ensures
        let_through(budget, a) + let_through((budget - let_through(budget, a)) as nat, b)
            == let_through(budget, a + b),
{
}

/// `take N`: at most `N` rows in all, then nothing more.
pub struct Take {
    pub remaining: usize,
}

impl Take {
    /// The first rows of a chunk, as far as the budget goes. With the budget
    /// used up nothing passes, not even an empty chunk.
    pub fn process(&mut self, chunk: &Chunk) -> (r: Vec<Chunk>)
        requires
            chunk@.wf(),
        ensures
            ({
                let n = let_through(old(self).remaining as nat, chunk@.len);
                &&& final(self).remaining == old(self).remaining - n
                &&& batches(r@) == if old(self).remaining == 0 {
                    Seq::empty()
                } else {
                    seq![gathered(chunk@, every(n))]
                }
                &&& all_wf(batches(r@))
            }),
    {
        let mut out: Vec<Chunk> = Vec::new();
        if self.remaining == 0 {
            assert(batches(out@) =~= Seq::empty());
            return out;
        }
        if chunk.len <= self.remaining {
            proof {
                crate::rows::lemma_gather_all(chunk@, every(chunk@.len));
            }
            self.remaining = self.remaining - chunk.len;
            out.push(chunk.dup());
            assert(batches(out@) =~= seq![chunk@]);
            return out;
        }
        let mut rows: Vec<usize> = Vec::new();
        for i in 0..self.remaining
            invariant
                rows@.len() == i,
                forall|k: int| 0 <= k < i ==> (#[trigger] rows@[k]) == k,
        {
            rows.push(i);
        }
        assert(rows@ =~= every(self.remaining as nat));
        self.remaining = 0;
        out.push(chunk.gather(&rows));
        assert(batches(out@) =~= seq![gathered(chunk@, rows@)]);
        out
    }
}

} // verus!
