//! The blocking join of two streams by the texts of their keys.
use vstd::prelude::*;
use crate::cast::{cast, cast_value, lemma_cast_fits, render, rendered};
use crate::chunk::{batches, fields_view, flat_field, index_in, index_of, lanes, Batch, Chunk, Column, Field, FieldV, Lane, Mode};
use crate::compare::agree;
use crate::concat::{alike, are_alike, concat_chunks, stack, stacked};
use crate::event::{message3, CtxV, ErrorScope, ErrorEvent, OpCtx, Severity};
use crate::float::{Rank, F64};
use crate::host::{Answers, Ask, Log, Query};
use crate::lanes::{agree_column, lemma_text_lane, text_column, text_lane};
use crate::rows::{ascending, find_key, known, lemma_place, resolve_names, unknown, within};
use crate::select::{keys_of, row_keys};
use crate::shape::{row_count, sized};
use crate::sort::hold;
use crate::text::{owned, same_text};
use crate::value::{data, fits, texts, DataType, Date, DateTime, Datum, Decimal, Duration, Value};

verus! {

/// Which rows without a partner a join keeps.
#[derive(Clone, Copy, Debug, PartialEq, Eq, Structural)]
pub enum JoinKind {
    Inner,
    Left,
    Right,
    Full,
}

impl JoinKind {
    /// Are left rows without a partner kept?
    pub open spec fn left_kept(self) -> bool {
        self is Left || self is Full
    }

    /// Are right rows without a partner kept?
    pub open spec fn right_kept(self) -> bool {
        self is Right || self is Full
    }

    /// Are left rows without a partner kept?
    pub fn keeps_left(self) -> (r: bool)
        ensures
            r == self.left_kept(),
    {
        matches!(self, JoinKind::Left | JoinKind::Full)
    }

    /// Are right rows without a partner kept?
    pub fn keeps_right(self) -> (r: bool)
        ensures
            r == self.right_kept(),
    {
        matches!(self, JoinKind::Right | JoinKind::Full)
    }
}

// ------------------------------------------------------------ row pairs

/// One row of the join: a left row, a right row, or both.
pub type Pair = (Option<usize>, Option<usize>);

/// The right rows with a key, in order.
pub open spec fn partners(rkeys: Seq<Seq<char>>, key: Seq<char>) -> Seq<usize>
    decreases rkeys.len(),
{
    if rkeys.len() == 0 {
        Seq::empty()
    } else {
        let up = partners(rkeys.drop_last(), key);
        if rkeys.last() == key {
            up.push((rkeys.len() - 1) as usize)
        } else {
            up
        }
    }
}

/// The rows of one left row: one for each partner, or one without a partner
/// where such rows are kept.
pub open spec fn pairs_of(li: usize, rows: Seq<usize>, kind: JoinKind) -> Seq<Pair> {
    if rows.len() > 0 {
        Seq::new(rows.len(), |i: int| (Some(li), Some(rows[i])))
    } else if kind.left_kept() {
        seq![(Some(li), None)]
    } else {
        Seq::empty()
    }
}

/// The rows of the first `n` left rows.
pub open spec fn left_pairs(lkeys: Seq<Seq<char>>, rkeys: Seq<Seq<char>>, kind: JoinKind, n: nat) -> Seq<Pair>
    decreases n,
{
    if n == 0 {
        Seq::empty()
    } else {
        left_pairs(lkeys, rkeys, kind, (n - 1) as nat) + pairs_of(
            (n - 1) as usize,
            partners(rkeys, lkeys[n - 1]),
            kind,
        )
    }
}

/// The first `n` right rows that have no partner.
pub open spec fn right_pairs(lkeys: Seq<Seq<char>>, rkeys: Seq<Seq<char>>, n: nat) -> Seq<Pair>
    decreases n,
{
    if n == 0 {
        Seq::empty()
    } else {
        let up = right_pairs(lkeys, rkeys, (n - 1) as nat);
        if lkeys.contains(rkeys[n - 1]) {
            up
        } else {
            up.push((None, Some((n - 1) as usize)))
        }
    }
}

/// The rows of a join: those of the left rows in order, then the right rows
/// without a partner where such rows are kept.
pub open spec fn join_pairs(lkeys: Seq<Seq<char>>, rkeys: Seq<Seq<char>>, kind: JoinKind) -> Seq<Pair> {
    left_pairs(lkeys, rkeys, kind, lkeys.len()) + if kind.right_kept() {
        right_pairs(lkeys, rkeys, rkeys.len())
    } else {
        Seq::empty()
    }
}

/// The partners of a key are the rows that have it.
pub proof fn lemma_partners(rkeys: Seq<Seq<char>>, key: Seq<char>)
    requires
        rkeys.len() <= usize::MAX,
    ensures
        forall|i: int|
            0 <= i < partners(rkeys, key).len() ==> (#[trigger] partners(rkeys, key)[i])
                < rkeys.len() && rkeys[partners(rkeys, key)[i] as int] == key,
        forall|r: usize|
            r < rkeys.len() && #[trigger] rkeys[r as int] == key ==> partners(rkeys, key).contains(r),
        rkeys.contains(key) <==> partners(rkeys, key).len() > 0,
    decreases rkeys.len(),
{
    if rkeys.len() > 0 {
        let up = partners(rkeys.drop_last(), key);
        let all = partners(rkeys, key);
        lemma_partners(rkeys.drop_last(), key);
        assert forall|i: int| 0 <= i < all.len() implies (#[trigger] all[i]) < rkeys.len()
            && rkeys[all[i] as int] == key by {
            if i < up.len() {
                assert(all[i] == up[i]);
                assert(rkeys.drop_last()[up[i] as int] == key);
            }
        }
        assert forall|r: usize| r < rkeys.len() && #[trigger] rkeys[r as int] == key implies all.contains(
            r,
        ) by {
            if r < rkeys.len() - 1 {
                assert(rkeys.drop_last()[r as int] == key);
                assert(up.contains(r));
                let k = choose|k: int| 0 <= k < up.len() && up[k] == r;
                assert(all[k] == r);
            } else {
                assert(all[up.len() as int] == r);
            }
        }
        if rkeys.contains(key) {
            let k = choose|k: int| 0 <= k < rkeys.len() && rkeys[k] == key;
            assert(all.contains(k as usize));
        }
        if all.len() > 0 {
            assert(rkeys[all[0] as int] == key);
        }
    }
}

/// The pairs of left rows are of equal keys, or of rows without a partner.
pub proof fn lemma_left_pairs(lkeys: Seq<Seq<char>>, rkeys: Seq<Seq<char>>, kind: JoinKind, n: nat)
    requires
        n <= lkeys.len() <= usize::MAX,
        rkeys.len() <= usize::MAX,
    ensures
        forall|i: int|
            0 <= i < left_pairs(lkeys, rkeys, kind, n).len() ==> {
                let p = #[trigger] left_pairs(lkeys, rkeys, kind, n)[i];
                &&& p.0 matches Some(l) && l < n && match p.1 {
                    Some(r) => r < rkeys.len() && lkeys[l as int] == rkeys[r as int],
                    None => kind.left_kept() && !rkeys.contains(lkeys[l as int]),
                }
            },
        forall|l: usize, r: usize|
            l < n && r < rkeys.len() && #[trigger] lkeys[l as int] == #[trigger] rkeys[r as int]
                ==> left_pairs(lkeys, rkeys, kind, n).contains((Some(l), Some(r))),
        forall|l: usize|
            l < n && kind.left_kept() && !rkeys.contains(#[trigger] lkeys[l as int])
                ==> left_pairs(lkeys, rkeys, kind, n).contains((Some(l), None)),
    decreases n,
{
    if n > 0 {
        lemma_left_pairs(lkeys, rkeys, kind, (n - 1) as nat);
        let up = left_pairs(lkeys, rkeys, kind, (n - 1) as nat);
        let key = lkeys[n - 1];
        let rows = partners(rkeys, key);
        let more = pairs_of((n - 1) as usize, rows, kind);
        let all = left_pairs(lkeys, rkeys, kind, n);
        lemma_partners(rkeys, key);
        assert forall|i: int| 0 <= i < all.len() implies {
            let p = #[trigger] all[i];
            &&& p.0 matches Some(l) && l < n && match p.1 {
                Some(r) => r < rkeys.len() && lkeys[l as int] == rkeys[r as int],
                None => kind.left_kept() && !rkeys.contains(lkeys[l as int]),
            }
        } by {
            if i < up.len() {
                assert(all[i] == up[i]);
            } else {
                assert(all[i] == more[i - up.len()]);
                if rows.len() > 0 {
                    assert(rkeys[rows[i - up.len()] as int] == key);
                }
            }
        }
        assert forall|l: usize, r: usize|
            l < n && r < rkeys.len() && #[trigger] lkeys[l as int] == #[trigger] rkeys[r as int] implies all.contains(
            (Some(l), Some(r)),
        ) by {
            if l < n - 1 {
                assert(up.contains((Some(l), Some(r))));
                let k = choose|k: int| 0 <= k < up.len() && up[k] == (Some(l), Some(r));
                assert(all[k] == up[k]);
            } else {
                assert(rows.contains(r));
                let k = choose|k: int| 0 <= k < rows.len() && rows[k] == r;
                assert(more[k] == (Some(l), Some(r)));
                assert(all[up.len() + k] == more[k]);
            }
        }
        assert forall|l: usize|
            l < n && kind.left_kept() && !rkeys.contains(#[trigger] lkeys[l as int]) implies all.contains(
            (Some(l), None),
        ) by {
            if l < n - 1 {
                assert(up.contains((Some(l), None)));
                let k = choose|k: int| 0 <= k < up.len() && up[k] == (Some(l), None::<usize>);
                assert(all[k] == up[k]);
            } else {
                assert(more[0] == (Some(l), None::<usize>));
                assert(all[up.len() as int] == more[0]);
            }
        }
    }
}

/// The right rows without a partner are there.
pub proof fn lemma_right_pairs(lkeys: Seq<Seq<char>>, rkeys: Seq<Seq<char>>, n: nat)
    requires
        n <= rkeys.len() <= usize::MAX,
    ensures
        forall|i: int|
            0 <= i < right_pairs(lkeys, rkeys, n).len() ==> {
                let p = #[trigger] right_pairs(lkeys, rkeys, n)[i];
                p.0 is None && p.1 is Some && p.1->0 < n && !lkeys.contains(rkeys[p.1->0 as int])
            },
        forall|r: usize|
            r < n && !lkeys.contains(#[trigger] rkeys[r as int]) ==> right_pairs(
                lkeys,
                rkeys,
                n,
            ).contains((None, Some(r))),
    decreases n,
{
    if n > 0 {
        lemma_right_pairs(lkeys, rkeys, (n - 1) as nat);
        let up = right_pairs(lkeys, rkeys, (n - 1) as nat);
        let all = right_pairs(lkeys, rkeys, n);
        assert forall|r: usize| r < n && !lkeys.contains(#[trigger] rkeys[r as int]) implies all.contains(
            (None, Some(r)),
        ) by {
            if r < n - 1 {
                assert(up.contains((None, Some(r))));
                let k = choose|k: int| 0 <= k < up.len() && up[k] == (None::<usize>, Some(r));
                assert(all[k] == up[k]);
            } else {
                assert(all[up.len() as int] == (None::<usize>, Some(r)));
            }
        }
    }
}

/// What the rows of a join are: every pair of rows with equal keys, every left
/// row without a partner where those are kept, every right row without one where
/// those are kept, and nothing else.
pub proof fn lemma_join_pairs(lkeys: Seq<Seq<char>>, rkeys: Seq<Seq<char>>, kind: JoinKind, l: usize, r: usize)
    requires
        l < lkeys.len() <= usize::MAX,
        r < rkeys.len() <= usize::MAX,
    ensures
        join_pairs(lkeys, rkeys, kind).contains((Some(l), Some(r))) <==> lkeys[l as int]
            == rkeys[r as int],
        join_pairs(lkeys, rkeys, kind).contains((Some(l), None)) <==> kind.left_kept()
            && !rkeys.contains(lkeys[l as int]),
        join_pairs(lkeys, rkeys, kind).contains((None, Some(r))) <==> kind.right_kept()
            && !lkeys.contains(rkeys[r as int]),
        !join_pairs(lkeys, rkeys, kind).contains((None, None)),
{
    lemma_left_pairs(lkeys, rkeys, kind, lkeys.len());
    lemma_right_pairs(lkeys, rkeys, rkeys.len());
    let a = left_pairs(lkeys, rkeys, kind, lkeys.len());
    let b = if kind.right_kept() {
        right_pairs(lkeys, rkeys, rkeys.len())
    } else {
        Seq::empty()
    };
    let all = a + b;
    assert forall|p: Pair| all.contains(p) <==> a.contains(p) || b.contains(p) by {
        if all.contains(p) {
            let k = choose|k: int| 0 <= k < all.len() && all[k] == p;
            if k < a.len() {
                assert(a[k] == p);
            } else {
                assert(b[k - a.len()] == p);
            }
        }
        if a.contains(p) {
            let k = choose|k: int| 0 <= k < a.len() && a[k] == p;
            assert(all[k] == p);
        }
        if b.contains(p) {
            let k = choose|k: int| 0 <= k < b.len() && b[k] == p;
            assert(all[a.len() + k] == p);
        }
    }
    let both: Pair = (Some(l), Some(r));
    let left: Pair = (Some(l), None);
    let right: Pair = (None, Some(r));
    let none: Pair = (None, None);
    if a.contains(both) {
        let k = choose|k: int| 0 <= k < a.len() && a[k] == both;
        assert(a[k].0 is Some);
    }
    if a.contains(left) {
        let k = choose|k: int| 0 <= k < a.len() && a[k] == left;
        assert(a[k].0 is Some);
    }
    if a.contains(right) {
        let k = choose|k: int| 0 <= k < a.len() && a[k] == right;
        assert(a[k].0 is Some);
    }
    if a.contains(none) {
        let k = choose|k: int| 0 <= k < a.len() && a[k] == none;
        assert(a[k].0 is Some);
    }
    if b.contains(both) {
        let k = choose|k: int| 0 <= k < b.len() && b[k] == both;
        assert(b[k].0 is None);
    }
    if b.contains(left) {
        let k = choose|k: int| 0 <= k < b.len() && b[k] == left;
        assert(b[k].0 is None);
    }
    if b.contains(right) {
        let k = choose|k: int| 0 <= k < b.len() && b[k] == right;
        assert(b[k].0 is None);
    }
    if b.contains(none) {
        let k = choose|k: int| 0 <= k < b.len() && b[k] == none;
        assert(b[k].0 is None);
    }
}

// ------------------------------------------------------------- the table

/// The right rows by key.
struct Table {
    keys: Vec<String>,
    rows: Vec<Vec<usize>>,
}

impl Table {
    spec fn holds(&self, rkeys: Seq<Seq<char>>) -> bool {
        &&& ascending(texts(self.keys@))
        &&& self.keys@.len() == self.rows@.len()
        &&& forall|k: Seq<char>| #[trigger] rkeys.contains(k) <==> texts(self.keys@).contains(k)
        &&& forall|i: int|
            0 <= i < self.rows@.len() ==> (#[trigger] self.rows@[i])@ == partners(
                rkeys,
                self.keys@[i]@,
            )
    }

    /// The place of a key in the table.
    fn find(&self, key: &str, Ghost(rkeys): Ghost<Seq<Seq<char>>>) -> (r: Option<usize>)
        requires
            self.holds(rkeys),
        ensures
            match r {
                Some(i) => i < self.keys@.len() && self.keys@[i as int]@ == key@,
                None => !rkeys.contains(key@),
            },
    {
        let at: usize = find_key(&self.keys, key);
        proof {
            lemma_place(texts(self.keys@), key@, at as int);
        }
        if at < self.keys.len() && same_text(self.keys[at].as_str(), key) {
            Some(at)
        } else {
            None
        }
    }

    fn build(rkeys: &Vec<String>) -> (r: Table)
        ensures
            r.holds(texts(rkeys@)),
    {
        let ghost all = texts(rkeys@);
        let mut t = Table { keys: Vec::new(), rows: Vec::new() };
        assert(all.take(0) =~= Seq::empty());
        assert(texts(t.keys@) =~= Seq::empty());
        for n in 0..rkeys.len()
            invariant
                all == texts(rkeys@),
                t.holds(all.take(n as int)),
        {
            let ghost seen = all.take(n as int);
            let ghost more = all.take(n + 1);
            let key: &str = rkeys[n].as_str();
            proof {
                assert(more.drop_last() =~= seen);
                assert(more.last() == key@);
                assert forall|k: Seq<char>| #[trigger] more.contains(k) <==> seen.contains(k) || k
                    == key@ by {
                    if more.contains(k) {
                        let i = choose|i: int| 0 <= i < more.len() && more[i] == k;
                        if i < n {
                            assert(seen[i] == k);
                        }
                    }
                    if seen.contains(k) {
                        let i = choose|i: int| 0 <= i < seen.len() && seen[i] == k;
                        assert(more[i] == k);
                    }
                    assert(more[n as int] == key@);
                }
            }
            let at: usize = find_key(&t.keys, key);
            let ghost ks = texts(t.keys@);
            let ghost old_keys = t.keys@;
            let ghost old_rows = t.rows@;
            proof {
                lemma_place(ks, key@, at as int);
            }
            if at < t.keys.len() && same_text(t.keys[at].as_str(), key) {
                assert(ks[at as int] == key@);
                t.rows[at].push(n);
                proof {
                    assert forall|i: int| 0 <= i < t.rows@.len() implies (#[trigger] t.rows@[i])@
                        == partners(more, t.keys@[i]@) by {
                        if i != at {
                            assert(t.rows@[i] == old_rows[i]);
                            assert(ks[i] != ks[at as int]) by {
                                if i < at {
                                    crate::compare::lemma_text_order_equal(ks[i], ks[at as int]);
                                    assert(crate::compare::text_order(ks[i], ks[at as int])
                                        == Rank::Less);
                                } else {
                                    crate::compare::lemma_text_order_equal(ks[at as int], ks[i]);
                                    assert(crate::compare::text_order(ks[at as int], ks[i])
                                        == Rank::Less);
                                }
                            }
                        }
                    }
                    assert forall|k: Seq<char>| #[trigger] more.contains(k) <==> texts(
                        t.keys@,
                    ).contains(k) by {
                        assert(ks.contains(key@));
                        assert(seen.contains(k) <==> ks.contains(k));
                    }
                }
            } else {
                let mut rows: Vec<usize> = Vec::new();
                rows.push(n);
                t.keys.insert(at, owned(key));
                t.rows.insert(at, rows);
                proof {
                    assert(texts(t.keys@) =~= ks.insert(at as int, key@));
                    assert(!ks.contains(key@));
                    assert(!seen.contains(key@));
                    lemma_partners_none(seen, key@);
                    assert forall|i: int| 0 <= i < t.rows@.len() implies (#[trigger] t.rows@[i])@
                        == partners(more, t.keys@[i]@) by {
                        if i < at {
                            assert(t.rows@[i] == old_rows[i]);
                            assert(t.keys@[i] == old_keys[i]);
                            assert(ks[i] != key@);
                        } else if i == at {
                            assert(t.rows@[i]@ =~= seq![n]);
                        } else {
                            assert(t.rows@[i] == old_rows[i - 1]);
                            assert(t.keys@[i] == old_keys[i - 1]);
                            assert(ks[i - 1] != key@);
                        }
                    }
                    let now = texts(t.keys@);
                    assert forall|k: Seq<char>| #[trigger] more.contains(k) <==> now.contains(k) by {
                        assert(seen.contains(k) <==> ks.contains(k));
                        if now.contains(k) {
                            let i = choose|i: int| 0 <= i < now.len() && now[i] == k;
                            if i < at {
                                assert(ks[i] == k);
                            } else if i > at {
                                assert(ks[i - 1] == k);
                            }
                        }
                        if ks.contains(k) {
                            let i = choose|i: int| 0 <= i < ks.len() && ks[i] == k;
                            if i < at {
                                assert(now[i] == k);
                            } else {
                                assert(now[i + 1] == k);
                            }
                        }
                        assert(now[at as int] == key@);
                    }
                }
            }
        }
        assert(all.take(all.len() as int) =~= all);
        t
    }
}

proof fn lemma_partners_none(rkeys: Seq<Seq<char>>, key: Seq<char>)
    requires
        !rkeys.contains(key),
    ensures
        partners(rkeys, key) == Seq::<usize>::empty(),
    decreases rkeys.len(),
{
    if rkeys.len() > 0 {
        assert(rkeys[rkeys.len() - 1] != key);
        assert(!rkeys.drop_last().contains(key)) by {
            if rkeys.drop_last().contains(key) {
                let k = choose|k: int| 0 <= k < rkeys.drop_last().len() && rkeys.drop_last()[k]
                    == key;
                assert(rkeys[k] == key);
            }
        }
        lemma_partners_none(rkeys.drop_last(), key);
    }
}

/// The rows of a join (see [`join_pairs`]).
pub fn match_rows(lkeys: &Vec<String>, rkeys: &Vec<String>, kind: JoinKind) -> (r: Vec<Pair>)
    ensures
        r@ == join_pairs(texts(lkeys@), texts(rkeys@), kind),
{
    let ghost lk = texts(lkeys@);
    let ghost rk = texts(rkeys@);
    let limit: usize = rkeys.len();
    let table: Table = Table::build(rkeys);
    let mut matched: Vec<bool> = Vec::new();
    for i in 0..rkeys.len()
        invariant
            matched@.len() == i,
            forall|k: int| 0 <= k < i ==> !(#[trigger] matched@[k]),
    {
        matched.push(false);
    }
    let mut out: Vec<Pair> = Vec::new();
    assert(lk.take(0) =~= Seq::empty());
    for n in 0..lkeys.len()
        invariant
            lk == texts(lkeys@),
            rk == texts(rkeys@),
            limit == rk.len(),
            table.holds(rk),
            out@ == left_pairs(lk, rk, kind, n as nat),
            matched@.len() == rk.len(),
            forall|k: int|
                0 <= k < rk.len() ==> (#[trigger] matched@[k]) == lk.take(n as int).contains(rk[k]),
    {
        let key: &str = lkeys[n].as_str();
        assert(lk[n as int] == key@);
        let ghost seen = lk.take(n as int);
        let ghost more = lk.take(n + 1);
        proof {
            lemma_partners(rk, key@);
            assert forall|k: Seq<char>| more.contains(k) <==> seen.contains(k) || k == key@ by {
                if more.contains(k) {
                    let i = choose|i: int| 0 <= i < more.len() && more[i] == k;
                    if i < n {
                        assert(seen[i] == k);
                    }
                }
                if seen.contains(k) {
                    let i = choose|i: int| 0 <= i < seen.len() && seen[i] == k;
                    assert(more[i] == k);
                }
                assert(more[n as int] == key@);
            }
        }
        match table.find(key, Ghost(rk)) {
            Some(at) => {
                let rows: &Vec<usize> = &table.rows[at];
                assert(rows@ == partners(rk, key@));
                let ghost before = out@;
                let ghost add = pairs_of(n, rows@, kind);
                for i in 0..rows.len()
                    invariant
                        limit == rk.len(),
                        rk == texts(rkeys@),
                        rows@ == partners(rk, key@),
                        add == pairs_of(n, rows@, kind),
                        out@ == before + add.take(i as int),
                        matched@.len() == rk.len(),
                        forall|j: int|
                            0 <= j < rows@.len() ==> (#[trigger] rows@[j]) < rk.len()
                                && rk[rows@[j] as int] == key@,
                        forall|k: int|
                            0 <= k < rk.len() ==> (#[trigger] matched@[k]) == (seen.contains(rk[k])
                                || rows@.take(i as int).contains(k as usize)),
                {
                    let ri: usize = rows[i];
                    let ghost was = matched@;
                    matched.set(ri, true);
                    out.push((Some(n), Some(ri)));
                    proof {
                        assert(add.take(i + 1) =~= add.take(i as int).push(
                            (Some(n), Some(ri)),
                        ));
                        let a = rows@.take(i as int);
                        let b = rows@.take(i + 1);
                        assert(b =~= a.push(ri));
                        assert forall|k: int| 0 <= k < rk.len() implies (#[trigger] matched@[k]) == (
                        seen.contains(rk[k]) || b.contains(k as usize)) by {
                            assert(was[k] == (seen.contains(rk[k]) || a.contains(k as usize)));
                            if a.contains(k as usize) {
                                let j = choose|j: int| 0 <= j < a.len() && a[j] == k as usize;
                                assert(b[j] == k as usize);
                            }
                            if b.contains(k as usize) {
                                let j = choose|j: int| 0 <= j < b.len() && b[j] == k as usize;
                                if j < i {
                                    assert(a[j] == k as usize);
                                }
                            }
                            if k == ri {
                                assert(b[i as int] == k as usize);
                            }
                        }
                    }
                }
                proof {
                    assert(rows@.take(rows@.len() as int) =~= rows@);
                    assert(rk.contains(key@)) by {
                        assert(texts(table.keys@)[at as int] == key@);
                        assert(texts(table.keys@).contains(key@));
                    }
                    assert(add.take(rows@.len() as int) =~= add);
                    assert forall|k: int| 0 <= k < rk.len() implies (#[trigger] matched@[k])
                        == more.contains(rk[k]) by {
                        if rk[k] == key@ {
                            assert(rk[(k as usize) as int] == key@);
                            assert(rows@.contains(k as usize));
                        } else if rows@.contains(k as usize) {
                            let j = choose|j: int| 0 <= j < rows@.len() && rows@[j] == k as usize;
                            assert(rk[rows@[j] as int] == key@);
                        }
                    }
                }
            },
            None => {
                if kind.keeps_left() {
                    out.push((Some(n), None));
                }
                proof {
                    let add = pairs_of(n, partners(rk, key@), kind);
                    assert(out@ =~= left_pairs(lk, rk, kind, n as nat) + add);
                    assert forall|k: int| 0 <= k < rk.len() implies (#[trigger] matched@[k])
                        == more.contains(rk[k]) by {
                        assert(rk.contains(rk[k]));
                    }
                }
            },
        }
    }
    assert(lk.take(lk.len() as int) =~= lk);
    let ghost left = out@;
    if kind.keeps_right() {
        for n in 0..rkeys.len()
            invariant
                rk == texts(rkeys@),
                matched@.len() == rk.len(),
                forall|k: int| 0 <= k < rk.len() ==> (#[trigger] matched@[k]) == lk.contains(rk[k]),
                out@ == left + right_pairs(lk, rk, n as nat),
        {
            if !matched[n] {
                out.push((None, Some(n)));
            }
            assert(out@ =~= left + right_pairs(lk, rk, (n + 1) as nat));
        }
    }
    assert(out@ =~= join_pairs(lk, rk, kind));
    out
}

// --------------------------------------------------------- the columns

/// The value that pads a column of a type where a row has no partner.
pub open spec fn padding(ty: DataType) -> Datum {
    match ty {
        DataType::Bool => Datum::Bool(false),
        DataType::I64 => Datum::I64(0),
        DataType::F64 => Datum::F64(F64 { bits: 0 }),
        DataType::Decimal { scale } => Datum::Dec(Decimal { unscaled: 0, scale }),
        DataType::DateTime { unit } => Datum::DateTime(DateTime { ticks: 0, unit }),
        DataType::Duration { unit } => Datum::Duration(Duration { ticks: 0, unit }),
        DataType::Date => Datum::Date(Date { epoch_day: 0 }),
        DataType::Str => Datum::Str(Seq::empty()),
        _ => Datum::Null,
    }
}

/// The value that pads a column (see [`padding`]).
pub fn pad(ty: DataType) -> (r: Value)
    ensures
        r@ == padding(ty),
        fits(r@, ty),
{
    match ty {
        DataType::Bool => Value::Bool(false),
        DataType::I64 => Value::I64(0),
        DataType::F64 => Value::F64(F64 { bits: 0 }),
        DataType::Decimal { scale } => Value::Dec(Decimal { unscaled: 0, scale }),
        DataType::DateTime { unit } => Value::DateTime(DateTime { ticks: 0, unit }),
        DataType::Duration { unit } => Value::Duration(Duration { ticks: 0, unit }),
        DataType::Date => Value::Date(Date { epoch_day: 0 }),
        DataType::Str => {
            let s: String = String::new();
            assert(s@ =~= Seq::empty());
            Value::Str(s)
        },
        _ => Value::Null,
    }
}

/// One side of a pair.
pub open spec fn side(p: Pair, right: bool) -> Option<usize> {
    if right {
        p.1
    } else {
        p.0
    }
}

/// A column of one side, row by row of the join; padded where that side is
/// absent.
pub open spec fn gathered_side(c: Lane, pairs: Seq<Pair>, right: bool) -> Lane {
    Lane {
        dtype: c.dtype,
        cells: Seq::new(
            pairs.len(),
            |i: int|
                match side(pairs[i], right) {
                    Some(r) => c.cells[r as int],
                    None => padding(c.dtype),
                },
        ),
    }
}

/// The rows of one side are rows of the column.
pub open spec fn side_fits(n: nat, pairs: Seq<Pair>, right: bool) -> bool {
    forall|i: int|
        0 <= i < pairs.len() ==> (side(#[trigger] pairs[i], right) matches Some(r) ==> r < n)
}

/// A column of one side (see [`gathered_side`]).
pub fn gather_opt(col: &Column, pairs: &Vec<Pair>, right: bool) -> (r: Column)
    requires
        col@.typed(),
        side_fits(col@.cells.len(), pairs@, right),
    ensures
        r@ == gathered_side(col@, pairs@, right),
        r@.typed(),
{
    let ghost want = gathered_side(col@, pairs@, right);
    let mut cells: Vec<Value> = Vec::new();
    for i in 0..pairs.len()
        invariant
            col@.typed(),
            side_fits(col@.cells.len(), pairs@, right),
            want == gathered_side(col@, pairs@, right),
            cells@.len() == i,
            forall|k: int|
                0 <= k < i ==> (#[trigger] cells@[k])@ == want.cells[k] && fits(
                    cells@[k]@,
                    col.dtype,
                ),
    {
        let p: Pair = pairs[i];
        let row: Option<usize> = if right {
            p.1
        } else {
            p.0
        };
        assert(side(pairs@[i as int], right) == row);
        match row {
            Some(r) => {
                assert(fits(col@.cells[r as int], col.dtype));
                cells.push(col.value_at(r));
            },
            None => {
                cells.push(pad(col.dtype));
            },
        }
    }
    assert(data(cells@) =~= want.cells);
    Column { dtype: col.dtype, cells }
}

/// The values of a key column: the left key, or the right one where the left
/// side is absent, so that the key is never lost.
pub open spec fn key_cells(left: Lane, right: Lane, pairs: Seq<Pair>) -> Seq<Datum> {
    Seq::new(
        pairs.len(),
        |i: int|
            match pairs[i] {
                (Some(l), _) => left.cells[l as int],
                (None, Some(r)) => right.cells[r as int],
                (None, None) => Datum::Str(Seq::empty()),
            },
    )
}

/// Every pair has a left row.
pub open spec fn all_left(pairs: Seq<Pair>) -> bool {
    forall|i: int| 0 <= i < pairs.len() ==> (#[trigger] pairs[i]).0 is Some
}

/// A value as a cell of a column of that type: as it is, or what its text means
/// there. `None` where the type has no value with that text.
pub open spec fn fitted(d: Datum, ty: DataType, log: Log) -> Result<Option<Datum>, Query> {
    if fits(d, ty) {
        Ok(Some(d))
    } else {
        match rendered(d, log) {
            Err(q) => Err(q),
            Ok(t) => match cast(Datum::Str(t), ty, log) {
                Err(q) => Err(q),
                Ok((x, _)) => if x is Null {
                    Ok(None)
                } else {
                    match rendered(x, log) {
                        Err(q) => Err(q),
                        Ok(u) => Ok(
                            if u == t {
                                Some(x)
                            } else {
                                None
                            },
                        ),
                    }
                },
            },
        }
    }
}

/// The first `n` keys as cells of the left column's type: those of the left as
/// they are, those of the right fitted. `None` where one does not fit.
pub open spec fn fitted_keys(left: Lane, right: Lane, pairs: Seq<Pair>, n: nat, log: Log) -> Result<
    Option<Seq<Datum>>,
    Query,
>
    decreases n,
{
    if n == 0 {
        Ok(Some(Seq::empty()))
    } else {
        match fitted_keys(left, right, pairs, (n - 1) as nat, log) {
            Err(q) => Err(q),
            Ok(None) => Ok(None),
            Ok(Some(s)) => match fitted(key_cells(left, right, pairs)[n - 1], left.dtype, log) {
                Err(q) => Err(q),
                Ok(None) => Ok(None),
                Ok(Some(d)) => Ok(Some(s.push(d))),
            },
        }
    }
}

/// The key column: in the left column's type, and widened to text only where the
/// text of a right key cannot be represented there.
pub open spec fn key_lane(left: Lane, right: Lane, pairs: Seq<Pair>, log: Log) -> Result<Lane, Query> {
    if all_left(pairs) {
        Ok(gathered_side(left, pairs, false))
    } else {
        match fitted_keys(left, right, pairs, pairs.len(), log) {
            Err(q) => Err(q),
            Ok(Some(s)) => Ok(Lane { dtype: left.dtype, cells: s }),
            Ok(None) => text_lane(key_cells(left, right, pairs), log),
        }
    }
}

fn value_fits(v: &Value, ty: DataType) -> (r: bool)
    ensures
        r == fits(v@, ty),
{
    match (v, ty) {
        (Value::Null, _) => true,
        (Value::Bool(_), DataType::Bool) => true,
        (Value::I64(_), DataType::I64) => true,
        (Value::F64(_), DataType::F64) => true,
        (Value::Dec(x), DataType::Decimal { scale }) => x.scale == scale,
        (Value::DateTime(x), DataType::DateTime { unit }) => x.unit == unit,
        (Value::Duration(x), DataType::Duration { unit }) => x.unit == unit,
        (Value::Date(_), DataType::Date) => true,
        (Value::Time(_), DataType::Time) => true,
        (Value::Str(_), DataType::Str) => true,
        (Value::Resource(_), DataType::Resource) => true,
        (Value::Struct(_), DataType::Struct) => true,
        (Value::List(_), DataType::List) => true,
        _ => false,
    }
}

fn fit(v: Value, ty: DataType, host: &Answers) -> (r: Result<Option<Value>, Ask>)
    ensures
        match (r, fitted(v@, ty, host@)) {
            (Ok(Some(x)), Ok(Some(d))) => x@ == d && fits(d, ty),
            (Ok(None), Ok(None)) => true,
            (Err(a), Err(q)) => a@ == q,
            _ => false,
        },
{
    if value_fits(&v, ty) {
        return Ok(Some(v));
    }
    let t: String = match render(&v, host) {
        Err(a) => {
            return Err(a);
        },
        Ok(t) => t,
    };
    let text: Value = Value::Str(t.clone());
    let mut fails: u64 = 0;
    let x: Value = match cast_value(&text, ty, host, &mut fails) {
        Err(a) => {
            return Err(a);
        },
        Ok(x) => x,
    };
    proof {
        lemma_cast_fits(text@, ty, host@);
    }
    if x.is_null() {
        return Ok(None);
    }
    match render(&x, host) {
        Err(a) => Err(a),
        Ok(u) => if same_text(u.as_str(), t.as_str()) {
            Ok(Some(x))
        } else {
            Ok(None)
        },
    }
}

proof fn lemma_keys_stop(left: Lane, right: Lane, pairs: Seq<Pair>, n: nat, m: nat, log: Log)
    requires
        n <= m,
        !(fitted_keys(left, right, pairs, n, log) matches Ok(Some(_))),
    ensures
        fitted_keys(left, right, pairs, m, log) == fitted_keys(left, right, pairs, n, log),
    decreases m,
{
    if n < m {
        lemma_keys_stop(left, right, pairs, n, (m - 1) as nat, log);
    }
}

/// The values of a key column (see [`key_cells`]), and whether some row has no
/// left side.
fn key_values(left: &Column, right: &Column, pairs: &Vec<Pair>) -> (r: (Vec<Value>, bool))
    requires
        side_fits(left@.cells.len(), pairs@, false),
        side_fits(right@.cells.len(), pairs@, true),
    ensures
        data(r.0@) == key_cells(left@, right@, pairs@),
        r.1 == !all_left(pairs@),
{
    let mut absent: bool = false;
    let mut vals: Vec<Value> = Vec::new();
    let ghost want = key_cells(left@, right@, pairs@);
    for i in 0..pairs.len()
        invariant
            side_fits(left@.cells.len(), pairs@, false),
            side_fits(right@.cells.len(), pairs@, true),
            want == key_cells(left@, right@, pairs@),
            absent == exists|k: int| 0 <= k < i && (#[trigger] pairs@[k]).0 is None,
            vals@.len() == i,
            forall|k: int| 0 <= k < i ==> (#[trigger] vals@[k])@ == want[k],
    {
        let p: Pair = pairs[i];
        assert(side(pairs@[i as int], false) == p.0);
        assert(side(pairs@[i as int], true) == p.1);
        match p {
            (Some(l), _) => {
                vals.push(left.value_at(l));
            },
            (None, Some(r)) => {
                absent = true;
                vals.push(right.value_at(r));
            },
            (None, None) => {
                absent = true;
                let s: String = String::new();
                assert(s@ =~= Seq::empty());
                vals.push(Value::Str(s));
            },
        }
    }
    assert(data(vals@) =~= want);
    (vals, absent)
}

/// The key column (see [`key_lane`]).
pub fn join_key_column(left: &Column, right: &Column, pairs: &Vec<Pair>, host: &Answers) -> (r: Result<Column, Ask>)
    requires
        left@.typed(),
        right@.typed(),
        side_fits(left@.cells.len(), pairs@, false),
        side_fits(right@.cells.len(), pairs@, true),
    ensures
        agree_column(r, key_lane(left@, right@, pairs@, host@)),
        r matches Ok(c) ==> c@.typed() && c@.cells.len() == pairs@.len(),
{
    let (vals, absent) = key_values(left, right, pairs);
    let ghost want = key_cells(left@, right@, pairs@);
    if !absent {
        return Ok(gather_opt(left, pairs, false));
    }
    let ty: DataType = left.dtype;
    let mut cells: Vec<Value> = Vec::new();
    assert(data(cells@) =~= Seq::empty());
    for i in 0..vals.len()
        invariant
            ty == left@.dtype,
            want == key_cells(left@, right@, pairs@),
            data(vals@) == want,
            !all_left(pairs@),
            cells@.len() == i,
            fitted_keys(left@, right@, pairs@, i as nat, host@) == Ok::<Option<Seq<Datum>>, Query>(
                Some(data(cells@)),
            ),
            forall|k: int| 0 <= k < i ==> fits((#[trigger] cells@[k])@, ty),
    {
        assert(vals@[i as int]@ == want[i as int]);
        let ghost sofar = data(cells@);
        match fit(vals[i].dup(), ty, host) {
            Err(a) => {
                proof {
                    lemma_keys_stop(left@, right@, pairs@, (i + 1) as nat, pairs@.len(), host@);
                }
                return Err(a);
            },
            Ok(None) => {
                proof {
                    lemma_keys_stop(left@, right@, pairs@, (i + 1) as nat, pairs@.len(), host@);
                    lemma_text_lane(want, host@);
                }
                return text_column(&vals, host);
            },
            Ok(Some(x)) => {
                let ghost d = x@;
                cells.push(x);
                assert(data(cells@) =~= sofar.push(d));
            },
        }
    }
    Ok(Column { dtype: ty, cells })
}

// -------------------------------------------------------- the operator

/// The first place of `x` in a list.
pub open spec fn first_at(v: Seq<usize>, x: int) -> Option<int>
    decreases v.len(),
{
    if v.len() == 0 {
        None
    } else {
        match first_at(v.drop_last(), x) {
            Some(i) => Some(i),
            None => if v.last() == x {
                Some(v.len() - 1)
            } else {
                None
            },
        }
    }
}

fn position(v: &Vec<usize>, x: usize) -> (r: Option<usize>)
    ensures
        match r {
            Some(i) => first_at(v@, x as int) == Some(i as int) && i < v@.len() && v@[i as int] == x,
            None => first_at(v@, x as int) is None,
        },
{
    for n in 0..v.len()
        invariant
            first_at(v@.take(n as int), x as int) is None,
    {
        assert(v@.take(n + 1).drop_last() =~= v@.take(n as int));
        if v[n] == x {
            proof {
                lemma_first_stays(v@, x as int, n + 1);
            }
            return Some(n);
        }
    }
    assert(v@.take(v@.len() as int) =~= v@);
    None
}

proof fn lemma_first_stays(v: Seq<usize>, x: int, n: int)
    requires
        0 <= n <= v.len(),
        first_at(v.take(n), x) is Some,
    ensures
        first_at(v, x) == first_at(v.take(n), x),
    decreases v.len(),
{
    if n < v.len() {
        assert(v.drop_last().take(n) =~= v.take(n));
        lemma_first_stays(v.drop_last(), x, n);
    } else {
        assert(v.take(n) =~= v);
    }
}

/// A place that is found holds what was sought.
pub proof fn lemma_first_at(v: Seq<usize>, x: int)
    ensures
        first_at(v, x) matches Some(i) ==> 0 <= i < v.len() && v[i] == x,
    decreases v.len(),
{
    if v.len() > 0 {
        lemma_first_at(v.drop_last(), x);
    }
}

/// A field whose column has the type `ty`.
pub open spec fn retyped_field(f: FieldV, ty: DataType) -> FieldV {
    if f.dtype == ty {
        f
    } else {
        flat_field(f.name, ty)
    }
}

/// The column of the join for a left column.
pub open spec fn left_lane(l: Batch, r: Batch, lk: Seq<usize>, rk: Seq<usize>, pairs: Seq<Pair>, ci: int, log: Log) -> Result<
    Lane,
    Query,
> {
    match first_at(lk, ci) {
        Some(k) => key_lane(l.columns[ci], r.columns[rk[k] as int], pairs, log),
        None => Ok(gathered_side(l.columns[ci], pairs, false)),
    }
}

/// The fields and columns of the join for the first `n` left fields.
pub open spec fn left_part(l: Batch, r: Batch, lk: Seq<usize>, rk: Seq<usize>, pairs: Seq<Pair>, n: nat, log: Log) -> Result<
    (Seq<FieldV>, Seq<Lane>),
    Query,
>
    decreases n,
{
    if n == 0 {
        Ok((Seq::empty(), Seq::empty()))
    } else {
        match left_part(l, r, lk, rk, pairs, (n - 1) as nat, log) {
            Err(q) => Err(q),
            Ok((fields, columns)) => match left_lane(l, r, lk, rk, pairs, n - 1, log) {
                Err(q) => Err(q),
                Ok(lane) => Ok(
                    (
                        fields.push(retyped_field(l.fields[n - 1], lane.dtype)),
                        columns.push(lane),
                    ),
                ),
            },
        }
    }
}

proof fn lemma_left_part_stops(l: Batch, r: Batch, lk: Seq<usize>, rk: Seq<usize>, pairs: Seq<Pair>, n: nat, m: nat, log: Log)
    requires
        left_part(l, r, lk, rk, pairs, n, log) is Err,
        n <= m,
    ensures
        left_part(l, r, lk, rk, pairs, m, log) == left_part(l, r, lk, rk, pairs, n, log),
    decreases m,
{
    if n < m {
        lemma_left_part_stops(l, r, lk, rk, pairs, n, (m - 1) as nat, log);
    }
}

/// The name of a right column in the join: with a suffix where a left column has
/// its name.
pub open spec fn right_name(l: Batch, name: Seq<char>) -> Seq<char> {
    if index_in(l.fields, name) is Some {
        name + seq!['_', 'r']
    } else {
        name
    }
}

/// The fields and columns of the join after those of the left, for the first `n`
/// right fields: all but the keys.
pub open spec fn right_part(l: Batch, r: Batch, rk: Seq<usize>, pairs: Seq<Pair>, n: nat) -> (Seq<FieldV>, Seq<Lane>)
    decreases n,
{
    if n == 0 {
        (Seq::empty(), Seq::empty())
    } else {
        let (fields, columns) = right_part(l, r, rk, pairs, (n - 1) as nat);
        if first_at(rk, n - 1) is Some {
            (fields, columns)
        } else {
            (
                fields.push(flat_field(right_name(l, r.fields[n - 1].name), r.fields[n - 1].dtype)),
                columns.push(gathered_side(r.columns[n - 1], pairs, true)),
            )
        }
    }
}

/// The join of two chunks by the key columns `lk` and `rk`.
pub open spec fn joined_chunk(l: Batch, r: Batch, lk: Seq<usize>, rk: Seq<usize>, kind: JoinKind, id: u64, log: Log) -> Result<
    Batch,
    Query,
> {
    match row_keys(l, lk, l.len, log) {
        Err(q) => Err(q),
        Ok(lkeys) => match row_keys(r, rk, r.len, log) {
            Err(q) => Err(q),
            Ok(rkeys) => {
                let pairs = join_pairs(lkeys, rkeys, kind);
                match left_part(l, r, lk, rk, pairs, l.fields.len(), log) {
                    Err(q) => Err(q),
                    Ok((lf, lc)) => {
                        let (rf, rc) = right_part(l, r, rk, pairs, r.fields.len());
                        Ok(
                            Batch {
                                fields: lf + rf,
                                columns: lc + rc,
                                len: row_count(lc + rc),
                                id,
                                mode: Mode::Normal,
                                source: None,
                            },
                        )
                    },
                }
            },
        },
    }
}

/// The pairs name rows that are there.
pub proof fn lemma_pairs_fit(lkeys: Seq<Seq<char>>, rkeys: Seq<Seq<char>>, kind: JoinKind)
    requires
        lkeys.len() <= usize::MAX,
        rkeys.len() <= usize::MAX,
    ensures
        side_fits(lkeys.len(), join_pairs(lkeys, rkeys, kind), false),
        side_fits(rkeys.len(), join_pairs(lkeys, rkeys, kind), true),
{
    lemma_left_pairs(lkeys, rkeys, kind, lkeys.len());
    lemma_right_pairs(lkeys, rkeys, rkeys.len());
    let a = left_pairs(lkeys, rkeys, kind, lkeys.len());
    let all = join_pairs(lkeys, rkeys, kind);
    assert forall|i: int| 0 <= i < all.len() implies (side(#[trigger] all[i], false) matches Some(
        x,
    ) ==> x < lkeys.len()) && (side(all[i], true) matches Some(x) ==> x < rkeys.len()) by {
        if i < a.len() {
            assert(all[i] == a[i]);
        } else {
            assert(all[i] == right_pairs(lkeys, rkeys, rkeys.len())[i - a.len()]);
        }
    }
}

fn build_left(l: &Chunk, r: &Chunk, lk: &Vec<usize>, rk: &Vec<usize>, pairs: &Vec<Pair>, host: &Answers) -> (out: Result<
    (Vec<Field>, Vec<Column>),
    Ask,
>)
    requires
        l@.wf(),
        r@.wf(),
        lk@.len() == rk@.len(),
        within(l@.fields, lk@),
        within(r@.fields, rk@),
        side_fits(l@.len, pairs@, false),
        side_fits(r@.len, pairs@, true),
    ensures
        match (out, left_part(l@, r@, lk@, rk@, pairs@, l@.fields.len(), host@)) {
            (Ok((f, c)), Ok((fv, cv))) => fields_view(f@) == fv && lanes(c@) == cv && sized(
                fv,
                cv,
                pairs@.len(),
            ),
            (Err(a), Err(q)) => a@ == q,
            _ => false,
        },
{
    let mut fields: Vec<Field> = Vec::new();
    let mut columns: Vec<Column> = Vec::new();
    assert(fields_view(fields@) =~= Seq::empty());
    assert(lanes(columns@) =~= Seq::empty());
    for n in 0..l.fields.len()
        invariant
            l@.wf(),
            r@.wf(),
            lk@.len() == rk@.len(),
            within(l@.fields, lk@),
            within(r@.fields, rk@),
            side_fits(l@.len, pairs@, false),
            side_fits(r@.len, pairs@, true),
            left_part(l@, r@, lk@, rk@, pairs@, n as nat, host@) == Ok::<
                (Seq<FieldV>, Seq<Lane>),
                Query,
            >((fields_view(fields@), lanes(columns@))),
            sized(fields_view(fields@), lanes(columns@), pairs@.len()),
    {
        let ghost fv = fields_view(fields@);
        let ghost cv = lanes(columns@);
        let col: &Column = &l.columns[n];
        assert(l@.columns[n as int] == col@);
        assert(col@.typed() && col@.cells.len() == l@.len);
        let made: Result<Column, Ask> = match position(lk, n) {
            Some(k) => {
                let rc: usize = rk[k];
                assert(rk@[k as int] < r@.fields.len());
                assert(r@.columns[rc as int] == r.columns@[rc as int]@);
                assert(r@.columns[rc as int].typed());
                join_key_column(col, &r.columns[rc], pairs, host)
            },
            None => Ok(gather_opt(col, pairs, false)),
        };
        match made {
            Err(a) => {
                proof {
                    lemma_left_part_stops(
                        l@,
                        r@,
                        lk@,
                        rk@,
                        pairs@,
                        (n + 1) as nat,
                        l@.fields.len(),
                        host@,
                    );
                }
                return Err(a);
            },
            Ok(c) => {
                let ghost lane = c@;
                let f: Field = if l.fields[n].dtype == c.dtype {
                    l.fields[n].dup()
                } else {
                    Field::flat(l.fields[n].name.clone(), c.dtype)
                };
                assert(f@ == retyped_field(l@.fields[n as int], lane.dtype));
                assert(f@.dtype == lane.dtype);
                fields.push(f);
                columns.push(c);
                assert(fields_view(fields@) =~= fv.push(f@));
                assert(lanes(columns@) =~= cv.push(lane));
            },
        }
    }
    Ok((fields, columns))
}

fn build_right(l: &Chunk, r: &Chunk, rk: &Vec<usize>, pairs: &Vec<Pair>) -> (out: (Vec<Field>, Vec<Column>))
    requires
        l@.wf(),
        r@.wf(),
        side_fits(r@.len, pairs@, true),
    ensures
        (fields_view(out.0@), lanes(out.1@)) == right_part(l@, r@, rk@, pairs@, r@.fields.len()),
        sized(fields_view(out.0@), lanes(out.1@), pairs@.len()),
{
    let mut fields: Vec<Field> = Vec::new();
    let mut columns: Vec<Column> = Vec::new();
    assert(fields_view(fields@) =~= Seq::empty());
    assert(lanes(columns@) =~= Seq::empty());
    for n in 0..r.fields.len()
        invariant
            l@.wf(),
            r@.wf(),
            side_fits(r@.len, pairs@, true),
            (fields_view(fields@), lanes(columns@)) == right_part(
                l@,
                r@,
                rk@,
                pairs@,
                n as nat,
            ),
            sized(fields_view(fields@), lanes(columns@), pairs@.len()),
    {
        let ghost fv = fields_view(fields@);
        let ghost cv = lanes(columns@);
        match position(rk, n) {
            Some(_) => {},
            None => {
                let col: &Column = &r.columns[n];
                assert(r@.columns[n as int] == col@);
                assert(col@.typed() && col@.cells.len() == r@.len);
                let mut name: String = r.fields[n].name.clone();
                match index_of(&l.fields, r.fields[n].name.as_str()) {
                    Some(_) => {
                        proof {
                            reveal_strlit("_r");
                            assert("_r"@ =~= seq!['_', 'r']);
                        }
                        name.push_str("_r");
                    },
                    None => {},
                }
                let f: Field = Field::flat(name, r.fields[n].dtype);
                let c: Column = gather_opt(col, pairs, true);
                let ghost lane = c@;
                fields.push(f);
                columns.push(c);
                assert(fields_view(fields@) =~= fv.push(f@));
                assert(lanes(columns@) =~= cv.push(lane));
            },
        }
    }
    (fields, columns)
}

/// The join of two chunks on the given columns.
pub fn join_chunks(l: &Chunk, r: &Chunk, lk: &Vec<usize>, rk: &Vec<usize>, kind: JoinKind, id: u64, host: &Answers) -> (out:
    Result<Chunk, Ask>)
    requires
        l@.wf(),
        r@.wf(),
        lk@.len() == rk@.len(),
        within(l@.fields, lk@),
        within(r@.fields, rk@),
    ensures
        agree(
            out,
            joined_chunk(l@, r@, lk@, rk@, kind, id, host@),
            |c: Chunk, b: Batch| c@ == b && b.wf(),
        ),
{
    proof {
        assert forall|i: int| 0 <= i < lk@.len() implies (#[trigger] lk@[i]) < l@.columns.len() by {}
        assert forall|i: int| 0 <= i < rk@.len() implies (#[trigger] rk@[i]) < r@.columns.len() by {}
    }
    let lkeys: Vec<String> = match keys_of(l, lk, host) {
        Err(a) => {
            return Err(a);
        },
        Ok(k) => k,
    };
    let rkeys: Vec<String> = match keys_of(r, rk, host) {
        Err(a) => {
            return Err(a);
        },
        Ok(k) => k,
    };
    let ln: usize = l.len;
    let rn: usize = r.len;
    let pairs: Vec<Pair> = match_rows(&lkeys, &rkeys, kind);
    proof {
        lemma_pairs_fit(texts(lkeys@), texts(rkeys@), kind);
    }
    let (mut fields, mut columns) = match build_left(l, r, lk, rk, &pairs, host) {
        Err(a) => {
            return Err(a);
        },
        Ok(p) => p,
    };
    let ghost lf = fields_view(fields@);
    let ghost lc = lanes(columns@);
    let (mut more, mut cols) = build_right(l, r, rk, &pairs);
    let ghost rf = fields_view(more@);
    let ghost rc = lanes(cols@);
    let ghost mv = more@;
    let ghost cv = cols@;
    let ghost f0 = fields@;
    let ghost c0 = columns@;
    fields.append(&mut more);
    columns.append(&mut cols);
    proof {
        assert(fields@ =~= f0 + mv);
        assert(columns@ =~= c0 + cv);
        assert(fields_view(fields@) =~= lf + rf);
        assert(lanes(columns@) =~= lc + rc);
        assert forall|i: int| 0 <= i < (lc + rc).len() implies (#[trigger] (lc + rc)[i]).typed()
            && (lc + rc)[i].cells.len() == pairs@.len() && (lc + rc)[i].dtype == (lf + rf)[i].dtype by {
            if i < lc.len() {
                assert((lc + rc)[i] == lc[i]);
                assert((lf + rf)[i] == lf[i]);
            } else {
                assert((lc + rc)[i] == rc[i - lc.len()]);
                assert((lf + rf)[i] == rf[i - lc.len()]);
            }
        }
    }
    let len: usize = if columns.len() == 0 {
        0
    } else {
        assert((lc + rc)[0] == columns@[0]@);
        columns[0].len()
    };
    let c = Chunk { fields, columns, len, id, mode: Mode::Normal, source: None };
    proof {
        let b = c@;
        assert(b.columns == lc + rc);
        assert(b.fields == lf + rf);
        assert forall|i: int| 0 <= i < b.columns.len() implies {
            &&& (#[trigger] b.columns[i]).cells.len() == b.len
            &&& b.columns[i].typed()
        } by {
            assert((lc + rc)[0].cells.len() == pairs@.len());
        }
    }
    Ok(c)
}

/// The warning of an unknown key of one side.
pub open spec fn key_warned(c: CtxV, what: Seq<char>, key: Seq<char>) -> CtxV {
    c.raised(c.event(Severity::Warn, ErrorScope::Branch, what + key + seq!['\'']))
}

/// Raises the warning of an unknown key.
pub fn warn_key(ctx: &mut OpCtx, what: &str, key: &str)
    ensures
        final(ctx)@ == key_warned(old(ctx)@, what@, key@),
{
    proof {
        reveal_strlit("'");
        assert("'"@ =~= seq!['\'']);
    }
    let e = ErrorEvent::new(Severity::Warn, ErrorScope::Branch, message3(what, key, "'")).at_node(
        ctx.label.clone(),
    );
    ctx.raise(e);
}

/// `A & B on left:right`: holds both streams back and puts out their join. The
/// left columns come first, then the right ones without the keys.
pub struct Join {
    pub left_keys: Vec<String>,
    pub right_keys: Vec<String>,
    pub kind: JoinKind,
    /// The node that the left stream comes from.
    pub left_id: usize,
    pub left_buf: Vec<Chunk>,
    pub right_buf: Vec<Chunk>,
}

/// What a join puts out at its end.
pub enum Outcome {
    Nothing,
    /// One side is not there at all, and the other one passes.
    Side(Batch),
    /// A key is no column of its side.
    Unknown { what: Seq<char>, key: Seq<char> },
    /// The joined rows.
    Rows(Result<Batch, Query>),
}

impl Join {
    /// The chunks held back have the same columns on each side, and there are as
    /// many keys on both.
    pub open spec fn wf(&self) -> bool {
        &&& stack(batches(self.left_buf@))
        &&& stack(batches(self.right_buf@))
        &&& self.left_keys@.len() == self.right_keys@.len()
    }

    /// Can the chunk be put with those held back of its side?
    pub open spec fn takes(&self, from: usize, b: Batch) -> bool {
        if from == self.left_id {
            self.left_buf@.len() > 0 ==> alike(self.left_buf@[0]@, b)
        } else {
            self.right_buf@.len() > 0 ==> alike(self.right_buf@[0]@, b)
        }
    }

    /// Nothing held back.
    pub fn new(left_keys: Vec<String>, right_keys: Vec<String>, kind: JoinKind, left_id: usize) -> (r: Join)
        requires
            left_keys@.len() == right_keys@.len(),
        ensures
            r.wf(),
            r.left_keys == left_keys,
            r.right_keys == right_keys,
            r.kind == kind,
            r.left_id == left_id,
            r.left_buf@.len() == 0,
            r.right_buf@.len() == 0,
    {
        Join { left_keys, right_keys, kind, left_id, left_buf: Vec::new(), right_buf: Vec::new() }
    }

    /// Can the chunk be put with those held back (see [`Join::takes`])?
    pub fn accepts(&self, from: usize, chunk: &Chunk) -> (r: bool)
        ensures
            r == self.takes(from, chunk@),
    {
        if from == self.left_id {
            self.left_buf.len() == 0 || are_alike(&self.left_buf[0], chunk)
        } else {
            self.right_buf.len() == 0 || are_alike(&self.right_buf[0], chunk)
        }
    }

    /// Holds a chunk back, on the side of the node that it comes from.
    pub fn process(&mut self, from: usize, chunk: Chunk)
        requires
            old(self).wf(),
            chunk@.wf(),
            old(self).takes(from, chunk@),
        ensures
            final(self).wf(),
            final(self).left_keys == old(self).left_keys,
            final(self).right_keys == old(self).right_keys,
            final(self).kind == old(self).kind,
            final(self).left_id == old(self).left_id,
            batches(final(self).left_buf@) == if from == old(self).left_id {
                batches(old(self).left_buf@).push(chunk@)
            } else {
                batches(old(self).left_buf@)
            },
            batches(final(self).right_buf@) == if from == old(self).left_id {
                batches(old(self).right_buf@)
            } else {
                batches(old(self).right_buf@).push(chunk@)
            },
    {
        if from == self.left_id {
            hold(&mut self.left_buf, chunk);
        } else {
            hold(&mut self.right_buf, chunk);
        }
    }

    /// What the join puts out at its end, under the number `id`.
    pub open spec fn outcome(&self, id: u64, log: Log) -> Outcome {
        let ls = batches(self.left_buf@);
        let rs = batches(self.right_buf@);
        let lnames = texts(self.left_keys@);
        let rnames = texts(self.right_keys@);
        if ls.len() == 0 && rs.len() == 0 {
            Outcome::Nothing
        } else if rs.len() == 0 {
            if self.kind.left_kept() {
                Outcome::Side(Batch { id, ..stacked(ls) })
            } else {
                Outcome::Nothing
            }
        } else if ls.len() == 0 {
            if self.kind.right_kept() {
                Outcome::Side(Batch { id, ..stacked(rs) })
            } else {
                Outcome::Nothing
            }
        } else {
            let l = stacked(ls);
            let r = stacked(rs);
            match unknown(l.fields, lnames) {
                Some(i) => Outcome::Unknown { what: "join: unknown left key '"@, key: lnames[i] },
                None => match unknown(r.fields, rnames) {
                    Some(i) => Outcome::Unknown {
                        what: "join: unknown right key '"@,
                        key: rnames[i],
                    },
                    None => Outcome::Rows(
                        joined_chunk(
                            l,
                            r,
                            known(l.fields, lnames),
                            known(r.fields, rnames),
                            self.kind,
                            id,
                            log,
                        ),
                    ),
                },
            }
        }
    }

    /// Puts out the join and lets go of what was held back. A question leaves
    /// everything as it was.
    pub fn finish(&mut self, ctx: &mut OpCtx, host: &Answers) -> (r: Result<Option<Chunk>, Ask>)
        requires
            old(self).wf(),
        ensures
            final(self).wf(),
            match old(self).outcome(old(ctx)@.next_chunk_id, host@) {
                Outcome::Nothing => r matches Ok(None) && final(ctx)@ == old(ctx)@,
                Outcome::Side(b) => r matches Ok(Some(c)) && c@ == b && final(ctx)@ == old(
                    ctx,
                )@.advanced(),
                Outcome::Unknown { what, key } => r matches Ok(None) && final(ctx)@ == key_warned(
                    old(ctx)@,
                    what,
                    key,
                ),
                Outcome::Rows(Ok(b)) => r matches Ok(Some(c)) && c@ == b && final(ctx)@ == old(
                    ctx,
                )@.advanced(),
                Outcome::Rows(Err(q)) => r matches Err(a) && a@ == q && final(ctx)@ == old(ctx)@
                    && *final(self) == *old(self),
            },
            r is Ok ==> final(self).left_buf@.len() == 0 && final(self).right_buf@.len() == 0,
            r matches Ok(Some(c)) ==> c@.wf(),
            final(self).left_keys == old(self).left_keys,
            final(self).right_keys == old(self).right_keys,
            final(self).kind == old(self).kind,
            final(self).left_id == old(self).left_id,
    {
        let left: Option<Chunk> = concat_chunks(&self.left_buf);
        let right: Option<Chunk> = concat_chunks(&self.right_buf);
        let out: Option<Chunk> = match (left, right) {
            (None, None) => None,
            (Some(l), None) => if self.kind.keeps_left() {
                Some(renumbered(l, ctx))
            } else {
                None
            },
            (None, Some(r)) => if self.kind.keeps_right() {
                Some(renumbered(r, ctx))
            } else {
                None
            },
            (Some(l), Some(r)) => match resolve_names(&l, &self.left_keys) {
                Err(i) => {
                    warn_key(ctx, "join: unknown left key '", self.left_keys[i].as_str());
                    None
                },
                Ok(lk) => match resolve_names(&r, &self.right_keys) {
                    Err(i) => {
                        warn_key(ctx, "join: unknown right key '", self.right_keys[i].as_str());
                        None
                    },
                    Ok(rk) => match join_chunks(
                        &l,
                        &r,
                        &lk,
                        &rk,
                        self.kind,
                        ctx.next_chunk_id,
                        host,
                    ) {
                        Err(a) => {
                            return Err(a);
                        },
                        Ok(c) => {
                            let _id: u64 = ctx.fresh_id();
                            Some(c)
                        },
                    },
                },
            },
        };
        self.left_buf = Vec::new();
        self.right_buf = Vec::new();
        Ok(out)
    }
}

fn renumbered(c: Chunk, ctx: &mut OpCtx) -> (r: Chunk)
    requires
        c@.wf(),
    ensures
        r@ == (Batch { id: old(ctx)@.next_chunk_id, ..c@ }),
        r@.wf(),
        final(ctx)@ == old(ctx)@.advanced(),
{
    let id: u64 = ctx.fresh_id();
    let mut c = c;
    c.id = id;
    c
}

// ---------------------------------------------------------------- any cut

/// Pairs of rows further down on the left.
pub open spec fn further(pairs: Seq<Pair>, by: int) -> Seq<Pair> {
    Seq::new(
        pairs.len(),
        |i: int|
            (
                match pairs[i].0 {
                    Some(l) => Some((l + by) as usize),
                    None => None,
                },
                pairs[i].1,
            ),
    )
}

proof fn lemma_left_pairs_cut(
    x: Seq<Seq<char>>,
    y: Seq<Seq<char>>,
    rkeys: Seq<Seq<char>>,
    kind: JoinKind,
    n: nat,
)
    requires
        n <= x.len() + y.len() <= usize::MAX,
    ensures
        left_pairs(x + y, rkeys, kind, n) == if n <= x.len() {
            left_pairs(x, rkeys, kind, n)
        } else {
            left_pairs(x, rkeys, kind, x.len()) + further(
                left_pairs(y, rkeys, kind, (n - x.len()) as nat),
                x.len() as int,
            )
        },
    decreases n,
{
    if n > 0 {
        let m = (n - 1) as nat;
        lemma_left_pairs_cut(x, y, rkeys, kind, m);
        if n <= x.len() {
            assert((x + y)[m as int] == x[m as int]);
        } else {
            let k = (m - x.len()) as nat;
            assert((x + y)[m as int] == y[k as int]);
            let rows = partners(rkeys, y[k as int]);
            let a = left_pairs(y, rkeys, kind, k);
            let b = pairs_of(k as usize, rows, kind);
            assert(further(a + b, x.len() as int) =~= further(a, x.len() as int) + further(
                b,
                x.len() as int,
            ));
            assert(further(b, x.len() as int) =~= pairs_of(m as usize, rows, kind));
            let up = left_pairs(x, rkeys, kind, x.len());
            if m == x.len() {
                assert(a =~= Seq::empty());
                assert(further(a, x.len() as int) =~= Seq::empty());
            }
            assert(up + further(a + b, x.len() as int) =~= (up + further(a, x.len() as int))
                + pairs_of(m as usize, rows, kind));
        }
    }
}

/// Joining the left rows chunk by chunk against the whole right side gives the
/// rows that joining them all at once gives, in the same order, where no right row
/// without a partner is kept: the columns of both sides are those of the chunks,
/// one behind the other.
pub proof fn lemma_join_any_cut(
    x: Seq<Seq<char>>,
    y: Seq<Seq<char>>,
    rkeys: Seq<Seq<char>>,
    kind: JoinKind,
    left: Lane,
    more: Lane,
    right: Lane,
)
    requires
        !kind.right_kept(),
        x.len() + y.len() <= usize::MAX,
        rkeys.len() <= usize::MAX,
        left.cells.len() == x.len(),
        more.cells.len() == y.len(),
        left.dtype == more.dtype,
    ensures
        join_pairs(x + y, rkeys, kind) == join_pairs(x, rkeys, kind) + further(
            join_pairs(y, rkeys, kind),
            x.len() as int,
        ),
        gathered_side(
            Lane { dtype: left.dtype, cells: left.cells + more.cells },
            join_pairs(x + y, rkeys, kind),
            false,
        ).cells == gathered_side(left, join_pairs(x, rkeys, kind), false).cells + gathered_side(
            more,
            join_pairs(y, rkeys, kind),
            false,
        ).cells,
        gathered_side(right, join_pairs(x + y, rkeys, kind), true).cells == gathered_side(
            right,
            join_pairs(x, rkeys, kind),
            true,
        ).cells + gathered_side(right, join_pairs(y, rkeys, kind), true).cells,
{
    lemma_left_pairs_cut(x, y, rkeys, kind, x.len() + y.len());
    let a = join_pairs(x, rkeys, kind);
    let b = join_pairs(y, rkeys, kind);
    let all = join_pairs(x + y, rkeys, kind);
    assert(a =~= left_pairs(x, rkeys, kind, x.len()));
    assert(b =~= left_pairs(y, rkeys, kind, y.len()));
    assert(all =~= left_pairs(x + y, rkeys, kind, x.len() + y.len()));
    if y.len() == 0 {
        assert(b =~= Seq::empty());
    }
    assert(all =~= a + further(b, x.len() as int));
    lemma_pairs_fit(x, rkeys, kind);
    lemma_pairs_fit(y, rkeys, kind);
    let whole = Lane { dtype: left.dtype, cells: left.cells + more.cells };
    let l1 = gathered_side(left, a, false).cells;
    let l2 = gathered_side(more, b, false).cells;
    assert forall|i: int| 0 <= i < all.len() implies gathered_side(whole, all, false).cells[i]
        == #[trigger] (l1 + l2)[i] by {
        if i < a.len() {
            assert(all[i] == a[i]);
        } else {
            assert(all[i] == further(b, x.len() as int)[i - a.len()]);
            assert(b[i - a.len()].0 matches Some(l) ==> l < y.len());
        }
    }
    assert(gathered_side(whole, all, false).cells =~= l1 + l2);
    let r1 = gathered_side(right, a, true).cells;
    let r2 = gathered_side(right, b, true).cells;
    assert forall|i: int| 0 <= i < all.len() implies gathered_side(right, all, true).cells[i]
        == #[trigger] (r1 + r2)[i] by {
        if i < a.len() {
            assert(all[i] == a[i]);
        } else {
            assert(all[i] == further(b, x.len() as int)[i - a.len()]);
        }
    }
    assert(gathered_side(right, all, true).cells =~= r1 + r2);
}

} // verus!
