//! What rows have in common: when two keys are equal, which rows a join pairs and
//! what it puts out for them, which rows `distinct` keeps, and which rows share a
//! group.
use vstd::prelude::*;
use crate::cast::rendered;
use crate::chunk::{index_in, lemma_index_in, Batch, Lane};
use crate::division::lemma_head;
use crate::group::{grouped, has_key, row_in, rows_in, AggV, Groups, RowV};
use crate::host::{Log, Query};
use crate::join::{all_left, first_at, fitted_keys, gathered_side, join_pairs, joined_chunk, key_cells, key_lane, left_lane, left_pairs, left_part, lemma_first_at, lemma_join_pairs, lemma_left_pairs, lemma_pairs_fit, lemma_partners, lemma_right_pairs, pairs_of, partners, right_pairs, right_part, JoinKind, Pair};
use crate::lanes::{lemma_cells_from, text_cell};
use crate::rows::{emitted, joined, kept, key_parts, lemma_kept, lemma_keys_never_collide, plain_parts, row_key, within};
use crate::select::{first_rows, first_seen, row_keys};
use crate::value::{fits, DataType, Datum};

verus! {

// ---------------------------------------------------------------------- keys

/// The cells of two rows have the same texts, key column by key column.
pub open spec fn same_texts(a: Batch, at: Seq<usize>, i: int, b: Batch, bt: Seq<usize>, j: int, log: Log) -> bool {
    &&& at.len() == bt.len()
    &&& forall|k: int|
        0 <= k < at.len() ==> rendered(a.columns[(#[trigger] at[k]) as int].cells[i], log)
            == rendered(b.columns[bt[k] as int].cells[j], log)
}

/// The texts of a row's key cells hold no unit separator.
pub open spec fn plain_row(b: Batch, at: Seq<usize>, i: int, log: Log) -> bool {
    forall|k: int|
        0 <= k < at.len() ==> (rendered(b.columns[(#[trigger] at[k]) as int].cells[i], log)
            matches Ok(t) ==> !t.contains('\u{1f}'))
}

/// So it is for every row.
pub open spec fn plain_rows(b: Batch, at: Seq<usize>, log: Log) -> bool {
    forall|i: int| 0 <= i < b.len ==> #[trigger] plain_row(b, at, i, log)
}

/// The parts of a key are the texts of the row's cells.
pub proof fn lemma_parts_are(b: Batch, at: Seq<usize>, row: int, n: nat, log: Log)
    requires
        n <= at.len(),
    ensures
        key_parts(b, at, row, n, log) matches Ok(s) ==> s.len() == n && forall|k: int|
            0 <= k < n ==> rendered(b.columns[(#[trigger] at[k]) as int].cells[row], log) == Ok::<
                Seq<char>,
                Query,
            >(s[k]),
    decreases n,
{
    if n > 0 {
        lemma_parts_are(b, at, row, (n - 1) as nat, log);
    }
}

proof fn lemma_plain_parts(b: Batch, at: Seq<usize>, row: int, log: Log)
    requires
        plain_row(b, at, row, log),
        key_parts(b, at, row, at.len(), log) is Ok,
    ensures
        plain_parts(key_parts(b, at, row, at.len(), log)->Ok_0),
{
    lemma_parts_are(b, at, row, at.len(), log);
    let s = key_parts(b, at, row, at.len(), log)->Ok_0;
    assert forall|i: int, j: int| 0 <= i < s.len() && 0 <= j < s[i].len() implies (
    #[trigger] s[i][j]) != '\u{1f}' by {
        assert(rendered(b.columns[at[i] as int].cells[row], log) == Ok::<Seq<char>, Query>(s[i]));
        assert(s[i].contains(s[i][j]));
    }
}

/// The keys of two rows are equal exactly where the texts of all their key cells
/// are: no key column is left out, and none runs into the next.
pub proof fn lemma_keys_are_all_cells(
    a: Batch,
    at: Seq<usize>,
    i: int,
    b: Batch,
    bt: Seq<usize>,
    j: int,
    log: Log,
)
    requires
        at.len() == bt.len(),
        plain_row(a, at, i, log),
        plain_row(b, bt, j, log),
        row_key(a, at, i, log) is Ok,
        row_key(b, bt, j, log) is Ok,
    ensures
        row_key(a, at, i, log) == row_key(b, bt, j, log) <==> same_texts(a, at, i, b, bt, j, log),
{
    lemma_parts_are(a, at, i, at.len(), log);
    lemma_parts_are(b, bt, j, bt.len(), log);
    lemma_plain_parts(a, at, i, log);
    lemma_plain_parts(b, bt, j, log);
    let p = key_parts(a, at, i, at.len(), log)->Ok_0;
    let q = key_parts(b, bt, j, bt.len(), log)->Ok_0;
    if joined(p) == joined(q) {
        lemma_keys_never_collide(p, q);
        assert forall|k: int| 0 <= k < at.len() implies rendered(
            a.columns[(#[trigger] at[k]) as int].cells[i],
            log,
        ) == rendered(b.columns[bt[k] as int].cells[j], log) by {
            assert(rendered(b.columns[bt[k] as int].cells[j], log) == Ok::<Seq<char>, Query>(q[k]));
        }
    }
    if same_texts(a, at, i, b, bt, j, log) {
        assert forall|k: int| 0 <= k < p.len() implies p[k] == q[k] by {
            assert(rendered(a.columns[at[k] as int].cells[i], log) == Ok::<Seq<char>, Query>(p[k]));
            assert(rendered(b.columns[bt[k] as int].cells[j], log) == Ok::<Seq<char>, Query>(q[k]));
        }
        assert(p =~= q);
    }
}

proof fn lemma_row_keys_are(b: Batch, at: Seq<usize>, n: nat, log: Log)
    ensures
        row_keys(b, at, n, log) matches Ok(s) ==> s.len() == n && forall|i: int|
            0 <= i < n ==> row_key(b, at, i, log) == Ok::<Seq<char>, Query>(#[trigger] s[i]),
    decreases n,
{
    if n > 0 {
        lemma_row_keys_are(b, at, (n - 1) as nat, log);
    }
}

// -------------------------------------------------------------------- the join

/// The rows of a join stand in the order of the left rows, the partners of one left
/// row in the order of the right rows, and right rows without a partner behind them
/// in their order. No row stands twice.
pub open spec fn pair_before(p: Pair, q: Pair) -> bool {
    match (p, q) {
        ((Some(a), x), (Some(b), y)) => a < b || (a == b && (x matches Some(c) && y matches Some(d)
            && c < d)),
        ((Some(_), _), (None, _)) => true,
        ((None, Some(a)), (None, Some(b))) => a < b,
        _ => false,
    }
}

/// What the rows of a join are, by the texts of the key cells: every pair of rows
/// whose texts agree in all key columns; every left row without such a partner where
/// the join is left or full; every right row without one where it is right or full;
/// and nothing else.
pub open spec fn pairs_by_text(
    l: Batch,
    lk: Seq<usize>,
    r: Batch,
    rk: Seq<usize>,
    kind: JoinKind,
    pairs: Seq<Pair>,
    log: Log,
) -> bool {
    &&& forall|x: usize, y: usize|
        #![trigger pairs.contains((Some(x), Some(y)))]
        x < l.len && y < r.len ==> (pairs.contains((Some(x), Some(y))) <==> same_texts(
            l,
            lk,
            x as int,
            r,
            rk,
            y as int,
            log,
        ))
    &&& forall|x: usize|
        #![trigger pairs.contains((Some(x), None))]
        x < l.len ==> (pairs.contains((Some(x), None)) <==> (kind == JoinKind::Left || kind
            == JoinKind::Full) && forall|y: int|
            0 <= y < r.len ==> !#[trigger] same_texts(l, lk, x as int, r, rk, y, log))
    &&& forall|y: usize|
        #![trigger pairs.contains((None, Some(y)))]
        y < r.len ==> (pairs.contains((None, Some(y))) <==> (kind == JoinKind::Right || kind
            == JoinKind::Full) && forall|x: int|
            0 <= x < l.len ==> !#[trigger] same_texts(l, lk, x, r, rk, y as int, log))
    &&& forall|i: int|
        0 <= i < pairs.len() ==> ((#[trigger] pairs[i]).0 matches Some(x) ==> x < l.len) && (
        pairs[i].1 matches Some(y) ==> y < r.len) && (pairs[i].0 is Some || pairs[i].1 is Some)
    &&& forall|i: int, j: int|
        0 <= i < j < pairs.len() ==> pair_before(#[trigger] pairs[i], #[trigger] pairs[j])
}

proof fn lemma_partners_ascend(rkeys: Seq<Seq<char>>, key: Seq<char>)
    requires
        rkeys.len() <= usize::MAX,
    ensures
        forall|i: int, j: int|
            0 <= i < j < partners(rkeys, key).len() ==> (#[trigger] partners(rkeys, key)[i])
                < (#[trigger] partners(rkeys, key)[j]),
    decreases rkeys.len(),
{
    if rkeys.len() > 0 {
        lemma_partners_ascend(rkeys.drop_last(), key);
        lemma_partners(rkeys.drop_last(), key);
    }
}

proof fn lemma_left_ordered(lkeys: Seq<Seq<char>>, rkeys: Seq<Seq<char>>, kind: JoinKind, n: nat)
    requires
        n <= lkeys.len() <= usize::MAX,
        rkeys.len() <= usize::MAX,
    ensures
        forall|i: int, j: int|
            0 <= i < j < left_pairs(lkeys, rkeys, kind, n).len() ==> pair_before(
                #[trigger] left_pairs(lkeys, rkeys, kind, n)[i],
                #[trigger] left_pairs(lkeys, rkeys, kind, n)[j],
            ),
    decreases n,
{
    if n > 0 {
        let m = (n - 1) as nat;
        lemma_left_ordered(lkeys, rkeys, kind, m);
        lemma_left_pairs(lkeys, rkeys, kind, m);
        let up = left_pairs(lkeys, rkeys, kind, m);
        let rows = partners(rkeys, lkeys[n - 1]);
        let more = pairs_of((n - 1) as usize, rows, kind);
        let all = left_pairs(lkeys, rkeys, kind, n);
        lemma_partners_ascend(rkeys, lkeys[n - 1]);
        assert forall|i: int, j: int| 0 <= i < j < all.len() implies pair_before(
            #[trigger] all[i],
            #[trigger] all[j],
        ) by {
            if j < up.len() {
                assert(pair_before(up[i], up[j]));
            } else if i < up.len() {
                assert(all[i] == up[i]);
                assert(all[j] == more[j - up.len()]);
            } else {
                assert(all[i] == more[i - up.len()]);
                assert(all[j] == more[j - up.len()]);
                assert(rows[i - up.len()] < rows[j - up.len()]);
            }
        }
    }
}

proof fn lemma_right_ordered(lkeys: Seq<Seq<char>>, rkeys: Seq<Seq<char>>, n: nat)
    requires
        n <= rkeys.len() <= usize::MAX,
    ensures
        forall|i: int, j: int|
            0 <= i < j < right_pairs(lkeys, rkeys, n).len() ==> pair_before(
                #[trigger] right_pairs(lkeys, rkeys, n)[i],
                #[trigger] right_pairs(lkeys, rkeys, n)[j],
            ),
    decreases n,
{
    if n > 0 {
        lemma_right_ordered(lkeys, rkeys, (n - 1) as nat);
        lemma_right_pairs(lkeys, rkeys, (n - 1) as nat);
    }
}

proof fn lemma_pairs_ordered(lkeys: Seq<Seq<char>>, rkeys: Seq<Seq<char>>, kind: JoinKind)
    requires
        lkeys.len() <= usize::MAX,
        rkeys.len() <= usize::MAX,
    ensures
        forall|i: int, j: int|
            0 <= i < j < join_pairs(lkeys, rkeys, kind).len() ==> pair_before(
                #[trigger] join_pairs(lkeys, rkeys, kind)[i],
                #[trigger] join_pairs(lkeys, rkeys, kind)[j],
            ),
        forall|i: int|
            0 <= i < join_pairs(lkeys, rkeys, kind).len() ==> (#[trigger] join_pairs(
                lkeys,
                rkeys,
                kind,
            )[i]).0 is Some || join_pairs(lkeys, rkeys, kind)[i].1 is Some,
{
    lemma_left_ordered(lkeys, rkeys, kind, lkeys.len());
    lemma_left_pairs(lkeys, rkeys, kind, lkeys.len());
    lemma_right_ordered(lkeys, rkeys, rkeys.len());
    lemma_right_pairs(lkeys, rkeys, rkeys.len());
    let a = left_pairs(lkeys, rkeys, kind, lkeys.len());
    let b = right_pairs(lkeys, rkeys, rkeys.len());
    let all = join_pairs(lkeys, rkeys, kind);
    assert forall|i: int| 0 <= i < all.len() implies all[i] == if i < a.len() {
        a[i]
    } else {
        b[i - a.len()]
    } by {}
    assert forall|i: int, j: int| 0 <= i < j < all.len() implies pair_before(
        #[trigger] all[i],
        #[trigger] all[j],
    ) by {
        if j < a.len() {
            assert(pair_before(a[i], a[j]));
        } else if i < a.len() {
            assert(a[i].0 is Some);
            assert(b[j - a.len()].0 is None);
        } else {
            assert(pair_before(b[i - a.len()], b[j - a.len()]));
        }
    }
    assert forall|i: int| 0 <= i < all.len() implies (#[trigger] all[i]).0 is Some
        || all[i].1 is Some by {
        if i < a.len() {
            assert(a[i].0 is Some);
        } else {
            assert(b[i - a.len()].1 is Some);
        }
    }
}

proof fn lemma_pairs_mean(
    l: Batch,
    lk: Seq<usize>,
    r: Batch,
    rk: Seq<usize>,
    kind: JoinKind,
    lkeys: Seq<Seq<char>>,
    rkeys: Seq<Seq<char>>,
    log: Log,
)
    requires
        l.len <= usize::MAX,
        r.len <= usize::MAX,
        lk.len() == rk.len(),
        plain_rows(l, lk, log),
        plain_rows(r, rk, log),
        row_keys(l, lk, l.len, log) == Ok::<Seq<Seq<char>>, Query>(lkeys),
        row_keys(r, rk, r.len, log) == Ok::<Seq<Seq<char>>, Query>(rkeys),
    ensures
        pairs_by_text(l, lk, r, rk, kind, join_pairs(lkeys, rkeys, kind), log),
{
    lemma_row_keys_are(l, lk, l.len, log);
    lemma_row_keys_are(r, rk, r.len, log);
    let pairs = join_pairs(lkeys, rkeys, kind);
    assert forall|x: int, y: int| 0 <= x < l.len && 0 <= y < r.len implies (lkeys[x] == rkeys[y])
        == #[trigger] same_texts(l, lk, x, r, rk, y, log) by {
        assert(row_key(l, lk, x, log) == Ok::<Seq<char>, Query>(lkeys[x]));
        assert(row_key(r, rk, y, log) == Ok::<Seq<char>, Query>(rkeys[y]));
        assert(plain_row(l, lk, x, log) && plain_row(r, rk, y, log));
        lemma_keys_are_all_cells(l, lk, x, r, rk, y, log);
    }
    assert forall|x: usize, y: usize|
        #![trigger pairs.contains((Some(x), Some(y)))]
        x < l.len && y < r.len implies (pairs.contains((Some(x), Some(y))) <==> same_texts(
        l,
        lk,
        x as int,
        r,
        rk,
        y as int,
        log,
    )) by {
        lemma_join_pairs(lkeys, rkeys, kind, x, y);
    }
    lemma_left_pairs(lkeys, rkeys, kind, lkeys.len());
    lemma_right_pairs(lkeys, rkeys, rkeys.len());
    let a = left_pairs(lkeys, rkeys, kind, lkeys.len());
    let b = right_pairs(lkeys, rkeys, rkeys.len());
    assert forall|x: usize|
        #![trigger pairs.contains((Some(x), None))]
        x < l.len implies (pairs.contains((Some(x), None)) <==> (kind == JoinKind::Left || kind
        == JoinKind::Full) && forall|y: int|
        0 <= y < r.len ==> !#[trigger] same_texts(l, lk, x as int, r, rk, y, log)) by {
        let p: Pair = (Some(x), None);
        if pairs.contains(p) {
            let k = choose|k: int| 0 <= k < pairs.len() && pairs[k] == p;
            if k < a.len() {
                assert(a[k] == p);
            } else {
                assert(b[k - a.len()] == p);
            }
            assert forall|y: int| 0 <= y < r.len implies !#[trigger] same_texts(
                l,
                lk,
                x as int,
                r,
                rk,
                y,
                log,
            ) by {
                assert(rkeys.contains(rkeys[y]));
            }
        }
        if (kind == JoinKind::Left || kind == JoinKind::Full) && (forall|y: int|
            0 <= y < r.len ==> !#[trigger] same_texts(l, lk, x as int, r, rk, y, log)) {
            if rkeys.contains(lkeys[x as int]) {
                let y = choose|y: int| 0 <= y < rkeys.len() && rkeys[y] == lkeys[x as int];
                assert(same_texts(l, lk, x as int, r, rk, y, log));
            }
            assert(a.contains(p));
            let k = choose|k: int| 0 <= k < a.len() && a[k] == p;
            assert(pairs[k] == p);
        }
    }
    assert forall|y: usize|
        #![trigger pairs.contains((None, Some(y)))]
        y < r.len implies (pairs.contains((None, Some(y))) <==> (kind == JoinKind::Right || kind
        == JoinKind::Full) && forall|x: int|
        0 <= x < l.len ==> !#[trigger] same_texts(l, lk, x, r, rk, y as int, log)) by {
        let p: Pair = (None, Some(y));
        if pairs.contains(p) {
            let k = choose|k: int| 0 <= k < pairs.len() && pairs[k] == p;
            if k < a.len() {
                assert(a[k] == p);
            } else {
                assert(b[k - a.len()] == p);
            }
            assert forall|x: int| 0 <= x < l.len implies !#[trigger] same_texts(
                l,
                lk,
                x,
                r,
                rk,
                y as int,
                log,
            ) by {
                assert(lkeys.contains(lkeys[x]));
            }
        }
        if (kind == JoinKind::Right || kind == JoinKind::Full) && (forall|x: int|
            0 <= x < l.len ==> !#[trigger] same_texts(l, lk, x, r, rk, y as int, log)) {
            if lkeys.contains(rkeys[y as int]) {
                let x = choose|x: int| 0 <= x < lkeys.len() && lkeys[x] == rkeys[y as int];
                assert(same_texts(l, lk, x, r, rk, y as int, log));
            }
            assert(b.contains(p));
            let k = choose|k: int| 0 <= k < b.len() && b[k] == p;
            assert(pairs[a.len() + k] == p);
        }
    }
    lemma_pairs_fit(lkeys, rkeys, kind);
    lemma_pairs_ordered(lkeys, rkeys, kind);
    assert forall|i: int| 0 <= i < pairs.len() implies ((#[trigger] pairs[i]).0 matches Some(x)
        ==> x < l.len) && (pairs[i].1 matches Some(y) ==> y < r.len) by {
        assert(crate::join::side(pairs[i], false) == pairs[i].0);
        assert(crate::join::side(pairs[i], true) == pairs[i].1);
    }
}

/// The value that stands for an absent row: the zero of a number, an instant or a
/// span, the empty text, `false`; missing where the type has none of these.
pub open spec fn empty_value(d: Datum, ty: DataType) -> bool {
    &&& fits(d, ty)
    &&& match d {
        Datum::Bool(b) => !b,
        Datum::I64(n) => n == 0,
        Datum::F64(x) => x.bits == 0,
        Datum::Dec(x) => x.unscaled == 0,
        Datum::DateTime(t) => t.ticks == 0,
        Datum::Duration(t) => t.ticks == 0,
        Datum::Date(t) => t.epoch_day == 0,
        Datum::Str(t) => t.len() == 0,
        _ => d is Null,
    }
    &&& d is Null ==> !(ty is Bool || ty is I64 || ty is F64 || ty is Decimal || ty is DateTime
        || ty is Duration || ty is Date || ty is Str)
}

/// How many of the first `n` columns are no key.
pub open spec fn others(at: Seq<usize>, n: nat) -> nat
    decreases n,
{
    if n == 0 {
        0
    } else if at.contains((n - 1) as usize) {
        others(at, (n - 1) as nat)
    } else {
        others(at, (n - 1) as nat) + 1
    }
}

/// A column shows one side of the pairs: the cell of the row, or an empty value.
pub open spec fn shows(c: Lane, of: Lane, pairs: Seq<Pair>, right: bool) -> bool {
    &&& c.dtype == of.dtype
    &&& c.cells.len() == pairs.len()
    &&& forall|i: int|
        0 <= i < pairs.len() ==> match if right {
            (#[trigger] pairs[i]).1
        } else {
            pairs[i].0
        } {
            Some(x) => c.cells[i] == of.cells[x as int],
            None => empty_value(c.cells[i], of.dtype),
        }
}

/// A key column shows the text of the left key, and of the right key where there is
/// no left row.
pub open spec fn shows_key(c: Lane, left: Lane, right: Lane, pairs: Seq<Pair>, log: Log) -> bool {
    &&& c.cells.len() == pairs.len()
    &&& forall|i: int|
        0 <= i < pairs.len() ==> match #[trigger] pairs[i] {
            (Some(x), _) => rendered(c.cells[i], log) == rendered(left.cells[x as int], log),
            (None, Some(y)) => rendered(c.cells[i], log) == rendered(right.cells[y as int], log),
            _ => true,
        }
}

/// The chunk of a join: the left columns under their names, then the right columns
/// that are no keys, with `_r` behind a name that the left has too.
pub open spec fn shows_join(
    l: Batch,
    lk: Seq<usize>,
    r: Batch,
    rk: Seq<usize>,
    pairs: Seq<Pair>,
    out: Batch,
    log: Log,
) -> bool {
    &&& out.fields.len() == l.fields.len() + others(rk, r.fields.len())
    &&& out.columns.len() == out.fields.len()
    &&& out.columns.len() > 0 ==> out.len == pairs.len()
    &&& forall|c: int|
        0 <= c < l.fields.len() ==> (#[trigger] out.fields[c]).name == l.fields[c].name
    &&& forall|c: int|
        #![trigger out.columns[c]]
        0 <= c < l.fields.len() && !lk.contains(c as usize) ==> shows(
            out.columns[c],
            l.columns[c],
            pairs,
            false,
        )
    &&& forall|c: int|
        #![trigger out.columns[c]]
        0 <= c < l.fields.len() && lk.contains(c as usize) ==> exists|k: int|
            0 <= k < lk.len() && #[trigger] lk[k] == c && shows_key(
                out.columns[c],
                l.columns[c],
                r.columns[rk[k] as int],
                pairs,
                log,
            )
    &&& forall|c: int|
        0 <= c < r.fields.len() && !rk.contains(c as usize) ==> #[trigger] shows_right(
            l,
            r,
            rk,
            pairs,
            out,
            c,
        )
}

/// A right column that is no key stands behind the left ones and shows its rows.
pub open spec fn shows_right(l: Batch, r: Batch, rk: Seq<usize>, pairs: Seq<Pair>, out: Batch, c: int) -> bool {
    let p = (l.fields.len() + others(rk, c as nat)) as int;
    &&& p < out.columns.len()
    &&& shows(out.columns[p], r.columns[c], pairs, true)
    &&& out.fields[p].name == if exists|f: int|
        0 <= f < l.fields.len() && (#[trigger] l.fields[f]).name == r.fields[c].name {
        r.fields[c].name + seq!['_', 'r']
    } else {
        r.fields[c].name
    }
}

proof fn lemma_side_shows(c: Lane, pairs: Seq<Pair>, right: bool)
    ensures
        shows(gathered_side(c, pairs, right), c, pairs, right),
{
}

proof fn lemma_fitted_keys(left: Lane, right: Lane, pairs: Seq<Pair>, n: nat, log: Log)
    requires
        n <= pairs.len(),
    ensures
        fitted_keys(left, right, pairs, n, log) matches Ok(Some(s)) ==> s.len() == n && forall|i: int|
            0 <= i < n ==> rendered(#[trigger] s[i], log) == rendered(
                key_cells(left, right, pairs)[i],
                log,
            ),
    decreases n,
{
    if n > 0 {
        lemma_fitted_keys(left, right, pairs, (n - 1) as nat, log);
    }
}

proof fn lemma_key_shows(left: Lane, right: Lane, pairs: Seq<Pair>, log: Log)
    ensures
        key_lane(left, right, pairs, log) matches Ok(c) ==> shows_key(c, left, right, pairs, log),
{
    if let Ok(c) = key_lane(left, right, pairs, log) {
        let cells = key_cells(left, right, pairs);
        if all_left(pairs) {
        } else {
            lemma_fitted_keys(left, right, pairs, pairs.len(), log);
            match fitted_keys(left, right, pairs, pairs.len(), log) {
                Ok(None) => {
                    let f = |i: int| text_cell(cells[i], log);
                    lemma_cells_from(f, cells.len());
                    assert forall|i: int| 0 <= i < pairs.len() implies rendered(
                        #[trigger] c.cells[i],
                        log,
                    ) == rendered(cells[i], log) by {
                        assert(f(i) matches Ok((d, _)) && d == c.cells[i]);
                    }
                },
                _ => {},
            }
        }
        assert forall|i: int| 0 <= i < pairs.len() implies match #[trigger] pairs[i] {
            (Some(x), _) => rendered(c.cells[i], log) == rendered(left.cells[x as int], log),
            (None, Some(y)) => rendered(c.cells[i], log) == rendered(right.cells[y as int], log),
            _ => true,
        } by {
            assert(rendered(c.cells[i], log) == rendered(cells[i], log));
        }
    }
}

proof fn lemma_first_known(v: Seq<usize>, x: int)
    requires
        0 <= x <= usize::MAX,
    ensures
        first_at(v, x) is Some <==> v.contains(x as usize),
    decreases v.len(),
{
    if v.len() > 0 {
        lemma_first_known(v.drop_last(), x);
        if v.drop_last().contains(x as usize) {
            let k = choose|k: int| 0 <= k < v.len() - 1 && v.drop_last()[k] == x as usize;
            assert(v[k] == x as usize);
        }
        if v.contains(x as usize) && v.last() != x {
            let k = choose|k: int| 0 <= k < v.len() && v[k] == x as usize;
            assert(v.drop_last()[k] == x as usize);
        }
        if v.last() == x {
            assert(v[v.len() - 1] == x as usize);
        }
    }
}

proof fn lemma_left_shown(l: Batch, r: Batch, lk: Seq<usize>, rk: Seq<usize>, pairs: Seq<Pair>, n: nat, log: Log)
    requires
        n <= l.fields.len(),
    ensures
        left_part(l, r, lk, rk, pairs, n, log) matches Ok((fields, columns)) ==> fields.len() == n
            && columns.len() == n && forall|c: int|
            0 <= c < n ==> (#[trigger] fields[c]).name == l.fields[c].name && left_lane(
                l,
                r,
                lk,
                rk,
                pairs,
                c,
                log,
            ) == Ok::<Lane, Query>(columns[c]),
    decreases n,
{
    if n > 0 {
        lemma_left_shown(l, r, lk, rk, pairs, (n - 1) as nat, log);
    }
}

proof fn lemma_others_grow(at: Seq<usize>, m: nat, n: nat)
    requires
        m < n,
        !at.contains(m as usize),
        n <= usize::MAX,
    ensures
        others(at, m) < others(at, n),
    decreases n,
{
    if m + 1 < n {
        lemma_others_grow(at, m, (n - 1) as nat);
    }
}

proof fn lemma_right_shown(l: Batch, r: Batch, rk: Seq<usize>, pairs: Seq<Pair>, n: nat)
    requires
        n <= r.fields.len() <= usize::MAX,
    ensures
        ({
            let (fields, columns) = right_part(l, r, rk, pairs, n);
            &&& fields.len() == others(rk, n)
            &&& columns.len() == others(rk, n)
            &&& forall|c: int|
                #![trigger r.columns[c]]
                0 <= c < n && !rk.contains(c as usize) ==> {
                    let p = others(rk, c as nat) as int;
                    &&& p < columns.len()
                    &&& columns[p] == gathered_side(r.columns[c], pairs, true)
                    &&& fields[p].name == if index_in(l.fields, r.fields[c].name) is Some {
                        r.fields[c].name + seq!['_', 'r']
                    } else {
                        r.fields[c].name
                    }
                }
        }),
    decreases n,
{
    if n > 0 {
        let m = (n - 1) as nat;
        lemma_right_shown(l, r, rk, pairs, m);
        lemma_first_known(rk, n - 1);
        let (fields, columns) = right_part(l, r, rk, pairs, n);
        assert forall|c: int|
            #![trigger r.columns[c]]
            0 <= c < n && !rk.contains(c as usize) implies {
            let p = others(rk, c as nat) as int;
            &&& p < columns.len()
            &&& columns[p] == gathered_side(r.columns[c], pairs, true)
            &&& fields[p].name == if index_in(l.fields, r.fields[c].name) is Some {
                r.fields[c].name + seq!['_', 'r']
            } else {
                r.fields[c].name
            }
        } by {
            if c < m {
                lemma_others_grow(rk, c as nat, m);
            }
        }
    }
}

/// What a join puts out, row by row and cell by cell: the rows are the pairs whose
/// key cells have equal texts in every key column, with the rows without a partner
/// that the kind of the join keeps; each left column and each right column that is no
/// key shows the cells of its row, an empty value where that side is absent; the key
/// columns show the key's text.
pub proof fn lemma_join_rows(
    l: Batch,
    lk: Seq<usize>,
    r: Batch,
    rk: Seq<usize>,
    kind: JoinKind,
    id: u64,
    out: Batch,
    log: Log,
)
    requires
        l.wf(),
        r.wf(),
        l.len <= usize::MAX,
        r.len <= usize::MAX,
        l.fields.len() <= usize::MAX,
        r.fields.len() <= usize::MAX,
        lk.len() == rk.len(),
        within(l.fields, lk),
        within(r.fields, rk),
        plain_rows(l, lk, log),
        plain_rows(r, rk, log),
        joined_chunk(l, r, lk, rk, kind, id, log) == Ok::<Batch, Query>(out),
    ensures
        exists|pairs: Seq<Pair>|
            #[trigger] pairs_by_text(l, lk, r, rk, kind, pairs, log) && shows_join(
                l,
                lk,
                r,
                rk,
                pairs,
                out,
                log,
            ),
        out.id == id,
{
    let lkeys = row_keys(l, lk, l.len, log)->Ok_0;
    let rkeys = row_keys(r, rk, r.len, log)->Ok_0;
    let pairs = join_pairs(lkeys, rkeys, kind);
    lemma_pairs_mean(l, lk, r, rk, kind, lkeys, rkeys, log);
    let n = l.fields.len();
    let (lf, lc) = left_part(l, r, lk, rk, pairs, n, log)->Ok_0;
    let (rf, rc) = right_part(l, r, rk, pairs, r.fields.len());
    lemma_left_shown(l, r, lk, rk, pairs, n, log);
    lemma_right_shown(l, r, rk, pairs, r.fields.len());
    assert forall|c: int| 0 <= c < n implies (#[trigger] out.fields[c]).name == l.fields[c].name by {
        assert(out.fields[c] == lf[c]);
    }
    assert forall|c: int|
        #![trigger out.columns[c]]
        0 <= c < n && !lk.contains(c as usize) implies shows(
        out.columns[c],
        l.columns[c],
        pairs,
        false,
    ) by {
        lemma_first_known(lk, c);
        assert(lf[c].name == l.fields[c].name);
        assert(out.columns[c] == lc[c]);
        lemma_side_shows(l.columns[c], pairs, false);
    }
    assert forall|c: int|
        #![trigger out.columns[c]]
        0 <= c < n && lk.contains(c as usize) implies exists|k: int|
        0 <= k < lk.len() && #[trigger] lk[k] == c && shows_key(
            out.columns[c],
            l.columns[c],
            r.columns[rk[k] as int],
            pairs,
            log,
        ) by {
        lemma_first_known(lk, c);
        lemma_first_at(lk, c);
        let k = first_at(lk, c)->0;
        assert(lf[c].name == l.fields[c].name);
        assert(out.columns[c] == lc[c]);
        lemma_key_shows(l.columns[c], r.columns[rk[k] as int], pairs, log);
        assert(lk[k] == c);
    }
    assert forall|c: int| 0 <= c < r.fields.len() && !rk.contains(c as usize) implies #[trigger] shows_right(
        l,
        r,
        rk,
        pairs,
        out,
        c,
    ) by {
        let p = (l.fields.len() + others(rk, c as nat)) as int;
        let q = others(rk, c as nat) as int;
        let cell = r.columns[c];
        assert(q < rc.len() && rc[q] == gathered_side(cell, pairs, true));
        assert(out.columns[p] == rc[q]);
        assert(out.fields[p] == rf[q]);
        lemma_side_shows(cell, pairs, true);
        lemma_index_in(l.fields, r.fields[c].name);
    }
    if out.columns.len() > 0 {
        if n > 0 {
            assert(out.columns[0] == lc[0]);
            if lk.contains(0usize) {
                let k = choose|k: int|
                    0 <= k < lk.len() && #[trigger] lk[k] == 0 && shows_key(
                        out.columns[0],
                        l.columns[0],
                        r.columns[rk[k] as int],
                        pairs,
                        log,
                    );
            } else {
                assert(shows(out.columns[0], l.columns[0], pairs, false));
            }
        } else {
            lemma_first_other(rk, r.fields.len());
            let c = choose|c: int|
                0 <= c < r.fields.len() && !rk.contains(c as usize) && #[trigger] others(rk, c as nat) == 0;
            assert(shows_right(l, r, rk, pairs, out, c));
        }
    }
    assert(out.fields.len() == l.fields.len() + others(rk, r.fields.len()));
    assert(out.columns.len() == out.fields.len());
    assert(out.columns.len() > 0 ==> out.len == pairs.len());
    assert(shows_join(l, lk, r, rk, pairs, out, log));
}

proof fn lemma_first_other(at: Seq<usize>, n: nat)
    requires
        others(at, n) > 0,
    ensures
        exists|c: int|
            0 <= c < n && !at.contains(c as usize) && #[trigger] others(at, c as nat) == 0,
    decreases n,
{
    let m = (n - 1) as nat;
    if others(at, m) > 0 {
        lemma_first_other(at, m);
        let c = choose|c: int|
            0 <= c < m && !at.contains(c as usize) && #[trigger] others(at, c as nat) == 0;
        assert(others(at, c as nat) == 0);
    } else {
        assert(others(at, (n - 1) as nat) == 0);
    }
}

// ----------------------------------------------------------------- distinct

/// What `distinct` keeps of the rows of a chunk, where nothing was seen before: a row
/// is kept exactly where no earlier row has the same texts in all the columns looked
/// at; the kept rows stand in their order and are put out unchanged.
pub proof fn lemma_distinct_rows(b: Batch, at: Seq<usize>, log: Log)
    requires
        b.len <= usize::MAX,
        plain_rows(b, at, log),
        row_keys(b, at, b.len, log) is Ok,
    ensures
        first_rows(row_keys(b, at, b.len, log)->Ok_0, Set::empty()) matches Ok(keep) && {
            &&& forall|i: int, j: int|
                0 <= i < j < keep.len() ==> (#[trigger] keep[i]) < (#[trigger] keep[j])
            &&& forall|i: int| 0 <= i < keep.len() ==> (#[trigger] keep[i]) < b.len
            &&& forall|x: usize|
                #![trigger keep.contains(x)]
                x < b.len ==> (keep.contains(x) <==> forall|y: int|
                    0 <= y < x ==> !#[trigger] same_texts(b, at, y, b, at, x as int, log))
            &&& keep.len() > 0 ==> emitted(b, keep).len() == 1 && emitted(b, keep)[0].len
                == keep.len() && forall|c: int, i: int|
                0 <= c < b.columns.len() && 0 <= i < keep.len() ==> #[trigger] emitted(b, keep)[0].columns[c].cells[i]
                    == b.columns[c].cells[keep[i] as int]
        },
{
    let keys = row_keys(b, at, b.len, log)->Ok_0;
    lemma_row_keys_are(b, at, b.len, log);
    let f = |row: int| Ok::<bool, Query>(first_seen(keys, Set::empty(), row));
    lemma_all_ok(f, keys.len());
    lemma_kept(f, keys.len());
    let keep = kept(f, keys.len())->Ok_0;
    assert(first_rows(keys, Set::empty()) == kept(f, keys.len()));
    assert forall|x: usize|
        #![trigger keep.contains(x)]
        x < b.len implies (keep.contains(x) <==> forall|y: int|
        0 <= y < x ==> !#[trigger] same_texts(b, at, y, b, at, x as int, log)) by {
        assert forall|y: int| 0 <= y < x implies (keys[y] == keys[x as int]) == #[trigger] same_texts(
            b,
            at,
            y,
            b,
            at,
            x as int,
            log,
        ) by {
            assert(plain_row(b, at, y, log) && plain_row(b, at, x as int, log));
            assert(row_key(b, at, y, log) == Ok::<Seq<char>, Query>(keys[y]));
            assert(row_key(b, at, x as int, log) == Ok::<Seq<char>, Query>(keys[x as int]));
            lemma_keys_are_all_cells(b, at, y, b, at, x as int, log);
        }
        assert(f(x as int) == Ok::<bool, Query>(first_seen(keys, Set::empty(), x as int)));
        if keep.contains(x) {
            let k = choose|k: int| 0 <= k < keep.len() && keep[k] == x;
            assert(f(keep[k] as int) == Ok::<bool, Query>(true));
            assert forall|y: int| 0 <= y < x implies !#[trigger] same_texts(
                b,
                at,
                y,
                b,
                at,
                x as int,
                log,
            ) by {
                assert(keys[y] != keys[x as int]);
            }
        }
        if forall|y: int| 0 <= y < x ==> !#[trigger] same_texts(b, at, y, b, at, x as int, log) {
            assert forall|y: int| 0 <= y < x implies #[trigger] keys[y] != keys[x as int] by {
                assert(!same_texts(b, at, y, b, at, x as int, log));
            }
            assert(first_seen(keys, Set::empty(), x as int));
        }
    }
}

proof fn lemma_all_ok(f: spec_fn(int) -> Result<bool, Query>, n: nat)
    requires
        forall|i: int| 0 <= i < n ==> (#[trigger] f(i)) is Ok,
    ensures
        kept(f, n) is Ok,
    decreases n,
{
    if n > 0 {
        lemma_all_ok(f, (n - 1) as nat);
        assert(f(n - 1) is Ok);
    }
}

// ------------------------------------------------------------------- groups

proof fn lemma_rows_are(b: Batch, at: Seq<usize>, aggs: Seq<AggV>, n: nat, log: Log)
    ensures
        rows_in(b, at, aggs, n, log) matches Ok(rows) ==> rows.len() == n && forall|i: int|
            0 <= i < n ==> row_in(b, at, aggs, i, log) == Ok::<RowV, Query>(#[trigger] rows[i]),
    decreases n,
{
    if n > 0 {
        lemma_rows_are(b, at, aggs, (n - 1) as nat, log);
    }
}

/// Two rows share a group exactly where the texts of all their key cells are equal,
/// and every row is in a group.
pub proof fn lemma_rows_share_groups(b: Batch, at: Seq<usize>, aggs: Seq<AggV>, i: int, j: int, log: Log)
    requires
        plain_rows(b, at, log),
        0 <= i < b.len,
        0 <= j < b.len,
        rows_in(b, at, aggs, b.len, log) is Ok,
    ensures
        ({
            let rows = rows_in(b, at, aggs, b.len, log)->Ok_0;
            let g = grouped(Groups::empty(), rows, aggs);
            &&& rows[i].key() == rows[j].key() <==> same_texts(b, at, i, b, at, j, log)
            &&& g.dom().contains(rows[i].key())
            &&& forall|k: int|
                0 <= k < at.len() ==> rendered(b.columns[(#[trigger] at[k]) as int].cells[i], log)
                    == Ok::<Seq<char>, Query>(rows[i].parts[k])
        }),
{
    let rows = rows_in(b, at, aggs, b.len, log)->Ok_0;
    lemma_rows_are(b, at, aggs, b.len, log);
    assert(row_in(b, at, aggs, i, log) == Ok::<RowV, Query>(rows[i]));
    assert(row_in(b, at, aggs, j, log) == Ok::<RowV, Query>(rows[j]));
    assert(plain_row(b, at, i, log) && plain_row(b, at, j, log));
    assert(row_key(b, at, i, log) == Ok::<Seq<char>, Query>(rows[i].key()));
    assert(row_key(b, at, j, log) == Ok::<Seq<char>, Query>(rows[j].key()));
    lemma_keys_are_all_cells(b, at, i, b, at, j, log);
    lemma_parts_are(b, at, i, at.len(), log);
    lemma_head(rows, aggs, rows[i].key());
    assert(has_key(rows, rows[i].key()));
}

} // verus!
