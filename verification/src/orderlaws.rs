//! What the orders are: of texts by their characters, of doubles by their bits, of
//! integers as doubles, of cells and of sorted rows.
use vstd::prelude::*;
use vstd::arithmetic::power2::{lemma_pow2_adds, lemma_pow2_pos, lemma_pow2_strictly_increases, pow2};
use vstd::seq_lib::*;
use crate::chunk::{batches, gathered, index_in, lemma_index_in, Batch, FieldV, Lane};
use crate::compare::{lemma_text_order_equal, lemma_text_order_reversed, text_order};
use crate::concat::stacked;
use crate::event::CtxV;
use crate::float::{float_of, ilog2, lemma_ilog2, lemma_significand, magnitude_bits, small_integer, truncated, whole_part, Rank, F64};
use crate::sort::{cell_rank, key_views, orderable, row_rank, sort_ends, sort_keys, sort_warned, sorted_rows, span, Key, Sort};
use crate::value::Datum;

verus! {

// --------------------------------------------------------------------- texts

/// One text stands before another in the dictionary: they agree up to a place where
/// the first ends, or has the lesser character.
pub open spec fn alphabetical(a: Seq<char>, b: Seq<char>) -> bool {
    exists|k: int| #[trigger] parts_at(a, b, k)
}

/// The texts agree up to a place where the first ends, or has the lesser character.
pub open spec fn parts_at(a: Seq<char>, b: Seq<char>, k: int) -> bool {
    &&& 0 <= k <= a.len()
    &&& k < b.len()
    &&& forall|i: int| 0 <= i < k ==> a[i] == b[i]
    &&& k == a.len() || (a[k] as int) < (b[k] as int)
}

/// The order of texts is that of the dictionary, by character.
pub proof fn lemma_texts_alphabetical(a: Seq<char>, b: Seq<char>)
    ensures
        text_order(a, b) == Rank::Less <==> alphabetical(a, b),
        text_order(a, b) == Rank::Equal <==> a == b,
        text_order(a, b) == Rank::Greater <==> alphabetical(b, a),
{
    lemma_text_order_equal(a, b);
    lemma_text_order_reversed(a, b);
    lemma_less_parts(a, b);
    lemma_less_parts(b, a);
    if alphabetical(a, b) {
        lemma_parts_less(a, b, choose|k: int| #[trigger] parts_at(a, b, k));
    }
    if alphabetical(b, a) {
        lemma_parts_less(b, a, choose|k: int| #[trigger] parts_at(b, a, k));
    }
}

proof fn lemma_less_parts(a: Seq<char>, b: Seq<char>)
    ensures
        text_order(a, b) == Rank::Less ==> alphabetical(a, b),
    decreases a.len(),
{
    if text_order(a, b) == Rank::Less {
        if a.len() == 0 || a[0] != b[0] {
            assert(parts_at(a, b, 0));
        } else {
            let (x, y) = (a.drop_first(), b.drop_first());
            lemma_less_parts(x, y);
            let k = choose|k: int| #[trigger] parts_at(x, y, k);
            assert forall|i: int| 0 <= i < k + 1 implies a[i] == b[i] by {
                if i > 0 {
                    assert(x[i - 1] == y[i - 1]);
                }
            }
            if k < x.len() {
                assert(a[k + 1] == x[k] && b[k + 1] == y[k]);
            }
            assert(parts_at(a, b, k + 1));
        }
    }
}

proof fn lemma_parts_less(a: Seq<char>, b: Seq<char>, k: int)
    requires
        parts_at(a, b, k),
    ensures
        text_order(a, b) == Rank::Less,
    decreases k,
{
    if k > 0 {
        assert(a[0] == b[0]);
        let (x, y) = (a.drop_first(), b.drop_first());
        assert forall|i: int| 0 <= i < k - 1 implies x[i] == y[i] by {
            assert(a[i + 1] == b[i + 1]);
        }
        assert(parts_at(x, y, k - 1));
        lemma_parts_less(x, y, k - 1);
    }
}

// ------------------------------------------------------------------- doubles

/// The order of doubles, by their bits: not-a-number ranks with nothing; numbers
/// without the sign bit rank as their bits do, numbers with it the other way round,
/// and one with it before one without, unless both are zeros.
pub proof fn lemma_doubles_by_bits(x: F64, y: F64)
    ensures
        ({
            let s: u64 = 0x8000_0000_0000_0000;
            let top: u64 = 0x7ff0_0000_0000_0000;
            &&& x.order(y) is None <==> x.bits % s > top || y.bits % s > top
            &&& x.order(y) is Some && x.bits < s && y.bits < s ==> x.order(y) == Some(
                if x.bits < y.bits {
                    Rank::Less
                } else if x.bits == y.bits {
                    Rank::Equal
                } else {
                    Rank::Greater
                },
            )
            &&& x.order(y) is Some && x.bits >= s && y.bits >= s ==> x.order(y) == Some(
                if x.bits > y.bits {
                    Rank::Less
                } else if x.bits == y.bits {
                    Rank::Equal
                } else {
                    Rank::Greater
                },
            )
            &&& x.order(y) is Some && x.bits >= s && y.bits < s ==> x.order(y) == Some(
                if x.bits == s && y.bits == 0 {
                    Rank::Equal
                } else {
                    Rank::Less
                },
            )
            &&& x.order(y) is Some && x.bits < s && y.bits >= s ==> x.order(y) == Some(
                if x.bits == 0 && y.bits == s {
                    Rank::Equal
                } else {
                    Rank::Greater
                },
            )
            &&& x.is_zero() <==> x.bits == 0 || x.bits == s
            &&& x.is_finite() <==> x.bits % s < top
            &&& x.is_nan() <==> x.bits % s > top
        }),
{
}

/// The bits of a number that is a sum of powers of two: the exponent `e + 1023`, and
/// the digits behind the leading one.
pub proof fn lemma_small_bits(m: nat)
    requires
        0 < m <= 0x20_0000_0000_0000,
    ensures
        ({
            let e = ilog2(m);
            let frac = magnitude_bits(m) - (e + 1023) * 0x10_0000_0000_0000;
            &&& e <= 53
            &&& pow2(e) <= m < pow2(e + 1)
            &&& 0 <= frac < 0x10_0000_0000_0000
            &&& (0x10_0000_0000_0000 + frac) * pow2(e) == m * 0x10_0000_0000_0000
            &&& whole_part(magnitude_bits(m)) == m
            &&& 0 < magnitude_bits(m) < 0x7ff0_0000_0000_0000
        }),
{
    lemma_ilog2(m);
    lemma_significand(m);
    vstd::arithmetic::power2::lemma2_to64();
    vstd::arithmetic::power2::lemma2_to64_rest();
    let e = ilog2(m);
    assert(pow2(52) == 0x10_0000_0000_0000);
    assert(pow2(53) == 0x20_0000_0000_0000);
    if e > 53 {
        lemma_pow2_strictly_increases(53, e);
    }
    if e <= 52 {
        let k = (52 - e) as nat;
        lemma_pow2_adds(e, k);
        lemma_pow2_pos(k);
        let sig = m * pow2(k);
        let frac = sig - 0x10_0000_0000_0000;
        assert(sig < 0x20_0000_0000_0000) by {
            lemma_pow2_adds(e + 1, k);
            assert(m * pow2(k) < pow2(e + 1) * pow2(k)) by (nonlinear_arith)
                requires
                    m < pow2(e + 1),
                    pow2(k) > 0,
            ;
        }
        assert((m * pow2(k)) * pow2(e) == m * (pow2(e) * pow2(k))) by (nonlinear_arith);
        let mag = magnitude_bits(m);
        assert(mag / 0x10_0000_0000_0000 == e + 1023);
        assert(mag % 0x10_0000_0000_0000 == frac);
        if e == 52 {
            assert(pow2(0) == 1);
        }
        assert((sig as int) / (pow2(k) as int) == m) by (nonlinear_arith)
            requires
                sig == m * pow2(k),
                pow2(k) > 0,
        ;
        if e + 1023 >= 1075 {
            assert(e == 52 && k == 0);
            assert(pow2(0) == 1);
            assert(sig * 1 == m);
        } else {
            assert((1075 - (e + 1023)) as nat == k);
        }
    } else {
        assert(e == 53);
        assert(m == 0x20_0000_0000_0000);
        assert(pow2(1) == 2);
        assert(crate::float::round_shift(m, 1) == 0x10_0000_0000_0000);
        let mag = magnitude_bits(m);
        assert(mag == 1076 * 0x10_0000_0000_0000);
        assert(mag / 0x10_0000_0000_0000 == 1076);
        assert(mag % 0x10_0000_0000_0000 == 0);
        assert(whole_part(mag) == 0x10_0000_0000_0000 * pow2(1));
    }
}

/// An integer of up to 53 bits as a double is that integer: its bits are the sign,
/// the exponent and the digits of binary notation, cutting it off gives the integer
/// back, and it counts as an integer.
pub proof fn lemma_integer_double(n: int)
    requires
        -0x20_0000_0000_0000 <= n <= 0x20_0000_0000_0000,
    ensures
        truncated(float_of(n)) == n,
        float_of(n).is_finite(),
        n == 0 ==> float_of(n).bits == 0,
        n != 0 ==> exists|e: nat, frac: nat| #[trigger] binary(n, e, frac, float_of(n)),
        (float_of(n).bits >= 0x8000_0000_0000_0000) == (n < 0),
        -0x20_0000_0000_0000 < n < 0x20_0000_0000_0000 ==> small_integer(float_of(n)),
{
    if n != 0 {
        let m: nat = if n < 0 {
            (-n) as nat
        } else {
            n as nat
        };
        lemma_small_bits(m);
        let e = ilog2(m);
        let frac = (magnitude_bits(m) - (e + 1023) * 0x10_0000_0000_0000) as nat;
        let x = float_of(n);
        if n > 0 {
            assert(x.bits == magnitude_bits(m));
        } else {
            assert(x.bits == 0x8000_0000_0000_0000 + magnitude_bits(m));
        }
        assert(x.magnitude() == magnitude_bits(m));
        assert(binary(n, e, frac, x));
    } else {
        assert(whole_part(0) == 0);
    }
}

/// A double is written in binary notation: with `2^e <= |n| < 2^(e+1)`, the exponent
/// is `e + 1023` and `1.frac * 2^e` is `|n|`.
pub open spec fn binary(n: int, e: nat, frac: nat, x: F64) -> bool {
    let m = if n < 0 {
        -n
    } else {
        n
    };
    &&& pow2(e) <= m < pow2(e + 1)
    &&& frac < 0x10_0000_0000_0000
    &&& (0x10_0000_0000_0000 + frac) * pow2(e) == m * 0x10_0000_0000_0000
    &&& x.bits == (e + 1023) * 0x10_0000_0000_0000 + frac + if n < 0 {
        0x8000_0000_0000_0000int
    } else {
        0
    }
}

proof fn lemma_bits_ordered(a: nat, b: nat)
    requires
        0 < a < b <= 0x20_0000_0000_0000,
    ensures
        magnitude_bits(a) < magnitude_bits(b),
{
    lemma_small_bits(a);
    lemma_small_bits(b);
    let (e, f) = (ilog2(a), ilog2(b));
    if e > f {
        if e > f + 1 {
            lemma_pow2_strictly_increases(f + 1, e);
        }
        assert(false);
    } else if e == f {
        let x = magnitude_bits(a) - (e + 1023) * 0x10_0000_0000_0000;
        let y = magnitude_bits(b) - (e + 1023) * 0x10_0000_0000_0000;
        lemma_pow2_pos(e);
        assert(x < y) by (nonlinear_arith)
            requires
                (0x10_0000_0000_0000 + x) * pow2(e) == a * 0x10_0000_0000_0000,
                (0x10_0000_0000_0000 + y) * pow2(e) == b * 0x10_0000_0000_0000,
                pow2(e) > 0,
                a < b,
        ;
    }
}

/// Where an integer of up to 53 bits stands in the order of doubles: by the bits of
/// its size, on the side of its sign.
proof fn lemma_small_key(n: int)
    requires
        -0x20_0000_0000_0000 <= n <= 0x20_0000_0000_0000,
    ensures
        !float_of(n).is_nan(),
        n == 0 ==> float_of(n).key() == 0,
        n > 0 ==> float_of(n).key() == magnitude_bits(n as nat) && float_of(n).key() > 0,
        n < 0 ==> float_of(n).key() == -magnitude_bits((-n) as nat) && float_of(n).key() < 0,
{
    if n > 0 {
        lemma_small_bits(n as nat);
        assert(float_of(n).bits == magnitude_bits(n as nat));
    } else if n < 0 {
        lemma_small_bits((-n) as nat);
        assert(float_of(n).bits == 0x8000_0000_0000_0000 + magnitude_bits((-n) as nat));
    }
}

/// Integers of up to 53 bits rank as doubles as they do as integers.
pub proof fn lemma_integers_ranked(a: int, b: int)
    requires
        -0x20_0000_0000_0000 <= a <= 0x20_0000_0000_0000,
        -0x20_0000_0000_0000 <= b <= 0x20_0000_0000_0000,
    ensures
        float_of(a).order(float_of(b)) == Some(
            if a < b {
                Rank::Less
            } else if a == b {
                Rank::Equal
            } else {
                Rank::Greater
            },
        ),
{
    lemma_small_key(a);
    lemma_small_key(b);
    if 0 < a < b {
        lemma_bits_ordered(a as nat, b as nat);
    } else if 0 < b < a {
        lemma_bits_ordered(b as nat, a as nat);
    } else if a < b < 0 {
        lemma_bits_ordered((-b) as nat, (-a) as nat);
    } else if b < a < 0 {
        lemma_bits_ordered((-a) as nat, (-b) as nat);
    }
}

// --------------------------------------------------------------------- cells

/// One cell of a column stands before another: a missing one before all others,
/// `false` before `true`, lesser numbers, instants and spans before greater ones,
/// texts as in the dictionary.
pub open spec fn cell_before(x: Datum, y: Datum) -> bool {
    match (x, y) {
        (Datum::Null, _) => !(y is Null),
        (_, Datum::Null) => false,
        (Datum::Bool(a), Datum::Bool(b)) => !a && b,
        (Datum::I64(a), Datum::I64(b)) => a < b,
        (Datum::F64(a), Datum::F64(b)) => a.order(b) == Some(Rank::Less),
        (Datum::Dec(a), Datum::Dec(b)) => a.unscaled < b.unscaled,
        (Datum::DateTime(a), Datum::DateTime(b)) => a.ticks < b.ticks,
        (Datum::Duration(a), Datum::Duration(b)) => a.ticks < b.ticks,
        (Datum::Date(a), Datum::Date(b)) => a.epoch_day < b.epoch_day,
        (Datum::Time(a), Datum::Time(b)) => a.ticks < b.ticks,
        (Datum::Str(a), Datum::Str(b)) => alphabetical(a, b),
        _ => false,
    }
}

proof fn lemma_cell_rank(x: Datum, y: Datum)
    ensures
        cell_rank(x, y) == Rank::Less <==> cell_before(x, y),
        cell_rank(x, y) == Rank::Greater <==> cell_before(y, x),
{
    if let (Datum::Str(a), Datum::Str(b)) = (x, y) {
        lemma_texts_alphabetical(a, b);
    }
}

// ---------------------------------------------------------------------- rows

/// Two rows are tied in a key column: neither cell stands before the other.
pub open spec fn tied(columns: Seq<Lane>, key: Key, a: int, b: int) -> bool {
    let cells = columns[key.0 as int].cells;
    !cell_before(cells[a], cells[b]) && !cell_before(cells[b], cells[a])
}

/// One row stands before another in a key column: by the order of the cells, or
/// against it where the key descends.
pub open spec fn leads(columns: Seq<Lane>, key: Key, a: int, b: int) -> bool {
    let cells = columns[key.0 as int].cells;
    if key.1 {
        cell_before(cells[b], cells[a])
    } else {
        cell_before(cells[a], cells[b])
    }
}

/// One row may stand before another: it leads in the first key in which they are not
/// tied, or they are tied in all keys and it came first.
pub open spec fn may_precede(columns: Seq<Lane>, keys: Seq<Key>, a: int, b: int) -> bool {
    ||| exists|k: int|
        0 <= k < keys.len() && leads(columns, #[trigger] keys[k], a, b) && forall|m: int|
            0 <= m < k ==> tied(columns, #[trigger] keys[m], a, b)
    ||| (forall|m: int| 0 <= m < keys.len() ==> tied(columns, #[trigger] keys[m], a, b)) && a < b
}

proof fn lemma_row_rank(columns: Seq<Lane>, keys: Seq<Key>, a: int, b: int)
    ensures
        row_rank(columns, keys, a, b) == Rank::Equal <==> forall|m: int|
            0 <= m < keys.len() ==> tied(columns, #[trigger] keys[m], a, b),
        row_rank(columns, keys, a, b) == Rank::Less ==> exists|k: int|
            0 <= k < keys.len() && leads(columns, #[trigger] keys[k], a, b) && forall|m: int|
                0 <= m < k ==> tied(columns, #[trigger] keys[m], a, b),
    decreases keys.len(),
{
    if keys.len() > 0 {
        let up = keys.drop_last();
        lemma_row_rank(columns, up, a, b);
        let key = keys.last();
        assert(keys[keys.len() - 1] == key);
        let cells = columns[key.0 as int].cells;
        lemma_cell_rank(cells[a], cells[b]);
        assert forall|m: int| 0 <= m < up.len() implies up[m] == keys[m] by {}
        let r = row_rank(columns, up, a, b);
        if r == Rank::Equal {
            assert forall|m: int| 0 <= m < up.len() implies tied(columns, #[trigger] keys[m], a, b) by {
                assert(tied(columns, up[m], a, b));
            }
            if row_rank(columns, keys, a, b) == Rank::Less {
                assert(leads(columns, keys[keys.len() - 1], a, b));
            }
        } else {
            if forall|m: int| 0 <= m < keys.len() ==> tied(columns, #[trigger] keys[m], a, b) {
                assert forall|m: int| 0 <= m < up.len() implies tied(columns, #[trigger] up[m], a, b) by {
                    assert(tied(columns, keys[m], a, b));
                }
            }
            if r == Rank::Less {
                let k = choose|k: int|
                    0 <= k < up.len() && leads(columns, #[trigger] up[k], a, b) && forall|m: int|
                        0 <= m < k ==> tied(columns, #[trigger] up[m], a, b);
                assert(leads(columns, keys[k], a, b));
                assert forall|m: int| 0 <= m < k implies tied(columns, #[trigger] keys[m], a, b) by {
                    assert(tied(columns, up[m], a, b));
                }
            }
        }
    }
}

/// The sorted rows are all rows, each once, and each may stand before those behind it:
/// by the first key in which they differ, in the order of the cells or against it, and
/// as they came where they differ in none.
pub proof fn lemma_rows_sorted(b: Batch, keys: Seq<Key>, rows: Seq<usize>)
    requires
        b.len <= usize::MAX,
        sorted_rows(b, keys, rows),
        orderable(b.columns, keys, b.len as int),
    ensures
        rows.len() == b.len,
        forall|r: usize| r < b.len ==> #[trigger] rows.contains(r),
        forall|i: int| 0 <= i < rows.len() ==> (#[trigger] rows[i]) < b.len,
        forall|i: int, j: int|
            0 <= i < j < rows.len() ==> may_precede(
                b.columns,
                keys,
                #[trigger] rows[i] as int,
                #[trigger] rows[j] as int,
            ),
{
    broadcast use group_to_multiset_ensures;

    let all = span(0, b.len as usize);
    assert(rows.len() == rows.to_multiset().len());
    assert(all.len() == all.to_multiset().len());
    assert forall|r: usize| r < b.len implies #[trigger] rows.contains(r) by {
        assert(all[r as int] == r);
        assert(all.contains(r));
        assert(all.to_multiset().count(r) > 0);
    }
    assert forall|i: int| 0 <= i < rows.len() implies (#[trigger] rows[i]) < b.len by {
        assert(rows.contains(rows[i]));
        assert(rows.to_multiset().count(rows[i]) > 0);
        assert(all.contains(rows[i]));
    }
    assert forall|i: int, j: int| 0 <= i < j < rows.len() implies may_precede(
        b.columns,
        keys,
        #[trigger] rows[i] as int,
        #[trigger] rows[j] as int,
    ) by {
        lemma_row_rank(b.columns, keys, rows[i] as int, rows[j] as int);
    }
}

/// An ascending key never falls and a descending key never rises: the cells of the
/// first key column, as they come out.
pub proof fn lemma_first_key_in_order(b: Batch, keys: Seq<Key>, rows: Seq<usize>, i: int, j: int)
    requires
        b.len <= usize::MAX,
        sorted_rows(b, keys, rows),
        orderable(b.columns, keys, b.len as int),
        keys.len() > 0,
        0 <= i < j < rows.len(),
    ensures
        ({
            let cells = b.columns[keys[0].0 as int].cells;
            let (x, y) = (cells[rows[i] as int], cells[rows[j] as int]);
            if keys[0].1 {
                !cell_before(x, y)
            } else {
                !cell_before(y, x)
            }
        }),
{
    lemma_rows_sorted(b, keys, rows);
    let (p, q) = (rows[i] as int, rows[j] as int);
    let cells = b.columns[keys[0].0 as int].cells;
    lemma_one_way(cells[p], cells[q]);
    assert(may_precede(b.columns, keys, p, q));
    if exists|k: int|
        0 <= k < keys.len() && leads(b.columns, #[trigger] keys[k], p, q) && forall|m: int|
            0 <= m < k ==> tied(b.columns, #[trigger] keys[m], p, q) {
        let k = choose|k: int|
            0 <= k < keys.len() && leads(b.columns, #[trigger] keys[k], p, q) && forall|m: int|
                0 <= m < k ==> tied(b.columns, #[trigger] keys[m], p, q);
        if k > 0 {
            assert(tied(b.columns, keys[0], p, q));
        }
    } else {
        assert(tied(b.columns, keys[0], p, q));
    }
}

proof fn lemma_one_way(x: Datum, y: Datum)
    ensures
        !(cell_before(x, y) && cell_before(y, x)),
{
    lemma_cell_rank(x, y);
}

/// The keys of a sort are the columns of their names, in order and with their
/// directions; a name that is no column is left out.
pub proof fn lemma_keys_by_name(fields: Seq<FieldV>, names: Seq<(Seq<char>, bool)>)
    requires
        fields.len() <= usize::MAX,
        forall|i: int|
            0 <= i < names.len() ==> exists|f: int|
                0 <= f < fields.len() && (#[trigger] fields[f]).name == (#[trigger] names[i]).0,
    ensures
        sort_keys(fields, names).len() == names.len(),
        forall|i: int|
            0 <= i < names.len() ==> {
                let k = #[trigger] sort_keys(fields, names)[i];
                &&& k.0 < fields.len()
                &&& fields[k.0 as int].name == names[i].0
                &&& forall|f: int| 0 <= f < k.0 ==> (#[trigger] fields[f]).name != names[i].0
                &&& k.1 == names[i].1
            },
    decreases names.len(),
{
    if names.len() > 0 {
        let up = names.drop_last();
        assert forall|i: int| 0 <= i < up.len() implies exists|f: int|
            0 <= f < fields.len() && (#[trigger] fields[f]).name == (#[trigger] up[i]).0 by {
            assert(up[i] == names[i]);
        }
        lemma_keys_by_name(fields, up);
        let last = names[names.len() - 1];
        let f = choose|f: int| 0 <= f < fields.len() && (#[trigger] fields[f]).name == last.0;
        lemma_index_in(fields, last.0);
        assert(index_in(fields, last.0) is Some);
        assert forall|i: int| 0 <= i < names.len() implies {
            let k = #[trigger] sort_keys(fields, names)[i];
            &&& k.0 < fields.len()
            &&& fields[k.0 as int].name == names[i].0
            &&& forall|f: int| 0 <= f < k.0 ==> (#[trigger] fields[f]).name != names[i].0
            &&& k.1 == names[i].1
        } by {
            if i < up.len() {
                assert(sort_keys(fields, names)[i] == sort_keys(fields, up)[i]);
                assert(names[i] == up[i]);
            }
        }
    }
}

/// What a sort puts out: the rows that it held, each once, every cell with its row,
/// in the order of the keys.
pub proof fn lemma_sort_puts_out(a: Sort, c: CtxV, out: Seq<Batch>, z: Sort, d: CtxV)
    requires
        sort_ends(a, c, out, z, d),
        !a.emitted,
        a.buf@.len() > 0,
        ({
            let all = stacked(batches(a.buf@));
            all.len <= usize::MAX && orderable(
                all.columns,
                sort_keys(all.fields, key_views(a.keys@)),
                all.len as int,
            )
        }),
    ensures
        ({
            let all = stacked(batches(a.buf@));
            let keys = sort_keys(all.fields, key_views(a.keys@));
            out.len() == 1 && out[0].len == all.len && out[0].fields == all.fields && exists|rows: Seq<
                usize,
            >|
                #![trigger rows.len()]
                {
                    &&& rows.len() == all.len
                    &&& forall|r: usize| r < all.len ==> #[trigger] rows.contains(r)
                    &&& forall|i: int, j: int|
                        0 <= i < j < rows.len() ==> may_precede(
                            all.columns,
                            keys,
                            #[trigger] rows[i] as int,
                            #[trigger] rows[j] as int,
                        )
                    &&& out[0].columns.len() == all.columns.len()
                    &&& forall|col: int, i: int|
                        0 <= col < all.columns.len() && 0 <= i < rows.len()
                            ==> #[trigger] out[0].columns[col].cells[i]
                            == all.columns[col].cells[rows[i] as int]
                }
        }),
{
    let all = stacked(batches(a.buf@));
    let keys = sort_keys(all.fields, key_views(a.keys@));
    let warned = sort_warned(c, all.fields, key_views(a.keys@));
    let rows = choose|rows: Seq<usize>|
        #![trigger sorted_rows(all, keys, rows)]
        sorted_rows(all, keys, rows) && out[0] == (Batch {
            id: warned.next_chunk_id,
            ..gathered(all, rows)
        });
    lemma_rows_sorted(all, keys, rows);
    assert(rows.len() == all.len);
}

} // verus!
