//! What each aggregate is of the values that it was handed: how many there are, the
//! first and the last, the different ones, the least and the greatest, the sum, the
//! mean, the spread and the percentiles.
use vstd::prelude::*;
use crate::agg::{dec_total, doubles, greatest_of, half_even, index_at, least_of, lemma_sorted_doubles, mean_scale, one_pass, one_scale, sorted_doubles, sums_fit, AggFunc, Item, Moments};
use crate::compare::numeric;
use crate::expr::ArithOp;
use crate::float::{float_of, truncated, Rank, F64};
use crate::host::{answer, HostOp, Log, Query};
use crate::value::{fits_i128, ten_to, DateTime, Datum};

verus! {

// ------------------------------------------------------------- what is noted

/// The value counts as a number.
pub open spec fn counts(d: Datum) -> bool {
    match d {
        Datum::Bool(_) => true,
        Datum::I64(_) => true,
        Datum::F64(_) => true,
        Datum::Dec(_) => true,
        Datum::DateTime(_) => true,
        Datum::Duration(_) => true,
        Datum::Date(_) => true,
        Datum::Time(_) => true,
        _ => false,
    }
}

/// The values that count as numbers, in order.
pub open spec fn numbers(items: Seq<Item>) -> Seq<Datum>
    decreases items.len(),
{
    if items.len() == 0 {
        Seq::empty()
    } else if counts(items.last().0) {
        numbers(items.drop_last()).push(items.last().0)
    } else {
        numbers(items.drop_last())
    }
}

/// Numeric functions take every number, in order, and count them up to the largest
/// count; nothing else enters them.
pub proof fn lemma_numbers_noted(func: AggFunc, items: Seq<Item>)
    requires
        !(func is CountDistinct || func is First || func is Last),
    ensures
        one_pass(func, items).pending == numbers(items),
        one_pass(func, items).func == func,
        one_pass(func, items).moments == (Moments {
            sum: F64 { bits: 0 },
            sum_sq: F64 { bits: 0 },
            min: F64 { bits: 0x7ff0_0000_0000_0000 },
            max: F64 { bits: 0xfff0_0000_0000_0000 },
        }),
        func !is Pct ==> one_pass(func, items).n == if numbers(items).len() <= i64::MAX {
            numbers(items).len() as int
        } else {
            i64::MAX as int
        },
    decreases items.len(),
{
    if items.len() > 0 {
        lemma_numbers_noted(func, items.drop_last());
    }
}

// --------------------------------------------------------------------- texts

/// `first` is the first text that is not empty.
pub proof fn lemma_first_is_first(items: Seq<Item>)
    ensures
        match one_pass(AggFunc::First, items).first {
            None => forall|i: int| 0 <= i < items.len() ==> (#[trigger] items[i]).1.len() == 0,
            Some(t) => exists|i: int|
                0 <= i < items.len() && (#[trigger] items[i]).1 == t && t.len() > 0 && forall|k: int|
                    0 <= k < i ==> (#[trigger] items[k]).1.len() == 0,
        },
        one_pass(AggFunc::First, items).func == AggFunc::First,
    decreases items.len(),
{
    if items.len() > 0 {
        let up = items.drop_last();
        lemma_first_is_first(up);
        assert(items[items.len() - 1] == items.last());
        match one_pass(AggFunc::First, up).first {
            Some(t) => {
                let i = choose|i: int|
                    0 <= i < up.len() && (#[trigger] up[i]).1 == t && t.len() > 0 && forall|k: int|
                        0 <= k < i ==> (#[trigger] up[k]).1.len() == 0;
                assert(items[i].1 == t);
                assert forall|k: int| 0 <= k < i implies (#[trigger] items[k]).1.len() == 0 by {
                    assert(up[k] == items[k]);
                }
            },
            None => {
                assert forall|k: int| 0 <= k < up.len() implies (#[trigger] items[k]).1.len() == 0 by {
                    assert(up[k] == items[k]);
                }
            },
        }
    }
}

/// `last` is the last text that is not empty.
pub proof fn lemma_last_is_last(items: Seq<Item>)
    ensures
        match one_pass(AggFunc::Last, items).last {
            None => forall|i: int| 0 <= i < items.len() ==> (#[trigger] items[i]).1.len() == 0,
            Some(t) => exists|i: int|
                0 <= i < items.len() && (#[trigger] items[i]).1 == t && t.len() > 0 && forall|k: int|
                    i < k < items.len() ==> (#[trigger] items[k]).1.len() == 0,
        },
        one_pass(AggFunc::Last, items).func == AggFunc::Last,
    decreases items.len(),
{
    if items.len() > 0 {
        let up = items.drop_last();
        lemma_last_is_last(up);
        assert(items[items.len() - 1] == items.last());
        if items.last().1.len() == 0 {
            match one_pass(AggFunc::Last, up).last {
                Some(t) => {
                    let i = choose|i: int|
                        0 <= i < up.len() && (#[trigger] up[i]).1 == t && t.len() > 0
                            && forall|k: int|
                            i < k < up.len() ==> (#[trigger] up[k]).1.len() == 0;
                    assert(items[i].1 == t);
                    assert forall|k: int| i < k < items.len() implies (#[trigger] items[k]).1.len()
                        == 0 by {
                        if k < up.len() {
                            assert(up[k] == items[k]);
                        }
                    }
                },
                None => {
                    assert forall|k: int| 0 <= k < items.len() implies (#[trigger] items[k]).1.len()
                        == 0 by {
                        if k < up.len() {
                            assert(up[k] == items[k]);
                        }
                    }
                },
            }
        }
    }
}

/// The different texts are exactly the texts that occur and are not empty.
pub proof fn lemma_distinct_are_all(items: Seq<Item>, t: Seq<char>)
    ensures
        one_pass(AggFunc::CountDistinct, items).distinct.contains(t) <==> t.len() > 0 && exists|i: int|
            0 <= i < items.len() && (#[trigger] items[i]).1 == t,
        one_pass(AggFunc::CountDistinct, items).distinct.finite(),
        one_pass(AggFunc::CountDistinct, items).func == AggFunc::CountDistinct,
    decreases items.len(),
{
    if items.len() > 0 {
        let up = items.drop_last();
        lemma_distinct_are_all(up, t);
        assert(items[items.len() - 1] == items.last());
        if exists|i: int| 0 <= i < up.len() && (#[trigger] up[i]).1 == t {
            let i = choose|i: int| 0 <= i < up.len() && (#[trigger] up[i]).1 == t;
            assert(items[i].1 == t);
        }
        if exists|i: int| 0 <= i < items.len() && (#[trigger] items[i]).1 == t {
            let i = choose|i: int| 0 <= i < items.len() && (#[trigger] items[i]).1 == t;
            if i < up.len() {
                assert(up[i].1 == t);
            }
        }
    }
}

// ------------------------------------------------------------------- doubles

/// Each number becomes one double, in order.
pub proof fn lemma_doubles_of_numbers(items: Seq<Item>, log: Log)
    ensures
        doubles(numbers(items), numbers(items).len(), log) matches Ok(xs) ==> xs.len() == numbers(
            items,
        ).len() && forall|i: int|
            0 <= i < xs.len() ==> numeric(numbers(items)[i], log) == Ok::<Option<F64>, Query>(
                Some(#[trigger] xs[i]),
            ),
{
    lemma_numbers_count(items);
    lemma_doubles_each(numbers(items), numbers(items).len(), log);
}

proof fn lemma_numbers_count(items: Seq<Item>)
    ensures
        forall|i: int| 0 <= i < numbers(items).len() ==> counts(#[trigger] numbers(items)[i]),
    decreases items.len(),
{
    if items.len() > 0 {
        let up = numbers(items.drop_last());
        lemma_numbers_count(items.drop_last());
        assert forall|i: int| 0 <= i < numbers(items).len() implies counts(
            #[trigger] numbers(items)[i],
        ) by {
            if i < up.len() {
                assert(numbers(items)[i] == up[i]);
            }
        }
    }
}

proof fn lemma_doubles_each(vals: Seq<Datum>, n: nat, log: Log)
    requires
        n <= vals.len(),
        forall|i: int| 0 <= i < vals.len() ==> counts(#[trigger] vals[i]),
    ensures
        doubles(vals, n, log) matches Ok(xs) ==> xs.len() == n && forall|i: int|
            0 <= i < n ==> numeric(vals[i], log) == Ok::<Option<F64>, Query>(Some(#[trigger] xs[i])),
    decreases n,
{
    if n > 0 {
        lemma_doubles_each(vals, (n - 1) as nat, log);
        assert(counts(vals[n - 1]));
    }
}

/// One double is not below another: it ranks above it or equal.
pub open spec fn not_below(x: F64, y: F64) -> bool {
    x.order(y) != Some(Rank::Less)
}

proof fn lemma_least_is(a: F64, xs: Seq<F64>)
    requires
        !a.is_nan(),
    ensures
        !least_of(a, xs).is_nan(),
        !greatest_of(a, xs).is_nan(),
        not_below(a, least_of(a, xs)),
        not_below(greatest_of(a, xs), a),
        forall|i: int| 0 <= i < xs.len() ==> not_below(#[trigger] xs[i], least_of(a, xs)),
        forall|i: int| 0 <= i < xs.len() ==> not_below(greatest_of(a, xs), #[trigger] xs[i]),
        least_of(a, xs) == a || xs.contains(least_of(a, xs)),
        greatest_of(a, xs) == a || xs.contains(greatest_of(a, xs)),
    decreases xs.len(),
{
    if xs.len() > 0 {
        let up = xs.drop_last();
        lemma_least_is(a, up);
        assert(xs[xs.len() - 1] == xs.last());
        let (p, q) = (least_of(a, up), greatest_of(a, up));
        if up.contains(p) {
            let k = choose|k: int| 0 <= k < up.len() && up[k] == p;
            assert(xs[k] == p);
        }
        if up.contains(q) {
            let k = choose|k: int| 0 <= k < up.len() && up[k] == q;
            assert(xs[k] == q);
        }
        assert forall|i: int| 0 <= i < xs.len() implies not_below(#[trigger] xs[i], least_of(a, xs))
            && not_below(greatest_of(a, xs), xs[i]) by {
            if i < up.len() {
                assert(not_below(up[i], p) && not_below(q, up[i]));
            }
        }
    }
}

/// The least number is one of the numbers and none is below it; the greatest is one
/// of them and is below none. Not-a-number is passed over.
pub proof fn lemma_extreme_is_extreme(func: AggFunc, items: Seq<Item>, log: Log)
    requires
        func is Min || func is Max,
        numbers(items).len() > 0,
    ensures
        one_pass(func, items).number(log) matches Ok(x) ==> doubles(
            numbers(items),
            numbers(items).len(),
            log,
        ) matches Ok(xs) && {
            &&& !x.is_nan()
            &&& forall|i: int|
                0 <= i < xs.len() ==> if func is Min {
                    not_below(#[trigger] xs[i], x)
                } else {
                    not_below(x, xs[i])
                }
            &&& (exists|i: int| 0 <= i < xs.len() && (#[trigger] xs[i]).is_finite()) ==> xs.contains(
                x,
            )
        },
{
    lemma_numbers_noted(func, items);
    let a = one_pass(func, items);
    if let Ok(x) = a.number(log) {
        let xs = doubles(numbers(items), numbers(items).len(), log)->Ok_0;
        let lo = F64 { bits: 0x7ff0_0000_0000_0000 };
        let hi = F64 { bits: 0xfff0_0000_0000_0000 };
        lemma_least_is(lo, xs);
        lemma_least_is(hi, xs);
        if exists|i: int| 0 <= i < xs.len() && (#[trigger] xs[i]).is_finite() {
            let i = choose|i: int| 0 <= i < xs.len() && (#[trigger] xs[i]).is_finite();
            assert(xs[i].key() < lo.key());
            assert(xs[i].key() > hi.key());
            assert(not_below(xs[i], least_of(lo, xs)));
            assert(not_below(greatest_of(hi, xs), xs[i]));
        }
    }
}

/// The log answers a question on two doubles with a third.
pub open spec fn tells(log: Log, op: ArithOp, x: F64, y: F64, z: F64) -> bool {
    answer(log, Query { op: HostOp::Arith(op), args: seq![Datum::F64(x), Datum::F64(y)] }) == Some(
        Datum::F64(z),
    )
}

/// The log gives the sum of doubles and the sum of their squares, started from zero.
pub open spec fn tells_sums(log: Log, xs: Seq<F64>, sum: F64, squares: F64) -> bool {
    answer(
        log,
        Query {
            op: HostOp::Sums,
            args: seq![
                Datum::F64(F64 { bits: 0 }),
                Datum::F64(F64 { bits: 0 }),
                Datum::List(Seq::new(xs.len(), |i: int| Datum::F64(xs[i]))),
            ],
        },
    ) matches Some(Datum::List(l)) && l.len() == 2 && l[0] == Datum::F64(sum) && l[1] == Datum::F64(
        squares,
    )
}

proof fn lemma_sums_told(func: AggFunc, items: Seq<Item>, log: Log)
    requires
        func is Sum || func is Avg || func is Std,
        numbers(items).len() > 0,
        one_pass(func, items).settled(log) is Ok,
    ensures
        doubles(numbers(items), numbers(items).len(), log) matches Ok(xs) && tells_sums(
            log,
            xs,
            one_pass(func, items).settled(log)->Ok_0.sum,
            one_pass(func, items).settled(log)->Ok_0.sum_sq,
        ),
{
    lemma_numbers_noted(func, items);
    let a = one_pass(func, items);
    let xs = doubles(numbers(items), numbers(items).len(), log)->Ok_0;
    let q = crate::agg::sums_query(a.moments, xs);
    let r = Query {
        op: HostOp::Sums,
        args: seq![
            Datum::F64(F64 { bits: 0 }),
            Datum::F64(F64 { bits: 0 }),
            Datum::List(Seq::new(xs.len(), |i: int| Datum::F64(xs[i]))),
        ],
    };
    assert(crate::agg::double_data(xs) =~= Seq::new(xs.len(), |i: int| Datum::F64(xs[i])));
    assert(q.args =~= r.args);
    let l = answer(log, q)->Some_0->List_0;
    assert(answer(log, r) == Some(Datum::List(l)));
}

/// The sum of the numbers is the sum that the host gives of their doubles; 0 where
/// there are none.
pub proof fn lemma_sum_is_sum(items: Seq<Item>, log: Log)
    ensures
        one_pass(AggFunc::Sum, items).number(log) matches Ok(x) ==> if numbers(items).len() == 0 {
            x.bits == 0
        } else {
            doubles(numbers(items), numbers(items).len(), log) matches Ok(xs) && exists|sq: F64|
                tells_sums(log, xs, x, sq)
        },
{
    lemma_numbers_noted(AggFunc::Sum, items);
    let a = one_pass(AggFunc::Sum, items);
    if let Ok(x) = a.number(log) {
        let m = a.settled(log)->Ok_0;
        assert(x == m.sum);
        if numbers(items).len() > 0 {
            lemma_sums_told(AggFunc::Sum, items, log);
            let xs = doubles(numbers(items), numbers(items).len(), log)->Ok_0;
            assert(tells_sums(log, xs, x, m.sum_sq));
        } else {
            assert(m == a.moments);
        }
    }
}

/// The mean of the numbers is their sum over their number; 0 where there are none.
pub proof fn lemma_mean_is_mean(items: Seq<Item>, log: Log)
    requires
        numbers(items).len() <= i64::MAX,
    ensures
        one_pass(AggFunc::Avg, items).number(log) matches Ok(x) ==> if numbers(items).len() == 0 {
            x.bits == 0
        } else {
            doubles(numbers(items), numbers(items).len(), log) matches Ok(xs) && exists|s: F64, sq: F64|
                #[trigger] tells_sums(log, xs, s, sq) && tells(
                    log,
                    ArithOp::Div,
                    s,
                    float_of(xs.len() as int),
                    x,
                )
        },
{
    lemma_numbers_noted(AggFunc::Avg, items);
    let a = one_pass(AggFunc::Avg, items);
    if a.number(log) is Ok && numbers(items).len() > 0 {
        lemma_sums_told(AggFunc::Avg, items, log);
        lemma_doubles_of_numbers(items, log);
        let m = a.settled(log)->Ok_0;
        let xs = doubles(numbers(items), numbers(items).len(), log)->Ok_0;
        assert(tells_sums(log, xs, m.sum, m.sum_sq));
        assert(tells(log, ArithOp::Div, m.sum, float_of(xs.len() as int), a.number(log)->Ok_0));
    }
}

/// What the spread of doubles is made of: with their sum `s` and the sum `sq` of
/// their squares, the root of `(sq - s * (s / n)) / (n - 1)`.
pub open spec fn tells_spread(log: Log, n: int, s: F64, sq: F64, x: F64) -> bool {
    exists|mean: F64, t: F64, u: F64, k: F64, v: F64|
        #![trigger tells(log, ArithOp::Div, s, float_of(n), mean), tells(log, ArithOp::Mul, s, mean, t), tells(log, ArithOp::Sub, sq, t, u), tells(log, ArithOp::Sub, float_of(n), float_of(1), k), tells(log, ArithOp::Div, u, k, v)]
        {
            &&& tells(log, ArithOp::Div, s, float_of(n), mean)
            &&& tells(log, ArithOp::Mul, s, mean, t)
            &&& tells(log, ArithOp::Sub, sq, t, u)
            &&& tells(log, ArithOp::Sub, float_of(n), float_of(1), k)
            &&& tells(log, ArithOp::Div, u, k, v)
            &&& answer(log, Query { op: HostOp::Sqrt, args: seq![Datum::F64(v)] }) == Some(
                Datum::F64(x),
            )
        }
}

/// The standard deviation of the numbers is the root of the sum of their squared
/// distances to the mean over one less than their number; 0 for fewer than two.
pub proof fn lemma_spread_is_spread(items: Seq<Item>, log: Log)
    requires
        numbers(items).len() <= i64::MAX,
    ensures
        one_pass(AggFunc::Std, items).number(log) matches Ok(x) ==> if numbers(items).len() < 2 {
            x.bits == 0
        } else {
            doubles(numbers(items), numbers(items).len(), log) matches Ok(xs) && exists|s: F64, sq: F64|
                #[trigger] tells_sums(log, xs, s, sq) && tells_spread(
                    log,
                    xs.len() as int,
                    s,
                    sq,
                    x,
                )
        },
{
    lemma_numbers_noted(AggFunc::Std, items);
    let a = one_pass(AggFunc::Std, items);
    let n = numbers(items).len() as int;
    if a.number(log) is Ok && n >= 2 {
        lemma_sums_told(AggFunc::Std, items, log);
        lemma_doubles_of_numbers(items, log);
        let m = a.settled(log)->Ok_0;
        let xs = doubles(numbers(items), numbers(items).len(), log)->Ok_0;
        let (s, sq) = (m.sum, m.sum_sq);
        let mean = crate::agg::op2(ArithOp::Div, s, float_of(n), log)->Ok_0;
        let t = crate::agg::op2(ArithOp::Mul, s, mean, log)->Ok_0;
        let u = crate::agg::op2(ArithOp::Sub, sq, t, log)->Ok_0;
        let k = crate::agg::op2(ArithOp::Sub, float_of(n), float_of(1), log)->Ok_0;
        let v = crate::agg::op2(ArithOp::Div, u, k, log)->Ok_0;
        assert(tells(log, ArithOp::Div, s, float_of(n), mean));
        assert(tells(log, ArithOp::Mul, s, mean, t));
        assert(tells(log, ArithOp::Sub, sq, t, u));
        assert(tells(log, ArithOp::Sub, float_of(n), float_of(1), k));
        assert(tells(log, ArithOp::Div, u, k, v));
        assert(tells_spread(log, n, s, sq, a.number(log)->Ok_0));
        assert(tells_sums(log, xs, s, sq));
    }
}

/// The values of the doubles are given by `val`, and the log's arithmetic is exact on
/// them.
pub open spec fn exact(log: Log, val: spec_fn(F64) -> int) -> bool {
    &&& forall|x: F64, y: F64, z: F64|
        #[trigger] tells(log, ArithOp::Sub, x, y, z) ==> val(z) == val(x) - val(y)
    &&& forall|x: F64, y: F64, z: F64|
        #[trigger] tells(log, ArithOp::Mul, x, y, z) ==> val(z) == val(x) * val(y)
    &&& forall|x: F64, y: F64, z: F64|
        #[trigger] tells(log, ArithOp::Div, x, y, z) ==> val(z) * val(y) == val(x)
    &&& forall|v: F64, x: F64|
        #![trigger answer(log, Query { op: HostOp::Sqrt, args: seq![Datum::F64(v)] }), val(x)]
        answer(log, Query { op: HostOp::Sqrt, args: seq![Datum::F64(v)] }) == Some(Datum::F64(x))
            ==> val(x) * val(x) == val(v)
    &&& forall|n: int| val(#[trigger] float_of(n)) == n
}

/// Where the host's arithmetic is exact, the square of the deviation, times the
/// number less one, times the number, is what `n` times the sum of squares has over
/// the square of the sum: `n` times the sum of the squared distances to the mean.
pub proof fn lemma_spread_exact(log: Log, val: spec_fn(F64) -> int, n: int, s: F64, sq: F64, x: F64)
    requires
        exact(log, val),
        tells_spread(log, n, s, sq, x),
    ensures
        n * (val(x) * val(x) * (n - 1)) == n * val(sq) - val(s) * val(s),
{
    let (mean, t, u, k, v) = choose|mean: F64, t: F64, u: F64, k: F64, v: F64|
        #![trigger tells(log, ArithOp::Div, s, float_of(n), mean), tells(log, ArithOp::Mul, s, mean, t), tells(log, ArithOp::Sub, sq, t, u), tells(log, ArithOp::Sub, float_of(n), float_of(1), k), tells(log, ArithOp::Div, u, k, v)]
        {
            &&& tells(log, ArithOp::Div, s, float_of(n), mean)
            &&& tells(log, ArithOp::Mul, s, mean, t)
            &&& tells(log, ArithOp::Sub, sq, t, u)
            &&& tells(log, ArithOp::Sub, float_of(n), float_of(1), k)
            &&& tells(log, ArithOp::Div, u, k, v)
            &&& answer(log, Query { op: HostOp::Sqrt, args: seq![Datum::F64(v)] }) == Some(
                Datum::F64(x),
            )
        };
    assert(val(float_of(n)) == n && val(float_of(1)) == 1);
    assert(val(k) == n - 1);
    assert(val(x) * val(x) == val(v));
    assert(val(v) * (n - 1) == val(sq) - val(s) * val(mean));
    assert(val(mean) * n == val(s));
    let (a, b, c, d) = (val(x) * val(x), val(sq), val(s), val(mean));
    assert(n * (a * (n - 1)) == n * b - c * c) by (nonlinear_arith)
        requires
            a * (n - 1) == b - c * d,
            d * n == c,
    ;
}

// --------------------------------------------------------------- percentiles

/// A percentile lies between two neighbours in the order of the numbers: with the
/// rank `p / 100 * (n - 1)`, the number below it and the fraction of the way to the
/// number above it. Of one number it is that number, of none 0.
pub proof fn lemma_percentile_is_between(p: u8, items: Seq<Item>, log: Log)
    ensures
        one_pass(AggFunc::Pct(p), items).number(log) matches Ok(x) ==> doubles(
            numbers(items),
            numbers(items).len(),
            log,
        ) matches Ok(xs) && exists|v: Seq<F64>|
            #![trigger v.to_multiset()]
            {
                &&& v.to_multiset() == xs.to_multiset()
                &&& v.len() == xs.len()
                &&& forall|i: int, j: int|
                    0 <= i <= j < v.len() ==> (#[trigger] v[i]).key() <= (#[trigger] v[j]).key()
                &&& v.len() == 0 ==> x.bits == 0
                &&& v.len() == 1 ==> x == v[0]
                &&& v.len() > 1 ==> between(log, v, p, x)
            },
{
    lemma_numbers_noted(AggFunc::Pct(p), items);
    if let Ok(x) = one_pass(AggFunc::Pct(p), items).number(log) {
        let xs = doubles(numbers(items), numbers(items).len(), log)->Ok_0;
        lemma_sorted_doubles(xs);
        let v = sorted_doubles(xs);
        if v.len() > 1 {
            let q = crate::agg::op2(ArithOp::Div, float_of(p as int), float_of(100), log)->Ok_0;
            let rank = crate::agg::op2(ArithOp::Mul, q, float_of(v.len() - 1), log)->Ok_0;
            let c = crate::host::float_answer(
                log,
                Query { op: HostOp::Ceil, args: seq![Datum::F64(rank)] },
            )->Ok_0;
            let top = v.len() - 1;
            let (lo, hi) = (index_at(truncated(rank), top), index_at(truncated(c), top));
            let frac = crate::agg::op2(ArithOp::Sub, rank, float_of(truncated(rank)), log)->Ok_0;
            let d = crate::agg::op2(ArithOp::Sub, v[hi], v[lo], log)->Ok_0;
            let t = crate::agg::op2(ArithOp::Mul, d, frac, log)->Ok_0;
            assert(tells(log, ArithOp::Div, float_of(p as int), float_of(100), q));
            assert(tells(log, ArithOp::Mul, q, float_of(v.len() - 1), rank));
            assert(tells(log, ArithOp::Sub, rank, float_of(truncated(rank)), frac));
            assert(tells(log, ArithOp::Sub, v[hi], v[lo], d));
            assert(tells(log, ArithOp::Mul, d, frac, t));
            assert(tells(log, ArithOp::Add, v[lo], t, x));
            assert(joins(log, v, rank, c, frac, d, t, x));
            assert(between(log, v, p, x));
        }
        assert(v.to_multiset() == xs.to_multiset());
    }
}

/// The place of a rank among `n` numbers: the rank itself, kept within the numbers.
pub open spec fn place_in(k: int, n: int) -> int {
    if k <= 0 {
        0
    } else if k >= n {
        n - 1
    } else {
        k
    }
}

/// A number at the fraction of the rank between the numbers below and above it.
pub open spec fn joins(log: Log, v: Seq<F64>, rank: F64, above: F64, frac: F64, d: F64, t: F64, x: F64) -> bool {
    let lo = v[place_in(truncated(rank), v.len() as int)];
    let hi = v[place_in(truncated(above), v.len() as int)];
    &&& answer(log, Query { op: HostOp::Ceil, args: seq![Datum::F64(rank)] }) == Some(
        Datum::F64(above),
    )
    &&& tells(log, ArithOp::Sub, rank, float_of(truncated(rank)), frac)
    &&& tells(log, ArithOp::Sub, hi, lo, d)
    &&& tells(log, ArithOp::Mul, d, frac, t)
    &&& tells(log, ArithOp::Add, lo, t, x)
}

/// The number at `p` hundredths of the way through ordered numbers.
pub open spec fn between(log: Log, v: Seq<F64>, p: u8, x: F64) -> bool {
    exists|q: F64, rank: F64, above: F64, frac: F64, d: F64, t: F64|
        #![trigger tells(log, ArithOp::Div, float_of(p as int), float_of(100), q), joins(log, v, rank, above, frac, d, t, x)]
        {
            &&& tells(log, ArithOp::Div, float_of(p as int), float_of(100), q)
            &&& tells(log, ArithOp::Mul, q, float_of(v.len() - 1), rank)
            &&& joins(log, v, rank, above, frac, d, t, x)
        }
}

// ------------------------------------------------------------------ decimals

/// There is a decimal among the values.
pub open spec fn has_decimal(items: Seq<Item>) -> bool {
    exists|i: int| 0 <= i < items.len() && (#[trigger] items[i]).0 is Dec
}

proof fn lemma_decimal_lane(func: AggFunc, items: Seq<Item>, s: u8)
    requires
        func is Sum || func is Avg || func is Min || func is Max,
        one_scale(items, s),
        sums_fit(0, items),
    ensures
        ({
            let l = one_pass(func, items).dec;
            &&& !l.overflow
            &&& l.scale == if has_decimal(items) {
                Some(s)
            } else {
                None
            }
            &&& l.sum == dec_total(items)
            &&& fits_i128(dec_total(items))
            &&& forall|i: int|
                0 <= i < items.len() ==> ((#[trigger] items[i]).0 matches Datum::Dec(d) ==> l.min
                    <= d.unscaled <= l.max)
            &&& has_decimal(items) ==> (exists|i: int|
                0 <= i < items.len() && ((#[trigger] items[i]).0 matches Datum::Dec(d)
                    && d.unscaled == l.min)) && (exists|i: int|
                0 <= i < items.len() && ((#[trigger] items[i]).0 matches Datum::Dec(d)
                    && d.unscaled == l.max))
            &&& !has_decimal(items) ==> l.min == i128::MAX && l.max == i128::MIN
        }),
    decreases items.len(),
{
    if items.len() > 0 {
        let up = items.drop_last();
        assert(items[items.len() - 1] == items.last());
        assert forall|n: int| 0 <= n <= up.len() implies fits_i128(
            0 + dec_total(#[trigger] up.take(n)),
        ) by {
            assert(up.take(n) =~= items.take(n));
        }
        assert(items.take(items.len() as int) =~= items);
        assert forall|i: int| 0 <= i < up.len() implies ((#[trigger] up[i]).0 matches Datum::Dec(d)
            ==> d.scale == s) by {
            assert(up[i] == items[i]);
        }
        lemma_decimal_lane(func, up, s);
        lemma_numbers_noted(func, up);
        let (l, m) = (one_pass(func, up).dec, one_pass(func, items).dec);
        if let Datum::Dec(d) = items.last().0 {
            assert(ten_to(0) == 1);
            assert(crate::value::rescaled(d, s as nat) == d.unscaled * 1);
            assert(crate::agg::at_scale(d, s) == Some(d.unscaled));
            assert(has_decimal(items));
        } else {
            assert(m == l);
        }
        if has_decimal(up) {
            let i = choose|i: int| 0 <= i < up.len() && (#[trigger] up[i]).0 is Dec;
            assert(items[i].0 is Dec);
            let a = choose|i: int|
                0 <= i < up.len() && ((#[trigger] up[i]).0 matches Datum::Dec(d) && d.unscaled
                    == l.min);
            let b = choose|i: int|
                0 <= i < up.len() && ((#[trigger] up[i]).0 matches Datum::Dec(d) && d.unscaled
                    == l.max);
            assert(items[a] == up[a] && items[b] == up[b]);
        } else if has_decimal(items) {
            let i = choose|i: int| 0 <= i < items.len() && (#[trigger] items[i]).0 is Dec;
            if i < up.len() {
                assert(up[i].0 is Dec);
            }
        }
        assert forall|i: int| 0 <= i < items.len() implies ((#[trigger] items[i]).0 matches Datum::Dec(
            d,
        ) ==> m.min <= d.unscaled <= m.max) by {
            if i < up.len() {
                assert(up[i] == items[i]);
            }
        }
    } else {
        assert(items.take(0) =~= items);
        assert(fits_i128(0 + dec_total(items.take(0))));
    }
}

/// The exact sum of decimals of one scale is their sum, and the exact extremes are
/// the least and the greatest of them.
pub proof fn lemma_decimals_exact(func: AggFunc, items: Seq<Item>, s: u8)
    requires
        func is Sum || func is Min || func is Max,
        one_scale(items, s),
        sums_fit(0, items),
        has_decimal(items),
    ensures
        one_pass(func, items).decimal() matches Some(x) && {
            &&& x.scale == s
            &&& func is Sum ==> x.unscaled == dec_total(items)
            &&& !(func is Sum) ==> (exists|i: int|
                0 <= i < items.len() && ((#[trigger] items[i]).0 matches Datum::Dec(d)
                    && d.unscaled == x.unscaled)) && forall|i: int|
                0 <= i < items.len() ==> ((#[trigger] items[i]).0 matches Datum::Dec(d)
                    ==> if func is Min {
                    x.unscaled <= d.unscaled
                } else {
                    x.unscaled >= d.unscaled
                })
        },
{
    lemma_decimal_lane(func, items, s);
    lemma_numbers_noted(func, items);
    let i = choose|i: int| 0 <= i < items.len() && (#[trigger] items[i]).0 is Dec;
    lemma_number_there(items, i);
}

proof fn lemma_number_there(items: Seq<Item>, i: int)
    requires
        0 <= i < items.len(),
        counts(items[i].0),
    ensures
        numbers(items).len() > 0,
    decreases items.len(),
{
    if i < items.len() - 1 {
        lemma_number_there(items.drop_last(), i);
    }
}

/// The exact mean of decimals has six digits more than they have, as far as a scale
/// reaches, and is as near to the quotient as such a decimal can be; of two equally
/// near it is the even one.
pub proof fn lemma_decimal_mean(items: Seq<Item>, s: u8)
    requires
        one_scale(items, s),
        sums_fit(0, items),
        numbers(items).len() <= i64::MAX,
    ensures
        one_pass(AggFunc::Avg, items).decimal() matches Some(x) ==> {
            let n = numbers(items).len() as int;
            let num = dec_total(items) * ten_to((x.scale - s) as nat);
            &&& n > 0
            &&& x.scale == if s <= 249 {
                s + 6
            } else {
                255
            }
            &&& -n <= 2 * (x.unscaled * n - num) <= n
            &&& (2 * (x.unscaled * n - num) == n || 2 * (x.unscaled * n - num) == -n)
                ==> x.unscaled % 2 == 0
        },
        has_decimal(items) && fits_i128(
            dec_total(items) * ten_to(
                (if s <= 249 {
                    6nat
                } else {
                    (255 - s) as nat
                }),
            ),
        ) ==> one_pass(AggFunc::Avg, items).decimal() is Some,
{
    lemma_decimal_lane(AggFunc::Avg, items, s);
    lemma_numbers_noted(AggFunc::Avg, items);
    let a = one_pass(AggFunc::Avg, items);
    let n = numbers(items).len() as int;
    if has_decimal(items) {
        let i = choose|i: int| 0 <= i < items.len() && (#[trigger] items[i]).0 is Dec;
        lemma_number_there(items, i);
        assert(mean_scale(s) - s == (if s <= 249 {
            6int
        } else {
            255 - s
        }));
        let num = dec_total(items) * ten_to((mean_scale(s) - s) as nat);
        lemma_half_even(num, n);
        if fits_i128(num) {
            lemma_half_even_fits(num, n);
        }
    }
}

/// Rounding half to even: the integer nearest to a quotient, the even one of two.
pub proof fn lemma_half_even(num: int, den: int)
    requires
        den > 0,
    ensures
        -den <= 2 * (half_even(num, den) * den - num) <= den,
        (2 * (half_even(num, den) * den - num) == den || 2 * (half_even(num, den) * den - num)
            == -den) ==> half_even(num, den) % 2 == 0,
{
    let (q, r) = (num / den, num % den);
    vstd::arithmetic::div_mod::lemma_fundamental_div_mod(num, den);
    assert(num == den * q + r);
    assert(0 <= r < den);
    assert((q + 1) * den == q * den + den) by (nonlinear_arith);
    assert(den * q == q * den) by (nonlinear_arith);
}

proof fn lemma_half_even_fits(num: int, den: int)
    requires
        den > 0,
        fits_i128(num),
    ensures
        fits_i128(half_even(num, den)),
{
    let h = half_even(num, den);
    lemma_half_even(num, den);
    if den == 1 {
        assert(num / 1 == num && num % 1 == 0);
    } else {
        assert(-(i128::MAX as int) - 1 <= h <= i128::MAX) by (nonlinear_arith)
            requires
                den >= 2,
                -den <= 2 * (h * den - num) <= den,
                -(i128::MAX as int) - 1 <= num <= i128::MAX,
        ;
    }
}

// ------------------------------------------------------------------ instants

/// The exact extremes of instants: one of them, and none before the least or after
/// the greatest.
pub proof fn lemma_instants_exact(func: AggFunc, items: Seq<Item>)
    requires
        func is Min || func is Max,
    ensures
        match one_pass(func, items).instant() {
            None => forall|i: int| 0 <= i < items.len() ==> !((#[trigger] items[i]).0 is DateTime),
            Some(t) => (exists|i: int|
                0 <= i < items.len() && ((#[trigger] items[i]).0 matches Datum::DateTime(d)
                    && d.ticks == t.ticks)) && (exists|i: int|
                0 <= i < items.len() && ((#[trigger] items[i]).0 matches Datum::DateTime(d)
                    && d.unit == t.unit)) && forall|i: int|
                0 <= i < items.len() ==> ((#[trigger] items[i]).0 matches Datum::DateTime(d)
                    ==> if func is Min {
                    t.ticks <= d.ticks
                } else {
                    t.ticks >= d.ticks
                }),
        },
{
    lemma_instant_lane(func, items);
    lemma_numbers_noted(func, items);
    if exists|i: int| 0 <= i < items.len() && (#[trigger] items[i]).0 is DateTime {
        let i = choose|i: int| 0 <= i < items.len() && (#[trigger] items[i]).0 is DateTime;
        lemma_number_there(items, i);
    }
}

proof fn lemma_instant_lane(func: AggFunc, items: Seq<Item>)
    requires
        func is Min || func is Max,
    ensures
        ({
            let l = one_pass(func, items).dt;
            match l.unit {
                None => l.min == i64::MAX && l.max == i64::MIN && forall|i: int|
                    0 <= i < items.len() ==> !((#[trigger] items[i]).0 is DateTime),
                Some(u) => (exists|i: int|
                    0 <= i < items.len() && ((#[trigger] items[i]).0 matches Datum::DateTime(d)
                        && d.ticks == l.min)) && (exists|i: int|
                    0 <= i < items.len() && ((#[trigger] items[i]).0 matches Datum::DateTime(d)
                        && d.ticks == l.max)) && (exists|i: int|
                    0 <= i < items.len() && ((#[trigger] items[i]).0 matches Datum::DateTime(d)
                        && d.unit == u)) && forall|i: int|
                    0 <= i < items.len() ==> ((#[trigger] items[i]).0 matches Datum::DateTime(d)
                        ==> l.min <= d.ticks <= l.max),
            }
        }),
    decreases items.len(),
{
    if items.len() > 0 {
        let up = items.drop_last();
        lemma_instant_lane(func, up);
        lemma_numbers_noted(func, up);
        assert(items[items.len() - 1] == items.last());
        let (l, m) = (one_pass(func, up).dt, one_pass(func, items).dt);
        assert forall|i: int| 0 <= i < up.len() implies #[trigger] items[i] == up[i] by {}
        if let Some(u) = l.unit {
            let a = choose|i: int|
                0 <= i < up.len() && ((#[trigger] up[i]).0 matches Datum::DateTime(d) && d.ticks
                    == l.min);
            let b = choose|i: int|
                0 <= i < up.len() && ((#[trigger] up[i]).0 matches Datum::DateTime(d) && d.ticks
                    == l.max);
            let c = choose|i: int|
                0 <= i < up.len() && ((#[trigger] up[i]).0 matches Datum::DateTime(d) && d.unit
                    == u);
            assert(items[a] == up[a] && items[b] == up[b] && items[c] == up[c]);
        }
        assert forall|i: int| 0 <= i < items.len() implies ((#[trigger] items[i]).0 matches Datum::DateTime(
            d,
        ) ==> m.min <= d.ticks <= m.max) by {
            if i < up.len() {
                assert(up[i] == items[i]);
            }
        }
        if m.unit is None {
            assert forall|i: int| 0 <= i < items.len() implies !((#[trigger] items[i]).0 is DateTime) by {
                if i < up.len() {
                    assert(up[i] == items[i]);
                }
            }
        }
    }
}

} // verus!
