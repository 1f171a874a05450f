//! What expressions mean: connectives as truth tables, comparisons by the values on
//! both sides, arithmetic by integers, references by cells.
use vstd::prelude::*;
use crate::cast::{clean, rendered, Outcome};
use crate::chunk::{lemma_index_in, Batch};
use crate::compare::{compared, numeric};
use crate::eval::{arith, coalesce_from, comparison, concat_from, eval, eval_all, holds, lemma_direct_agrees, plain, plain_value};
use crate::expr::{Access, ArithOp, CmpOp, Expr, Func};
use crate::float::{float_of, Rank, F64};
use crate::host::{float_answer, HostOp, Log, Query};
use crate::orderlaws::{alphabetical, lemma_integers_ranked, lemma_texts_alphabetical};
use crate::value::{lemma_ten_to_adds, lemma_ten_to_pos, ten_to, DateTime, Datum, Decimal, Duration, TimeUnit, Value};

verus! {

// --------------------------------------------------------------- connectives

/// Either of two predicates holds just where one of them does: the second is asked
/// only where the first does not hold, and what fails in either is counted.
pub proof fn lemma_or_is_or(l: Expr, r: Expr, b: Batch, row: int, log: Log)
    ensures
        ({
            let e = Expr::Or(Box::new(l), Box::new(r));
            let v = holds(e, b, row, log);
            match (holds(l, b, row, log), holds(r, b, row, log)) {
                (Err(q), _) => v == Err::<(bool, nat), Query>(q),
                (Ok((true, n)), _) => v == Ok::<(bool, nat), Query>((true, n)),
                (Ok((false, n)), Err(q)) => v == Err::<(bool, nat), Query>(q),
                (Ok((false, n)), Ok((true, m))) => v == Ok::<(bool, nat), Query>((true, n + m)),
                (Ok((false, n)), Ok((false, m))) => v == Ok::<(bool, nat), Query>((false, n + m)),
            }
        }),
        ({
            let e = Expr::Or(Box::new(l), Box::new(r));
            match holds(e, b, row, log) {
                Ok((x, n)) => eval(e, b, row, log) == Ok::<(Datum, nat), Query>((Datum::Bool(x), n)),
                Err(q) => eval(e, b, row, log) == Err::<(Datum, nat), Query>(q),
            }
        }),
{
}

/// Both of two predicates hold just where each does: the second is asked only where
/// the first holds, and what fails in either is counted.
pub proof fn lemma_and_is_and(l: Expr, r: Expr, b: Batch, row: int, log: Log)
    ensures
        ({
            let e = Expr::And(Box::new(l), Box::new(r));
            let v = holds(e, b, row, log);
            match (holds(l, b, row, log), holds(r, b, row, log)) {
                (Err(q), _) => v == Err::<(bool, nat), Query>(q),
                (Ok((false, n)), _) => v == Ok::<(bool, nat), Query>((false, n)),
                (Ok((true, n)), Err(q)) => v == Err::<(bool, nat), Query>(q),
                (Ok((true, n)), Ok((true, m))) => v == Ok::<(bool, nat), Query>((true, n + m)),
                (Ok((true, n)), Ok((false, m))) => v == Ok::<(bool, nat), Query>((false, n + m)),
            }
        }),
        ({
            let e = Expr::And(Box::new(l), Box::new(r));
            match holds(e, b, row, log) {
                Ok((x, n)) => eval(e, b, row, log) == Ok::<(Datum, nat), Query>((Datum::Bool(x), n)),
                Err(q) => eval(e, b, row, log) == Err::<(Datum, nat), Query>(q),
            }
        }),
{
}

/// A value holds as a predicate just where it is `true`.
pub proof fn lemma_only_true_holds(e: Expr, b: Batch, row: int, log: Log)
    requires
        eval(e, b, row, log) is Ok,
    ensures
        holds(e, b, row, log) is Ok,
        holds(e, b, row, log)->Ok_0.0 == (eval(e, b, row, log)->Ok_0.0 == Datum::Bool(true)),
        holds(e, b, row, log)->Ok_0.1 == eval(e, b, row, log)->Ok_0.1,
{
}

// --------------------------------------------------------------- comparisons

/// What an operator says of two operands of which one is less, both are equal, or
/// neither.
pub open spec fn meets(op: CmpOp, less: bool, equal: bool) -> bool {
    match op {
        CmpOp::Eq => equal,
        CmpOp::Ne => !equal,
        CmpOp::Lt => less,
        CmpOp::Le => less || equal,
        CmpOp::Gt => !less && !equal,
        CmpOp::Ge => !less,
    }
}

/// An integer that a double holds exactly.
pub open spec fn exact_double(n: int) -> bool {
    -0x20_0000_0000_0000 <= n <= 0x20_0000_0000_0000
}

/// The integer of a value that counts by ones: an integer, or a truth value as 0 or 1.
pub open spec fn unit_count(d: Datum) -> Option<int> {
    match d {
        Datum::I64(n) => Some(n as int),
        Datum::Bool(b) => Some(
            if b {
                1
            } else {
                0
            },
        ),
        _ => None,
    }
}

/// Integers and truth values compare as numbers do.
pub proof fn lemma_integers_compare(l: Datum, op: CmpOp, r: Datum, log: Log)
    requires
        unit_count(l) is Some,
        unit_count(r) is Some,
        exact_double(unit_count(l)->0),
        exact_double(unit_count(r)->0),
    ensures
        compared(l, op, r, log) == Ok::<bool, Query>(
            meets(op, unit_count(l)->0 < unit_count(r)->0, unit_count(l)->0 == unit_count(r)->0),
        ),
{
    lemma_integers_ranked(unit_count(l)->0, unit_count(r)->0);
}

/// Texts compare as in the dictionary.
pub proof fn lemma_texts_compare(a: Seq<char>, op: CmpOp, b: Seq<char>, log: Log)
    ensures
        compared(Datum::Str(a), op, Datum::Str(b), log) == Ok::<bool, Query>(
            meets(op, alphabetical(a, b), a == b),
        ),
{
    lemma_texts_alphabetical(a, b);
}

/// Doubles compare by their order; with not-a-number nothing holds.
pub proof fn lemma_doubles_compare(x: F64, op: CmpOp, y: F64, log: Log)
    ensures
        compared(Datum::F64(x), op, Datum::F64(y), log) == Ok::<bool, Query>(
            !x.is_nan() && !y.is_nan() && meets(
                op,
                x.order(y) == Some(Rank::Less),
                x.order(y) == Some(Rank::Equal),
            ),
        ),
{
}

/// A double and an integer compare by the integer's double, on either side.
pub proof fn lemma_mixed_compare(x: F64, op: CmpOp, n: i64, log: Log)
    ensures
        compared(Datum::F64(x), op, Datum::I64(n), log) == compared(
            Datum::F64(x),
            op,
            Datum::F64(float_of(n as int)),
            log,
        ),
        compared(Datum::I64(n), op, Datum::F64(x), log) == compared(
            Datum::F64(float_of(n as int)),
            op,
            Datum::F64(x),
            log,
        ),
{
}

/// Instants compare by the time that they name, whatever their units: ticks by the
/// ticks of a second on the other side. Spans do too.
pub proof fn lemma_times_compare(a: i64, u: TimeUnit, op: CmpOp, b: i64, v: TimeUnit, log: Log)
    ensures
        ({
            let (x, y) = (a * v.per_sec(), b * u.per_sec());
            let verdict = Ok::<bool, Query>(meets(op, x < y, x == y));
            &&& compared(
                Datum::DateTime(DateTime { ticks: a, unit: u }),
                op,
                Datum::DateTime(DateTime { ticks: b, unit: v }),
                log,
            ) == verdict
            &&& compared(
                Datum::Duration(Duration { ticks: a, unit: u }),
                op,
                Datum::Duration(Duration { ticks: b, unit: v }),
                log,
            ) == verdict
        }),
{
    let (p, q) = (u.per_sec() as int, v.per_sec() as int);
    let (x, y) = (a as int, b as int);
    if p >= q {
        let k = p / q;
        assert(p == k * q && k >= 1);
        assert(x * q < y * p <==> x < y * k) by (nonlinear_arith)
            requires
                p == k * q,
                q >= 1,
        ;
        assert(x * q == y * p <==> x == y * k) by (nonlinear_arith)
            requires
                p == k * q,
                q >= 1,
        ;
        assert(p / p == 1);
        assert(x * (p / p) == x);
    } else {
        let k = q / p;
        assert(q == k * p && k >= 1);
        assert(x * q < y * p <==> x * k < y) by (nonlinear_arith)
            requires
                q == k * p,
                p >= 1,
        ;
        assert(x * q == y * p <==> x * k == y) by (nonlinear_arith)
            requires
                q == k * p,
                p >= 1,
        ;
        assert(q / q == 1);
        assert(y * (q / q) == y);
    }
    if p == q {
        assert(x * (p / q) == x && y * (q / p) == y);
    }
}

/// An instant or a span and an integer compare by the raw count, on either side.
pub proof fn lemma_ticks_compare(a: i64, u: TimeUnit, op: CmpOp, n: i64, log: Log)
    ensures
        ({
            let forth = Ok::<bool, Query>(meets(op, a < n, a == n));
            let back = Ok::<bool, Query>(meets(op, n < a, a == n));
            let t = Datum::DateTime(DateTime { ticks: a, unit: u });
            let s = Datum::Duration(Duration { ticks: a, unit: u });
            &&& compared(t, op, Datum::I64(n), log) == forth
            &&& compared(s, op, Datum::I64(n), log) == forth
            &&& compared(Datum::I64(n), op, t, log) == back
            &&& compared(Datum::I64(n), op, s, log) == back
        }),
{
}

/// A comparison with a missing side does not hold, whatever the operator.
pub proof fn lemma_missing_compares(d: Datum, op: CmpOp, log: Log)
    ensures
        compared(Datum::Null, op, d, log) == Ok::<bool, Query>(false),
        compared(d, op, Datum::Null, log) == Ok::<bool, Query>(false),
{
}

/// Exchanging the sides and the operator changes no comparison of integers, texts or
/// doubles.
pub proof fn lemma_sides_exchange(l: Datum, r: Datum, log: Log)
    requires
        (l is Str && r is Str) || ((l is I64 || l is F64 || l is Bool) && (r is I64 || r is F64
            || r is Bool)),
    ensures
        compared(l, CmpOp::Lt, r, log) == compared(r, CmpOp::Gt, l, log),
        compared(l, CmpOp::Le, r, log) == compared(r, CmpOp::Ge, l, log),
        compared(l, CmpOp::Eq, r, log) == compared(r, CmpOp::Eq, l, log),
        compared(l, CmpOp::Ne, r, log) == compared(r, CmpOp::Ne, l, log),
{
    if let (Datum::Str(a), Datum::Str(b)) = (l, r) {
        lemma_texts_alphabetical(a, b);
        lemma_texts_alphabetical(b, a);
    }
}

/// A comparison of two flat references or literals holds by their values, the cell of
/// a decimal column and an exact literal aside.
pub proof fn lemma_comparison_of_values(l: Expr, op: CmpOp, r: Expr, b: Batch, row: int, log: Log)
    requires
        plain(l),
        plain(r),
        !(plain_value(l, b, row) is Dec),
        !(plain_value(r, b, row) is Dec),
        compared(plain_value(l, b, row), op, plain_value(r, b, row), log) is Ok,
    ensures
        holds(Expr::Compare { left: Box::new(l), op, right: Box::new(r) }, b, row, log) == Ok::<
            (bool, nat),
            Query,
        >((compared(plain_value(l, b, row), op, plain_value(r, b, row), log)->Ok_0, 0)),
{
    lemma_direct_agrees(l, op, r, b, row, log);
    let e = Expr::Compare { left: Box::new(l), op, right: Box::new(r) };
    assert(eval(l, b, row, log) == clean(plain_value(l, b, row)));
    assert(eval(r, b, row, log) == clean(plain_value(r, b, row)));
    assert(holds(e, b, row, log) == comparison(e, b, row, log));
}

/// A cell of a decimal column meets an exact literal by the numbers that they write,
/// on either side: `a / 10^s` against `b / 10^t`, both brought to whole numbers.
pub proof fn lemma_decimals_compare(
    name: String,
    access: Access,
    cell: Decimal,
    op: CmpOp,
    lit: Decimal,
    b: Batch,
    row: int,
    log: Log,
)
    requires
        access is Fast || access is Dynamic,
        b.column(name@) matches Some(c) && c.cells[row] == Datum::Dec(cell),
        cell.scale <= 38,
        lit.scale <= 38,
        i128::MIN <= cell.unscaled * ten_to(lit.scale as nat) <= i128::MAX,
        i128::MIN <= lit.unscaled * ten_to(cell.scale as nat) <= i128::MAX,
    ensures
        ({
            let f = Expr::Field { name, access };
            let v = Expr::Literal(Value::Dec(lit));
            let (x, y) = (
                cell.unscaled * ten_to(lit.scale as nat),
                lit.unscaled * ten_to(cell.scale as nat),
            );
            &&& holds(Expr::Compare { left: Box::new(f), op, right: Box::new(v) }, b, row, log)
                == Ok::<(bool, nat), Query>((meets(op, x < y, x == y), 0))
            &&& holds(Expr::Compare { left: Box::new(v), op, right: Box::new(f) }, b, row, log)
                == Ok::<(bool, nat), Query>((meets(op, y < x, x == y), 0))
        }),
{
    let (s, t) = (cell.scale as nat, lit.scale as nat);
    lemma_ten_to_pos(s);
    lemma_ten_to_pos(t);
    let (x, y) = (cell.unscaled as int, lit.unscaled as int);
    if s >= t {
        let k = (s - t) as nat;
        lemma_ten_to_adds(k, t);
        lemma_ten_to_pos(k);
        let (p, q) = (ten_to(k), ten_to(t));
        assert(ten_to(s) == p * q);
        assert(x * q < y * (p * q) <==> x < y * p) by (nonlinear_arith)
            requires
                q >= 1,
        ;
        assert(x * q == y * (p * q) <==> x == y * p) by (nonlinear_arith)
            requires
                q >= 1,
        ;
        assert(i128::MIN <= y * p <= i128::MAX) by (nonlinear_arith)
            requires
                i128::MIN <= y * (p * q) <= i128::MAX,
                p >= 1,
                q >= 1,
        ;
        assert(x * ten_to(0) == x);
    } else {
        let k = (t - s) as nat;
        lemma_ten_to_adds(k, s);
        lemma_ten_to_pos(k);
        let (p, q) = (ten_to(k), ten_to(s));
        assert(ten_to(t) == p * q);
        assert(x * (p * q) < y * q <==> x * p < y) by (nonlinear_arith)
            requires
                q >= 1,
        ;
        assert(x * (p * q) == y * q <==> x * p == y) by (nonlinear_arith)
            requires
                q >= 1,
        ;
        assert(i128::MIN <= x * p <= i128::MAX) by (nonlinear_arith)
            requires
                i128::MIN <= x * (p * q) <= i128::MAX,
                p >= 1,
                q >= 1,
        ;
        assert(y * ten_to(0) == y);
    }
    let f = Expr::Field { name, access };
    let v = Expr::Literal(Value::Dec(lit));
    let e = Expr::Compare { left: Box::new(f), op, right: Box::new(v) };
    assert(holds(e, b, row, log) == comparison(e, b, row, log));
    let w = Expr::Compare { left: Box::new(v), op, right: Box::new(f) };
    assert(holds(w, b, row, log) == comparison(w, b, row, log));
}

// ---------------------------------------------------------------- arithmetic

/// Two integers agree up to the wrapping of 64 bits.
pub open spec fn wraps_to(n: int, r: i64) -> bool {
    exists|k: int| #[trigger] wrapped_by(n, r, k)
}

/// The number of turns between an integer and its wrapping.
pub open spec fn wrapped_by(n: int, r: i64, k: int) -> bool {
    n == r + k * 0x1_0000_0000_0000_0000
}

/// Sums, differences and products of integers and truth values are those of the
/// integers, around 64 bits where they do not fit.
pub proof fn lemma_integers_reckon(l: Datum, r: Datum, log: Log)
    requires
        unit_count(l) is Some,
        unit_count(r) is Some,
    ensures
        ({
            let (a, b) = (unit_count(l)->0, unit_count(r)->0);
            &&& arith(l, ArithOp::Add, r, log) matches Ok((Datum::I64(x), fails)) && fails == 0 && wraps_to(a + b, x)
            &&& arith(l, ArithOp::Sub, r, log) matches Ok((Datum::I64(x), fails)) && fails == 0 && wraps_to(a - b, x)
            &&& arith(l, ArithOp::Mul, r, log) matches Ok((Datum::I64(x), fails)) && fails == 0 && wraps_to(a * b, x)
        }),
{
    let (a, b) = (crate::eval::whole(l), crate::eval::whole(r));
    let s = a.wrapping_add(b);
    assert(exists|k: int| #[trigger] wrapped_by(a + b, s, k)) by {
        assert(wrapped_by(a + b, s, 0) || wrapped_by(a + b, s, 1) || wrapped_by(a + b, s, -1));
    }
    let d = a.wrapping_sub(b);
    assert(exists|k: int| #[trigger] wrapped_by(a - b, d, k)) by {
        assert(wrapped_by(a - b, d, 0) || wrapped_by(a - b, d, 1) || wrapped_by(a - b, d, -1));
    }
    let m = a.wrapping_mul(b);
    lemma_product_wraps(a, b);
    assert(wraps_to(a * b, m));
}

proof fn lemma_product_wraps(a: i64, b: i64)
    ensures
        wraps_to(a * b, a.wrapping_mul(b)),
{
    let n = a * b;
    let q = n / 0x1_0000_0000_0000_0000;
    let low = n % 0x1_0000_0000_0000_0000;
    assert(n == low + q * 0x1_0000_0000_0000_0000);
    let m = a.wrapping_mul(b);
    assert(wrapped_by(n, m, q) || wrapped_by(n, m, q + 1));
}

/// What is nearest needs no turn: a sum, difference or product that fits is exact.
pub proof fn lemma_fitting_is_exact(n: int, r: i64)
    requires
        wraps_to(n, r),
        i64::MIN <= n <= i64::MAX,
    ensures
        r == n,
{
}

/// The remainder of integers is that of division toward zero: the quotient times the
/// divisor and the remainder make up the dividend, the remainder is less than the
/// divisor in size, and has the dividend's sign. By zero it is missing, and counted.
pub proof fn lemma_remainder_reckons(a: i64, b: i64, log: Log)
    ensures
        b == 0 ==> arith(Datum::I64(a), ArithOp::Mod, Datum::I64(b), log) == Ok::<
            (Datum, nat),
            Query,
        >((Datum::Null, 1)),
        b != 0 ==> (arith(Datum::I64(a), ArithOp::Mod, Datum::I64(b), log) matches Ok(
            (Datum::I64(r), fails),
        ) && fails == 0 && {
            &&& exists|k: int| #[trigger] divided_by(a, b, k, r)
            &&& (if r < 0 {
                -r
            } else {
                r as int
            }) < (if b < 0 {
                -b
            } else {
                b as int
            })
            &&& r > 0 ==> a > 0
            &&& r < 0 ==> a < 0
        }),
{
    if b != 0 {
        let (x, y) = (a as int, b as int);
        let m = if y < 0 {
            -y
        } else {
            y
        };
        let p = if x < 0 {
            -x
        } else {
            x
        };
        let q = p / m;
        let r = p % m;
        assert(p == m * q + r) by (nonlinear_arith)
            requires
                q == p / m,
                r == p % m,
                m > 0,
        ;
        assert(0 <= r < m) by (nonlinear_arith)
            requires
                r == p % m,
                m > 0,
        ;
        assert(r <= p) by (nonlinear_arith)
            requires
                p == m * q + r,
                q == p / m,
                p >= 0,
                m > 0,
        ;
        let z = if x >= 0 {
            r
        } else {
            -r
        };
        let k = if (x >= 0) == (y > 0) {
            q
        } else {
            -q
        };
        assert(x == y * k + z) by (nonlinear_arith)
            requires
                p == m * q + r,
                p == if x < 0 {
                    -x
                } else {
                    x
                },
                m == if y < 0 {
                    -y
                } else {
                    y
                },
                z == if x >= 0 {
                    r
                } else {
                    -r
                },
                k == if (x >= 0) == (y > 0) {
                    q
                } else {
                    -q
                },
                y != 0,
        ;
        assert(divided_by(a, b, k, z as i64));
    }
}

/// The dividend is made up of the quotient times the divisor and the remainder.
pub open spec fn divided_by(a: i64, b: i64, k: int, r: i64) -> bool {
    a == b * k + r
}

/// A missing operand, or one that is no number, makes the result missing, without a
/// failure.
pub proof fn lemma_missing_reckons(d: Datum, op: ArithOp, log: Log)
    requires
        numeric(d, log) is Ok,
    ensures
        arith(Datum::Null, op, d, log) == clean(Datum::Null),
        arith(d, op, Datum::Null, log) == clean(Datum::Null),
        d is Str ==> arith(d, op, d, log) == clean(Datum::Null),
{
}

/// Doubles are reckoned by the host, operands in order; a division or remainder by
/// zero is missing and counted. An integer divides as its double does.
pub proof fn lemma_doubles_reckon(x: F64, op: ArithOp, y: F64, log: Log)
    ensures
        ({
            let z = arith(Datum::F64(x), op, Datum::F64(y), log);
            let q = Query { op: HostOp::Arith(op), args: seq![Datum::F64(x), Datum::F64(y)] };
            if (op is Div || op is Mod) && (y.bits == 0 || y.bits == 0x8000_0000_0000_0000) {
                z == Ok::<(Datum, nat), Query>((Datum::Null, 1))
            } else {
                match float_answer(log, q) {
                    Ok(v) => z == clean(Datum::F64(v)),
                    Err(e) => z == Err::<(Datum, nat), Query>(e),
                }
            }
        }),
        forall|n: i64, k: i64|
            #![trigger arith(Datum::I64(n), ArithOp::Div, Datum::I64(k), log)]
            arith(Datum::I64(n), ArithOp::Div, Datum::I64(k), log) == arith(
                Datum::F64(float_of(n as int)),
                ArithOp::Div,
                Datum::F64(float_of(k as int)),
                log,
            ),
        forall|n: i64|
            #![trigger arith(Datum::F64(x), op, Datum::I64(n), log)]
            arith(Datum::F64(x), op, Datum::I64(n), log) == arith(
                Datum::F64(x),
                op,
                Datum::F64(float_of(n as int)),
                log,
            ),
        forall|n: i64|
            #![trigger arith(Datum::I64(n), op, Datum::F64(x), log)]
            arith(Datum::I64(n), op, Datum::F64(x), log) == arith(
                Datum::F64(float_of(n as int)),
                op,
                Datum::F64(x),
                log,
            ),
{
}

/// The time of ticks of a unit, in nanoseconds.
pub open spec fn nanos(ticks: i64, unit: TimeUnit) -> int {
    ticks * (1_000_000_000int / unit.per_sec() as int)
}

/// Does the number stay off the ends of 64 bits, where sums of time are clamped?
pub open spec fn inside(n: i64) -> bool {
    i64::MIN < n < i64::MAX
}

proof fn lemma_lifted_nanos(t: int, from: TimeUnit, to: TimeUnit)
    requires
        to.per_sec() >= from.per_sec(),
    ensures
        crate::compare::lifted(t, from, to) * (1_000_000_000int / to.per_sec() as int) == t * (
        1_000_000_000int / from.per_sec() as int),
{
    let (x, y) = (from.per_sec() as int, to.per_sec() as int);
    let p = y / x;
    let q = 1_000_000_000int / y;
    assert(p * q == 1_000_000_000int / x) by (nonlinear_arith)
        requires
            x == 1 || x == 1_000 || x == 1_000_000 || x == 1_000_000_000,
            y == 1 || y == 1_000 || y == 1_000_000 || y == 1_000_000_000,
            x <= y,
            p == y / x,
            q == 1_000_000_000int / y,
    {
        if x == 1 {
        } else if x == 1_000 {
        } else if x == 1_000_000 {
        }
    }
    assert((t * p) * q == t * (p * q)) by (nonlinear_arith);
}

/// Sums and differences of instants and spans are those of the times that they name,
/// in the finer unit: a span added to an instant on either side, taken off it, the
/// span between two instants, and spans among themselves. Where the count reaches an
/// end of 64 bits it stays there.
pub proof fn lemma_times_reckon(a: i64, u: TimeUnit, b: i64, v: TimeUnit, log: Log)
    ensures
        ({
            let (t, s) = (
                Datum::DateTime(DateTime { ticks: a, unit: u }),
                Datum::Duration(Duration { ticks: b, unit: v }),
            );
            let (other, alike) = (
                Datum::DateTime(DateTime { ticks: b, unit: v }),
                Datum::Duration(Duration { ticks: a, unit: u }),
            );
            let (x, y) = (nanos(a, u), nanos(b, v));
            let fine = |w: TimeUnit| (w == u || w == v) && w.per_sec() >= u.per_sec() && w.per_sec()
                >= v.per_sec();
            &&& arith(t, ArithOp::Add, s, log) matches Ok((Datum::DateTime(z), fails)) && fails == 0 && fine(z.unit)
                && (inside(z.ticks) ==> nanos(z.ticks, z.unit) == x + y)
            &&& arith(s, ArithOp::Add, t, log) == arith(t, ArithOp::Add, s, log)
            &&& arith(t, ArithOp::Sub, s, log) matches Ok((Datum::DateTime(z), fails)) && fails == 0 && fine(z.unit)
                && (inside(z.ticks) ==> nanos(z.ticks, z.unit) == x - y)
            &&& arith(t, ArithOp::Sub, other, log) matches Ok((Datum::Duration(z), fails)) && fails == 0 && fine(z.unit)
                && (inside(z.ticks) ==> nanos(z.ticks, z.unit) == x - y)
            &&& arith(alike, ArithOp::Add, s, log) matches Ok((Datum::Duration(z), fails)) && fails == 0 && fine(z.unit)
                && (inside(z.ticks) ==> nanos(z.ticks, z.unit) == x + y)
            &&& arith(alike, ArithOp::Sub, s, log) matches Ok((Datum::Duration(z), fails)) && fails == 0 && fine(z.unit)
                && (inside(z.ticks) ==> nanos(z.ticks, z.unit) == x - y)
        }),
{
    let w = crate::compare::finer(u, v);
    lemma_lifted_nanos(a as int, u, w);
    lemma_lifted_nanos(b as int, v, w);
    let (p, q) = (crate::compare::lifted(a as int, u, w), crate::compare::lifted(b as int, v, w));
    let k = 1_000_000_000int / w.per_sec() as int;
    assert((p + q) * k == p * k + q * k) by (nonlinear_arith);
    assert((p - q) * k == p * k - q * k) by (nonlinear_arith);
}

/// A span times an integer, on either side, is that span so often, in its unit, up to
/// the ends of 64 bits.
pub proof fn lemma_span_repeats(a: i64, u: TimeUnit, n: i64, log: Log)
    ensures
        ({
            let s = Datum::Duration(Duration { ticks: a, unit: u });
            &&& arith(s, ArithOp::Mul, Datum::I64(n), log) matches Ok((Datum::Duration(z), fails)) && fails == 0
                && z.unit == u && (inside(z.ticks) ==> z.ticks == a * n)
                && (z.ticks == i64::MAX ==> a * n >= i64::MAX)
                && (z.ticks == i64::MIN ==> a * n <= i64::MIN)
            &&& arith(Datum::I64(n), ArithOp::Mul, s, log) == arith(
                s,
                ArithOp::Mul,
                Datum::I64(n),
                log,
            )
        }),
{
}

/// The arithmetic of two expressions is that of their values, failures added up.
pub proof fn lemma_arithmetic_of_values(l: Expr, op: ArithOp, r: Expr, b: Batch, row: int, log: Log)
    requires
        eval(l, b, row, log) is Ok,
        eval(r, b, row, log) is Ok,
        arith(eval(l, b, row, log)->Ok_0.0, op, eval(r, b, row, log)->Ok_0.0, log) is Ok,
    ensures
        ({
            let (x, y) = (eval(l, b, row, log)->Ok_0, eval(r, b, row, log)->Ok_0);
            let z = arith(x.0, op, y.0, log)->Ok_0;
            eval(Expr::Arith { left: Box::new(l), op, right: Box::new(r) }, b, row, log) == Ok::<
                (Datum, nat),
                Query,
            >((z.0, x.1 + y.1 + z.1))
        }),
{
}

// ---------------------------------------------------------------- references

/// A flat reference reads the cell of the first column of that name; a name that no
/// column has is missing, and so is a hole. A literal is itself. A reference by
/// position reads that column, and past the last one is missing and counted.
pub proof fn lemma_references_read_cells(b: Batch, name: String, access: Access, f: int, row: int, log: Log)
    requires
        access is Fast || access is Dynamic,
        b.fields.len() == b.columns.len(),
        b.columns.len() <= u32::MAX,
        0 <= f < b.fields.len(),
    ensures
        ({
            let e = Expr::Field { name, access };
            &&& b.fields[f].name == name@ && (forall|k: int|
                0 <= k < f ==> (#[trigger] b.fields[k]).name != name@) ==> eval(e, b, row, log)
                == clean(b.columns[f].cells[row])
            &&& (forall|k: int| 0 <= k < b.fields.len() ==> (#[trigger] b.fields[k]).name != name@)
                ==> eval(e, b, row, log) == clean(Datum::Null)
        }),
        eval(Expr::Hole(name), b, row, log) == clean(Datum::Null),
        eval(Expr::FieldAt(f as u32), b, row, log) == clean(b.columns[f].cells[row]),
        forall|i: u32|
            i >= b.columns.len() ==> #[trigger] eval(Expr::FieldAt(i), b, row, log) == Ok::<
                (Datum, nat),
                Query,
            >((Datum::Null, 1)),
        forall|v: Value| #[trigger] eval(Expr::Literal(v), b, row, log) == clean(v@),
{
    lemma_index_in(b.fields, name@);
}

/// A reference to the origin reads the uri, or its scheme; any other property, and one
/// of a chunk without an origin, is missing.
pub proof fn lemma_origin_read(b: Batch, name: String, row: int, log: Log)
    ensures
        ({
            let out = eval(Expr::Field { name, access: Access::Source }, b, row, log);
            &&& b.source is None ==> out == clean(Datum::Null)
            &&& b.source matches Some(uri) ==> {
                &&& name@ == seq!['u', 'r', 'i'] ==> out == clean(Datum::Str(uri))
                &&& name@ == seq!['s', 'c', 'h', 'e', 'm', 'e'] ==> out == clean(
                    Datum::Str(crate::strings::scheme(uri)),
                )
                &&& name@ != seq!['u', 'r', 'i'] && name@ != seq!['s', 'c', 'h', 'e', 'm', 'e'] ==> out
                    == clean(Datum::Null)
            }
        }),
{
    assert(seq!['u', 'r', 'i'].len() != seq!['s', 'c', 'h', 'e', 'm', 'e'].len());
}

/// A window on a text cell is its characters in that range; a range that the cell does
/// not have is missing and counted.
pub proof fn lemma_window_is_range(
    b: Batch,
    base: String,
    name: String,
    start: u32,
    end: u32,
    row: int,
    log: Log,
)
    requires
        b.column(base@) matches Some(c) && c.cells[row] is Str,
    ensures
        ({
            let s = b.column(base@)->0.cells[row]->Str_0;
            let out = eval(Expr::SubView { base, name, start, end }, b, row, log);
            if start <= end && end <= s.len() {
                &&& out matches Ok((Datum::Str(t), fails)) && fails == 0 && {
                    &&& t.len() == end - start
                    &&& forall|i: int| 0 <= i < t.len() ==> #[trigger] t[i] == s[start + i]
                }
            } else {
                out == Ok::<(Datum, nat), Query>((Datum::Null, 1))
            }
        }),
{
}

// ----------------------------------------------------------------- branching

/// The branches that do not hold, up to one that does.
pub open spec fn first_branch(branches: Seq<(Expr, Expr)>, k: int, b: Batch, row: int, log: Log) -> bool {
    &&& 0 <= k <= branches.len()
    &&& forall|i: int|
        0 <= i < k ==> (holds((#[trigger] branches[i]).0, b, row, log) matches Ok((x, n)) && !x && n
            == 0)
    &&& k < branches.len() ==> (holds(branches[k].0, b, row, log) matches Ok((x, n)) && x && n == 0)
}

/// A case expression has the value of its first branch that holds; where none does,
/// that of its default, or the empty text without one.
pub proof fn lemma_case_takes_first(
    branches: Vec<(Expr, Expr)>,
    default: Option<Box<Expr>>,
    k: int,
    b: Batch,
    row: int,
    log: Log,
)
    requires
        first_branch(branches@, k, b, row, log),
    ensures
        ({
            let out = eval(Expr::Case { branches, default }, b, row, log);
            if k < branches@.len() {
                out == eval(branches@[k].1, b, row, log)
            } else {
                match default {
                    Some(d) => out == eval(*d, b, row, log),
                    None => out == clean(Datum::Str(Seq::empty())),
                }
            }
        }),
{
    let e = Expr::Case { branches, default };
    lemma_case_skips(e, k, b, row, log, 0);
}

proof fn lemma_case_skips(e: Expr, k: int, b: Batch, row: int, log: Log, i: nat)
    requires
        e is Case,
        first_branch(e->branches@, k, b, row, log),
        i <= k,
    ensures
        crate::eval::case_from(e, b, row, log, i) == crate::eval::case_from(e, b, row, log, k as nat),
        k < e->branches@.len() ==> crate::eval::case_from(e, b, row, log, k as nat) == eval(
            e->branches@[k].1,
            b,
            row,
            log,
        ),
    decreases k - i,
{
    if i < k {
        lemma_case_skips(e, k, b, row, log, i + 1);
        assert(holds(e->branches@[i as int].0, b, row, log) matches Ok((x, n)) && !x && n == 0);
        let rest = crate::eval::case_from(e, b, row, log, i + 1);
    }
}

/// `coalesce` is the first argument that is not missing, and missing where all are.
pub proof fn lemma_coalesce_takes_first(args: Vec<Expr>, k: int, b: Batch, row: int, log: Log)
    requires
        0 <= k <= args@.len(),
        forall|i: int| 0 <= i < k ==> eval(#[trigger] args@[i], b, row, log) == clean(Datum::Null),
        k < args@.len() ==> (eval(args@[k], b, row, log) matches Ok((d, n)) && !(d is Null)),
    ensures
        eval(Expr::Func { func: Func::Coalesce, args }, b, row, log) == if k < args@.len() {
            eval(args@[k], b, row, log)
        } else {
            clean(Datum::Null)
        },
{
    let outs = eval_all(args, b, row, log);
    lemma_coalesce_skips(outs, k, 0);
}

proof fn lemma_coalesce_skips(outs: Seq<Outcome>, k: int, i: int)
    requires
        0 <= i <= k <= outs.len(),
        forall|j: int| 0 <= j < k ==> #[trigger] outs[j] == clean(Datum::Null),
        k < outs.len() ==> (outs[k] matches Ok((d, n)) && !(d is Null)),
    ensures
        coalesce_from(outs, i) == if k < outs.len() {
            outs[k]
        } else {
            clean(Datum::Null)
        },
    decreases k - i,
{
    if i < k {
        lemma_coalesce_skips(outs, k, i + 1);
        assert(outs[i] == clean(Datum::Null));
    }
}

/// `concat` is the texts of its arguments, one behind the other: it takes the text of
/// one more argument on at its end.
pub proof fn lemma_concat_appends(args: Vec<Expr>, more: Vec<Expr>, last: Expr, b: Batch, row: int, log: Log)
    requires
        more@ == args@.push(last),
        eval(Expr::Func { func: Func::Concat, args }, b, row, log) matches Ok((d, n)) && d is Str,
        eval(last, b, row, log) matches Ok((d, n)) && rendered(d, log) is Ok,
    ensures
        ({
            let before = eval(Expr::Func { func: Func::Concat, args }, b, row, log)->Ok_0;
            let one = eval(last, b, row, log)->Ok_0;
            eval(Expr::Func { func: Func::Concat, args: more }, b, row, log) == Ok::<
                (Datum, nat),
                Query,
            >((Datum::Str(before.0->Str_0 + rendered(one.0, log)->Ok_0), before.1 + one.1))
        }),
{
    let (outs, longer) = (eval_all(args, b, row, log), eval_all(more, b, row, log));
    assert(longer =~= outs.push(eval(last, b, row, log)));
    lemma_concat_more(outs, eval(last, b, row, log), 0, Seq::empty(), log);
}

proof fn lemma_concat_more(outs: Seq<Outcome>, one: Outcome, i: int, acc: Seq<char>, log: Log)
    requires
        0 <= i <= outs.len(),
        concat_from(outs, i, acc, log) is Ok,
        one matches Ok((d, n)) && rendered(d, log) is Ok,
    ensures
        concat_from(outs, i, acc, log) matches Ok((d, n)) && d is Str && concat_from(
            outs.push(one),
            i,
            acc,
            log,
        ) == Ok::<(Datum, nat), Query>(
            (Datum::Str(d->Str_0 + rendered(one->Ok_0.0, log)->Ok_0), n + one->Ok_0.1),
        ),
    decreases outs.len() - i,
{
    let all = outs.push(one);
    if i < outs.len() {
        let d = outs[i]->Ok_0;
        let s = rendered(d.0, log)->Ok_0;
        lemma_concat_more(outs, one, i + 1, acc + s, log);
        assert(all[i] == outs[i]);
    } else {
        assert(all[i] == one);
        let s = rendered(one->Ok_0.0, log)->Ok_0;
        assert(concat_from(all, i + 1, acc + s, log) == clean(Datum::Str(acc + s)));
    }
}

/// `concat` of nothing is the empty text.
pub proof fn lemma_concat_of_nothing(args: Vec<Expr>, b: Batch, row: int, log: Log)
    requires
        args@.len() == 0,
    ensures
        eval(Expr::Func { func: Func::Concat, args }, b, row, log) == clean(Datum::Str(Seq::empty())),
{
    let outs = eval_all(args, b, row, log);
    assert(concat_from(outs, 0, Seq::empty(), log) == clean(Datum::Str(Seq::empty())));
}

} // verus!
