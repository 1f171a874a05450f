//! Compiled predicates over the numeric lanes.
//!
//! A conjunction of `field <op> literal` comparisons is compiled once against a
//! chunk: each field becomes a column index and each literal a number. Running
//! it fills a byte mask column by column and turns the mask into row numbers.
//! What it keeps is what the row-wise interpreter keeps.
use vstd::prelude::*;
use crate::chunk::{index_in, index_of, lemma_index_in, Batch, Chunk, Column, Lane};
use crate::compare::{agree, as_float, cmp_ord, dec_cmp, dec_cmp_i128, decimal_rank, flip, flipped, lemma_flip_exchanges, numeric, satisfies};
use crate::eval::{comparison, direct, eval_predicate, exact_literal, holds, idx, place_at};
use crate::expr::{Access, CmpOp, Expr};
use crate::float::{Rank, F64};
use crate::host::{Answers, Ask, Log, Query};
use crate::rows::{kept, lemma_kept_stops};
use crate::value::{fits, pow10_i128, rescale_up, rescaled, ten_to, DataType, Datum, Decimal, Value};

verus! {

/// A compiled `column <op> literal` comparison on a numeric lane.
#[derive(Clone, Copy, Debug)]
pub struct NumCmp {
    pub col: usize,
    pub op: CmpOp,
    pub rhs: F64,
    /// The literal as an exact decimal, where it is one: a decimal lane never
    /// rounds it.
    pub rhs_dec: Option<Decimal>,
}

/// Does a cell pass a comparison? A missing cell does not.
pub open spec fn survives(p: NumCmp, d: Datum, log: Log) -> Result<bool, Query> {
    match d {
        Datum::Dec(x) => match p.rhs_dec {
            Some(lit) => match decimal_rank(x, lit, log) {
                Ok(rank) => Ok(satisfies(rank, p.op)),
                Err(q) => Err(q),
            },
            None => scalar(d, p, log),
        },
        Datum::I64(_) => scalar(d, p, log),
        Datum::F64(_) => scalar(d, p, log),
        Datum::Bool(_) => scalar(d, p, log),
        _ => Ok(false),
    }
}

/// The comparison of a cell's double with the literal's.
pub open spec fn scalar(d: Datum, p: NumCmp, log: Log) -> Result<bool, Query> {
    match numeric(d, log) {
        Err(q) => Err(q),
        Ok(None) => Ok(false),
        Ok(Some(x)) => Ok(satisfies(x.order(p.rhs), p.op)),
    }
}

/// A comparison of two doubles.
pub fn cmp_scalar(v: F64, op: CmpOp, rhs: F64) -> (r: bool)
    ensures
        r == satisfies(v.order(rhs), op),
{
    cmp_ord(v.compare(rhs), op)
}

/// Does a cell pass a comparison (see [`survives`])?
pub fn cell_survives(p: &NumCmp, v: &Value, host: &Answers) -> (r: Result<bool, Ask>)
    ensures
        agree(r, survives(*p, v@, host@), |a: bool, b: bool| a == b),
{
    match v {
        Value::Dec(x) => match p.rhs_dec {
            Some(lit) => dec_cmp(x.unscaled, x.scale, p.op, &lit, host),
            None => scalar_survives(p, v, host),
        },
        Value::I64(_) | Value::F64(_) | Value::Bool(_) => scalar_survives(p, v, host),
        _ => Ok(false),
    }
}

fn scalar_survives(p: &NumCmp, v: &Value, host: &Answers) -> (r: Result<bool, Ask>)
    ensures
        agree(r, scalar(v@, *p, host@), |a: bool, b: bool| a == b),
{
    match as_float(v, host) {
        Err(a) => Err(a),
        Ok(None) => Ok(false),
        Ok(Some(x)) => Ok(cmp_scalar(x, p.op, p.rhs)),
    }
}

// --------------------------------------------------------------- compiling

/// Is this the type of a lane that the kernel compares?
pub open spec fn kernel_lane(ty: DataType) -> bool {
    ty is I64 || ty is F64 || ty is Bool || ty is Decimal
}

/// The numeric column that an expression names.
pub open spec fn numeric_column(e: Expr, b: Batch) -> Option<int> {
    match e {
        Expr::Field { name, access } => if access is Fast {
            match index_in(b.fields, name@) {
                Some(i) => if kernel_lane(b.columns[i].dtype) {
                    Some(i)
                } else {
                    None
                },
                None => None,
            }
        } else {
            None
        },
        _ => None,
    }
}

/// The numeric column that an expression names (see [`numeric_column`]).
pub fn num_col(e: &Expr, chunk: &Chunk) -> (r: Option<usize>)
    requires
        chunk@.wf(),
    ensures
        match r {
            Some(i) => numeric_column(*e, chunk@) == Some(idx(i)) && i < chunk@.columns.len(),
            None => numeric_column(*e, chunk@) is None,
        },
{
    match e {
        Expr::Field { name, access } => match access {
            Access::Fast => match index_of(&chunk.fields, name.as_str()) {
                Some(i) => {
                    assert(chunk@.columns[idx(i)] == chunk.columns@[idx(i)]@);
                    match chunk.columns[i].dtype {
                        DataType::I64
                        | DataType::F64
                        | DataType::Bool
                        | DataType::Decimal { .. } => Some(i),
                        _ => None,
                    }
                },
                None => None,
            },
            _ => None,
        },
        _ => None,
    }
}

/// Is this a literal that the kernel compares with?
pub open spec fn numeric_literal(e: Expr) -> Option<Datum> {
    match e {
        Expr::Literal(v) => match v@ {
            Datum::I64(_) => Some(v@),
            Datum::F64(_) => Some(v@),
            Datum::Bool(_) => Some(v@),
            Datum::Dec(_) => Some(v@),
            _ => None,
        },
        _ => None,
    }
}

/// A literal's double; `None` where it is no number.
pub fn lit_num(e: &Expr, host: &Answers) -> (r: Result<Option<F64>, Ask>)
    ensures
        match (r, numeric_literal(*e)) {
            (Ok(None), None) => true,
            (Ok(Some(x)), Some(d)) => numeric(d, host@) == Ok::<Option<F64>, Query>(Some(x)),
            (Err(a), Some(d)) => numeric(d, host@) == Err::<Option<F64>, Query>(a@),
            _ => false,
        },
{
    match e {
        Expr::Literal(v) => match v {
            Value::I64(_) | Value::F64(_) | Value::Bool(_) | Value::Dec(_) => as_float(v, host),
            _ => Ok(None),
        },
        _ => Ok(None),
    }
}

/// A literal as an exact decimal: one written as a decimal, an integer or a
/// boolean.
pub fn lit_dec(e: &Expr) -> (r: Option<Decimal>)
    ensures
        r == exact_literal(*e),
{
    match e {
        Expr::Literal(Value::Dec(d)) => Some(*d),
        Expr::Literal(Value::I64(n)) => Some(whole(*n)),
        Expr::Literal(Value::Bool(b)) => Some(
            whole(
                if *b {
                    1
                } else {
                    0
                },
            ),
        ),
        _ => None,
    }
}

fn whole(n: i64) -> (r: Decimal)
    ensures
        r == (Decimal { unscaled: n as i128, scale: 0 }),
{
    Decimal { unscaled: n as i128, scale: 0 }
}

/// The comparison that `left <op> right` compiles to, of a column with a
/// literal or, with the operator turned round, of a literal with a column.
pub open spec fn compiled(left: Expr, op: CmpOp, right: Expr, b: Batch, p: NumCmp, log: Log) -> bool {
    ||| {
        &&& numeric_column(left, b) == Some(idx(p.col))
        &&& numeric_literal(right) is Some
        &&& numeric(numeric_literal(right)->0, log) == Ok::<Option<F64>, Query>(Some(p.rhs))
        &&& p.op == op
        &&& p.rhs_dec == exact_literal(right)
    }
    ||| {
        &&& numeric_column(right, b) == Some(idx(p.col))
        &&& numeric_literal(left) is Some
        &&& numeric(numeric_literal(left)->0, log) == Ok::<Option<F64>, Query>(Some(p.rhs))
        &&& p.op == flipped(op)
        &&& p.rhs_dec == exact_literal(left)
    }
}

/// Does `left <op> right` have the shape that the kernel compiles?
pub open spec fn compilable_pair(left: Expr, right: Expr, b: Batch) -> bool {
    ||| numeric_column(left, b) is Some && numeric_literal(right) is Some
    ||| numeric_column(right, b) is Some && numeric_literal(left) is Some
}

/// What `left <op> right` compiles to: a comparison, nothing where it has another
/// shape, or the question for the double of its literal.
pub open spec fn comparing(left: Expr, op: CmpOp, right: Expr, b: Batch, log: Log) -> Result<
    Option<NumCmp>,
    Query,
> {
    if numeric_column(left, b) is Some && numeric_literal(right) is Some {
        against(numeric_column(left, b)->0, op, right, log)
    } else if numeric_column(right, b) is Some && numeric_literal(left) is Some {
        against(numeric_column(right, b)->0, flipped(op), left, log)
    } else {
        Ok(None)
    }
}

/// The comparison of a column with a literal.
pub open spec fn against(col: int, op: CmpOp, lit: Expr, log: Log) -> Result<Option<NumCmp>, Query> {
    match numeric(numeric_literal(lit)->0, log) {
        Err(q) => Err(q),
        Ok(None) => Ok(None),
        Ok(Some(rhs)) => Ok(
            Some(NumCmp { col: place_at(col), op, rhs, rhs_dec: exact_literal(lit) }),
        ),
    }
}

/// What a predicate compiles to, its comparisons left to right: the first that has
/// another shape, or asks, decides.
pub open spec fn conjunction(e: Expr, b: Batch, log: Log) -> Result<Option<Seq<NumCmp>>, Query>
    decreases e,
{
    match e {
        Expr::And(x, y) => match conjunction(*x, b, log) {
            Err(q) => Err(q),
            Ok(None) => Ok(None),
            Ok(Some(s)) => match conjunction(*y, b, log) {
                Err(q) => Err(q),
                Ok(None) => Ok(None),
                Ok(Some(t)) => Ok(Some(s + t)),
            },
        },
        Expr::Compare { left, op, right } => match comparing(*left, op, *right, b, log) {
            Err(q) => Err(q),
            Ok(None) => Ok(None),
            Ok(Some(p)) => Ok(Some(seq![p])),
        },
        _ => Ok(None),
    }
}

/// What a list of predicates compiles to, in the same way.
pub open spec fn program(preds: Seq<Expr>, b: Batch, log: Log) -> Result<Option<Seq<NumCmp>>, Query>
    decreases preds.len(),
{
    if preds.len() == 0 {
        Ok(Some(Seq::empty()))
    } else {
        match program(preds.drop_last(), b, log) {
            Err(q) => Err(q),
            Ok(None) => Ok(None),
            Ok(Some(s)) => match conjunction(preds.last(), b, log) {
                Err(q) => Err(q),
                Ok(None) => Ok(None),
                Ok(Some(t)) => Ok(Some(s + t)),
            },
        }
    }
}

proof fn lemma_program_stops(preds: Seq<Expr>, n: int, b: Batch, log: Log)
    requires
        0 <= n <= preds.len(),
        !(program(preds.take(n), b, log) matches Ok(Some(_))),
    ensures
        program(preds, b, log) == program(preds.take(n), b, log),
    decreases preds.len() - n,
{
    if n == preds.len() {
        assert(preds.take(n) =~= preds);
    } else {
        assert(preds.take(n + 1).drop_last() =~= preds.take(n));
        lemma_program_stops(preds, n + 1, b, log);
    }
}

/// Compiles one comparison; `None` where it has another shape.
pub fn compile_cmp(left: &Expr, op: CmpOp, right: &Expr, chunk: &Chunk, host: &Answers) -> (r:
    Result<Option<NumCmp>, Ask>)
    requires
        chunk@.wf(),
    ensures
        r matches Ok(Some(p)) ==> compiled(*left, op, *right, chunk@, p, host@) && p.col
            < chunk@.columns.len(),
        r matches Ok(None) ==> !compilable_pair(*left, *right, chunk@),
        agree(
            r,
            comparing(*left, op, *right, chunk@, host@),
            |a: Option<NumCmp>, b: Option<NumCmp>| a == b,
        ),
{
    match num_col(left, chunk) {
        Some(col) => match lit_num(right, host) {
            Err(a) => {
                return Err(a);
            },
            Ok(Some(rhs)) => {
                return Ok(Some(NumCmp { col, op, rhs, rhs_dec: lit_dec(right) }));
            },
            Ok(None) => {},
        },
        None => {},
    }
    match num_col(right, chunk) {
        Some(col) => match lit_num(left, host) {
            Err(a) => Err(a),
            Ok(Some(rhs)) => Ok(
                Some(NumCmp { col, op: flip(op), rhs, rhs_dec: lit_dec(left) }),
            ),
            Ok(None) => Ok(None),
        },
        None => Ok(None),
    }
}

/// The comparisons of a conjunction, left to right; `None` for any other shape.
pub open spec fn leaves(e: Expr) -> Option<Seq<(Expr, CmpOp, Expr)>>
    decreases e,
{
    match e {
        Expr::And(a, b) => match (leaves(*a), leaves(*b)) {
            (Some(x), Some(y)) => Some(x + y),
            _ => None,
        },
        Expr::Compare { left, op, right } => Some(seq![(*left, op, *right)]),
        _ => None,
    }
}

/// The plan holds the compiled form of every comparison.
pub open spec fn plan_of(ls: Seq<(Expr, CmpOp, Expr)>, b: Batch, plan: Seq<NumCmp>, log: Log) -> bool {
    &&& ls.len() == plan.len()
    &&& forall|i: int|
        0 <= i < plan.len() ==> compiled(
            ls[i].0,
            ls[i].1,
            ls[i].2,
            b,
            #[trigger] plan[i],
            log,
        ) && plan[i].col < b.columns.len()
}

/// Every comparison of a conjunction can be compiled.
pub open spec fn all_compilable(ls: Seq<(Expr, CmpOp, Expr)>, b: Batch) -> bool {
    forall|i: int| 0 <= i < ls.len() ==> compilable_pair((#[trigger] ls[i]).0, ls[i].2, b)
}

/// Adds the compiled comparisons of a conjunction to a plan; `false` where the
/// expression is no conjunction that the kernel compares.
pub fn flatten_conj(e: &Expr, chunk: &Chunk, out: &mut Vec<NumCmp>, host: &Answers) -> (r: Result<
    bool,
    Ask,
>)
    requires
        chunk@.wf(),
    ensures
        r matches Ok(true) ==> leaves(*e) is Some && exists|add: Seq<NumCmp>|
            #![trigger plan_of(leaves(*e)->0, chunk@, add, host@)]
            plan_of(leaves(*e)->0, chunk@, add, host@) && final(out)@ == old(out)@ + add,
        r matches Ok(false) ==> !(leaves(*e) matches Some(ls) && all_compilable(ls, chunk@)),
        match (r, conjunction(*e, chunk@, host@)) {
            (Ok(true), Ok(Some(add))) => final(out)@ == old(out)@ + add,
            (Ok(false), Ok(None)) => true,
            (Err(a), Err(q)) => a@ == q,
            _ => false,
        },
    decreases *e,
{
    let ghost start = out@;
    match e {
        Expr::And(a, b) => {
            match flatten_conj(a, chunk, out, host) {
                Err(q) => {
                    return Err(q);
                },
                Ok(false) => {
                    proof {
                        if let (Some(x), Some(y)) = (leaves(**a), leaves(**b)) {
                            if all_compilable(x + y, chunk@) {
                                assert forall|i: int| 0 <= i < x.len() implies compilable_pair(
                                    (#[trigger] x[i]).0,
                                    x[i].2,
                                    chunk@,
                                ) by {
                                    assert((x + y)[i] == x[i]);
                                }
                            }
                        }
                    }
                    return Ok(false);
                },
                Ok(true) => {},
            }
            let ghost mid = out@;
            let ghost first = choose|add: Seq<NumCmp>|
                #![trigger plan_of(leaves(**a)->0, chunk@, add, host@)]
                plan_of(leaves(**a)->0, chunk@, add, host@) && mid == start + add;
            match flatten_conj(b, chunk, out, host) {
                Err(q) => Err(q),
                Ok(false) => {
                    proof {
                        if let (Some(x), Some(y)) = (leaves(**a), leaves(**b)) {
                            if all_compilable(x + y, chunk@) {
                                assert forall|i: int| 0 <= i < y.len() implies compilable_pair(
                                    (#[trigger] y[i]).0,
                                    y[i].2,
                                    chunk@,
                                ) by {
                                    assert((x + y)[x.len() + i] == y[i]);
                                }
                            }
                        }
                    }
                    Ok(false)
                },
                Ok(true) => {
                    proof {
                        let second = choose|add: Seq<NumCmp>|
                            #![trigger plan_of(leaves(**b)->0, chunk@, add, host@)]
                            plan_of(leaves(**b)->0, chunk@, add, host@) && out@ == mid + add;
                        let x = leaves(**a)->0;
                        let y = leaves(**b)->0;
                        assert(leaves(*e) == Some(x + y));
                        let add = first + second;
                        assert forall|i: int| 0 <= i < add.len() implies compiled(
                            (x + y)[i].0,
                            (x + y)[i].1,
                            (x + y)[i].2,
                            chunk@,
                            #[trigger] add[i],
                            host@,
                        ) && add[i].col < chunk@.columns.len() by {
                            if i < x.len() {
                                assert(add[i] == first[i]);
                            } else {
                                assert(add[i] == second[i - x.len()]);
                            }
                        }
                        assert(plan_of(leaves(*e)->0, chunk@, add, host@));
                        assert(out@ =~= start + add);
                        let (s, t) = (
                            conjunction(**a, chunk@, host@)->Ok_0->Some_0,
                            conjunction(**b, chunk@, host@)->Ok_0->Some_0,
                        );
                        assert(out@ =~= start + (s + t));
                    }
                    Ok(true)
                },
            }
        },
        Expr::Compare { left, op, right } => {
            match compile_cmp(left, *op, right, chunk, host) {
                Err(q) => Err(q),
                Ok(None) => {
                    proof {
                        let ls = leaves(*e)->0;
                        assert(ls[0] == (**left, *op, **right));
                    }
                    Ok(false)
                },
                Ok(Some(p)) => {
                    out.push(p);
                    proof {
                        let add = seq![p];
                        assert(add[0] == p);
                        assert(plan_of(leaves(*e)->0, chunk@, add, host@));
                        assert(out@ =~= start + add);
                    }
                    Ok(true)
                },
            }
        },
        _ => Ok(false),
    }
}

/// The comparisons of a list of conjunctions.
pub open spec fn all_leaves(preds: Seq<Expr>) -> Option<Seq<(Expr, CmpOp, Expr)>>
    decreases preds.len(),
{
    if preds.len() == 0 {
        Some(Seq::empty())
    } else {
        match (all_leaves(preds.drop_last()), leaves(preds.last())) {
            (Some(x), Some(y)) => Some(x + y),
            _ => None,
        }
    }
}

/// Compiles a conjunction of predicates against a chunk. `None` where one of
/// them is no conjunction of numeric comparisons, or where there is none.
pub fn compile(preds: &Vec<Expr>, chunk: &Chunk, host: &Answers) -> (r: Result<
    Option<Vec<NumCmp>>,
    Ask,
>)
    requires
        chunk@.wf(),
    ensures
        r matches Ok(Some(plan)) ==> plan@.len() > 0 && all_leaves(preds@) is Some && plan_of(
            all_leaves(preds@)->0,
            chunk@,
            plan@,
            host@,
        ),
        r matches Ok(None) ==> preds@.len() == 0 || !(all_leaves(preds@) matches Some(ls)
            && all_compilable(ls, chunk@)),
        match (r, program(preds@, chunk@, host@)) {
            (Ok(Some(plan)), Ok(Some(s))) => plan@ == s && preds@.len() > 0,
            (Ok(None), Ok(None)) => true,
            (Ok(None), Ok(Some(_))) => preds@.len() == 0,
            (Err(a), Err(q)) => a@ == q,
            _ => false,
        },
{
    let mut out: Vec<NumCmp> = Vec::new();
    for n in 0..preds.len()
        invariant
            chunk@.wf(),
            all_leaves(preds@.take(n as int)) is Some,
            plan_of(all_leaves(preds@.take(n as int))->0, chunk@, out@, host@),
            n > 0 ==> out@.len() > 0,
            program(preds@.take(n as int), chunk@, host@) == Ok::<Option<Seq<NumCmp>>, Query>(
                Some(out@),
            ),
    {
        let ghost before = out@;
        proof {
            assert(preds@.take(n + 1).drop_last() =~= preds@.take(n as int));
            assert(preds@.take(n + 1).last() == preds@[n as int]);
        }
        match flatten_conj(&preds[n], chunk, &mut out, host) {
            Err(q) => {
                proof {
                    lemma_program_stops(preds@, n + 1, chunk@, host@);
                }
                return Err(q);
            },
            Ok(false) => {
                proof {
                    lemma_program_stops(preds@, n + 1, chunk@, host@);
                    lemma_leaf_missing(preds@, n as int, chunk@);
                }
                return Ok(None);
            },
            Ok(true) => {},
        }
        proof {
            let add = choose|add: Seq<NumCmp>|
                #![trigger plan_of(leaves(preds@[n as int])->0, chunk@, add, host@)]
                plan_of(leaves(preds@[n as int])->0, chunk@, add, host@) && out@ == before + add;
            let x = all_leaves(preds@.take(n as int))->0;
            let y = leaves(preds@[n as int])->0;
            lemma_leaves_some(preds@[n as int]);
            assert(all_leaves(preds@.take(n + 1)) == Some(x + y));
            assert forall|i: int| 0 <= i < out@.len() implies compiled(
                (x + y)[i].0,
                (x + y)[i].1,
                (x + y)[i].2,
                chunk@,
                #[trigger] out@[i],
                host@,
            ) && out@[i].col < chunk@.columns.len() by {
                if i < x.len() {
                    assert(out@[i] == before[i]);
                } else {
                    assert(out@[i] == add[i - x.len()]);
                }
            }
        }
    }
    assert(preds@.take(preds@.len() as int) =~= preds@);
    if out.len() == 0 {
        Ok(None)
    } else {
        Ok(Some(out))
    }
}

proof fn lemma_leaves_some(e: Expr)
    ensures
        leaves(e) matches Some(ls) ==> ls.len() > 0,
    decreases e,
{
    if let Expr::And(a, b) = e {
        lemma_leaves_some(*a);
        lemma_leaves_some(*b);
    }
}

/// A predicate that cannot be compiled keeps the whole list from it.
proof fn lemma_leaf_missing(preds: Seq<Expr>, n: int, b: Batch)
    requires
        0 <= n < preds.len(),
        !(leaves(preds[n]) matches Some(ls) && all_compilable(ls, b)),
    ensures
        !(all_leaves(preds) matches Some(ls) && all_compilable(ls, b)),
    decreases preds.len(),
{
    if let (Some(x), Some(y)) = (all_leaves(preds.drop_last()), leaves(preds.last())) {
        if all_compilable(x + y, b) {
            assert forall|i: int| 0 <= i < x.len() implies compilable_pair(
                (#[trigger] x[i]).0,
                x[i].2,
                b,
            ) by {
                assert((x + y)[i] == x[i]);
            }
            assert forall|i: int| 0 <= i < y.len() implies compilable_pair(
                (#[trigger] y[i]).0,
                y[i].2,
                b,
            ) by {
                assert((x + y)[x.len() + i] == y[i]);
            }
            if n < preds.len() - 1 {
                lemma_leaf_missing(preds.drop_last(), n, b);
            }
        }
    }
}

// ----------------------------------------------------------------- running

/// A byte per row, set where the row's cell passes the comparison.
pub open spec fn mask_of(m: Seq<u8>, p: NumCmp, c: Lane, log: Log) -> bool {
    &&& m.len() == c.cells.len()
    &&& forall|i: int|
        0 <= i < m.len() ==> survives(p, c.cells[i], log) == Ok::<bool, Query>(
            (#[trigger] m[i]) != 0,
        )
}

/// A question that some cell's comparison asks.
pub open spec fn asked(q: Query, p: NumCmp, c: Lane, log: Log) -> bool {
    exists|i: int|
        0 <= i < c.cells.len() && survives(p, #[trigger] c.cells[i], log) == Err::<bool, Query>(q)
}

fn bit(b: bool) -> (r: u8)
    ensures
        (r != 0) == b,
{
    if b {
        1
    } else {
        0
    }
}

/// What the comparison of a decimal lane with a literal computes once: the
/// literal at the common scale, and the factor that lifts a cell to it.
pub open spec fn lifted_pair(lit: Decimal, scale: u8, lifted: Option<i128>, factor: Option<i128>) -> bool {
    let common = if scale >= lit.scale {
        scale
    } else {
        lit.scale
    };
    &&& lifted matches Some(u) ==> u == rescaled(lit, common as nat) && common - lit.scale <= 38
    &&& factor matches Some(f) ==> f == ten_to((common - scale) as nat) && common - scale <= 38
}

/// A decimal cell against an exact literal: a cell is multiplied only where the
/// literal is finer, and compared by itself where that does not fit.
fn dec_cell(x: Decimal, op: CmpOp, lit: Decimal, lifted: Option<i128>, factor: Option<i128>, host: &Answers) -> (r:
    Result<bool, Ask>)
    requires
        lifted_pair(lit, x.scale, lifted, factor),
    ensures
        agree(r, decimal_rank(x, lit, host@), |b, rank| b == satisfies(rank, op)),
{
    match (lifted, factor) {
        (Some(r), Some(f)) => if f == 1 {
            assert(x.unscaled * 1 == x.unscaled);
            Ok(dec_cmp_i128(x.unscaled, op, r))
        } else {
            match x.unscaled.checked_mul(f) {
                Some(u) => Ok(dec_cmp_i128(u, op, r)),
                None => dec_cmp(x.unscaled, x.scale, op, &lit, host),
            }
        },
        _ => dec_cmp(x.unscaled, x.scale, op, &lit, host),
    }
}

/// The mask of a decimal lane against an exact literal.
fn dec_mask(col: &Column, p: &NumCmp, scale: u8, lit: Decimal, host: &Answers) -> (r: Result<
    Vec<u8>,
    Ask,
>)
    requires
        col@.typed(),
        col.dtype == (DataType::Decimal { scale }),
        p.rhs_dec == Some(lit),
    ensures
        r matches Ok(m) ==> mask_of(m@, *p, col@, host@),
        r matches Err(a) ==> asked(a@, *p, col@, host@),
{
    let common: u8 = if scale >= lit.scale {
        scale
    } else {
        lit.scale
    };
    let lifted: Option<i128> = rescale_up(lit, common);
    let factor: Option<i128> = pow10_i128(common - scale);
    let mut m: Vec<u8> = Vec::new();
    for i in 0..col.cells.len()
        invariant
            col@.typed(),
            col.dtype == (DataType::Decimal { scale }),
            p.rhs_dec == Some(lit),
            lifted_pair(lit, scale, lifted, factor),
            m@.len() == i,
            forall|k: int|
                0 <= k < i ==> survives(*p, col@.cells[k], host@) == Ok::<bool, Query>(
                    (#[trigger] m@[k]) != 0,
                ),
    {
        assert(col@.cells[i as int] == col.cells@[i as int]@);
        assert(fits(col@.cells[i as int], col.dtype));
        let pass: Result<bool, Ask> = match &col.cells[i] {
            Value::Dec(x) => dec_cell(*x, p.op, lit, lifted, factor, host),
            v => cell_survives(p, v, host),
        };
        match pass {
            Ok(b) => {
                m.push(bit(b));
            },
            Err(a) => {
                return Err(a);
            },
        }
    }
    Ok(m)
}

/// The mask of a comparison over a chunk's column.
pub fn write_mask(p: &NumCmp, chunk: &Chunk, host: &Answers) -> (r: Result<Vec<u8>, Ask>)
    requires
        chunk@.wf(),
        p.col < chunk@.columns.len(),
    ensures
        r matches Ok(m) ==> mask_of(m@, *p, chunk@.columns[p.col as int], host@),
        r matches Err(a) ==> asked(a@, *p, chunk@.columns[p.col as int], host@),
{
    let col: &Column = &chunk.columns[p.col];
    assert(chunk@.columns[p.col as int] == col@);
    match (col.dtype, p.rhs_dec) {
        (DataType::Decimal { scale }, Some(lit)) => {
            return dec_mask(col, p, scale, lit, host);
        },
        _ => {},
    }
    let mut m: Vec<u8> = Vec::new();
    for i in 0..col.cells.len()
        invariant
            chunk@.columns[p.col as int] == col@,
            m@.len() == i,
            forall|k: int|
                0 <= k < i ==> survives(*p, col@.cells[k], host@) == Ok::<bool, Query>(
                    (#[trigger] m@[k]) != 0,
                ),
    {
        assert(col@.cells[i as int] == col.cells@[i as int]@);
        match cell_survives(p, &col.cells[i], host) {
            Ok(b) => {
                m.push(bit(b));
            },
            Err(a) => {
                return Err(a);
            },
        }
    }
    Ok(m)
}

/// Narrows a mask by a comparison.
pub fn and_mask(p: &NumCmp, chunk: &Chunk, mask: &mut Vec<u8>, host: &Answers) -> (r: Result<(), Ask>)
    requires
        chunk@.wf(),
        p.col < chunk@.columns.len(),
        old(mask)@.len() == chunk.len,
    ensures
        r is Ok ==> final(mask)@.len() == chunk.len && forall|i: int|
            #![trigger passes(*p, chunk@, i, host@)]
            0 <= i < chunk.len ==> passes(*p, chunk@, i, host@) is Ok && (final(mask)@[i] != 0)
                == (old(mask)@[i] != 0 && passes(*p, chunk@, i, host@)->Ok_0),
        r matches Err(a) ==> asked(a@, *p, chunk@.columns[p.col as int], host@) && final(mask)@
            == old(mask)@,
{
    match write_mask(p, chunk, host) {
        Err(a) => Err(a),
        Ok(m) => {
            let ghost c = chunk@.columns[p.col as int];
            assert(c.cells.len() == chunk.len);
            for i in 0..m.len()
                invariant
                    mask_of(m@, *p, c, host@),
                    mask@.len() == m@.len(),
                    old(mask)@.len() == m@.len(),
                    forall|k: int| i <= k < m@.len() ==> (#[trigger] mask@[k]) == old(mask)@[k],
                    forall|k: int|
                        0 <= k < i ==> ((#[trigger] mask@[k]) != 0) == (old(mask)@[k] != 0 && m@[k]
                            != 0),
            {
                if m[i] == 0 {
                    mask.set(i, 0);
                }
            }
            assert forall|i: int|
                #![trigger passes(*p, chunk@, i, host@)]
                0 <= i < chunk.len implies passes(
                *p,
                chunk@,
                i,
                host@,
            ) is Ok && (mask@[i] != 0) == (old(mask)@[i] != 0 && passes(
                *p,
                chunk@,
                i,
                host@,
            )->Ok_0) by {
                assert(survives(*p, c.cells[i], host@) == Ok::<bool, Query>(m@[i] != 0));
            }
            Ok(())
        },
    }
}

/// The numbers of the set bytes, in ascending order.
pub open spec fn set_bytes(mask: Seq<u8>) -> Result<Seq<usize>, Query> {
    kept(|i: int| Ok(mask[i] != 0), mask.len())
}

/// The numbers of the rows that a mask leaves, in ascending order.
pub fn compact_mask(mask: &Vec<u8>) -> (r: Vec<usize>)
    ensures
        set_bytes(mask@) == Ok::<Seq<usize>, Query>(r@),
{
    let ghost f = |i: int| Ok::<bool, Query>(mask@[i] != 0);
    let mut keep: Vec<usize> = Vec::new();
    for i in 0..mask.len()
        invariant
            f == (|i: int| Ok::<bool, Query>(mask@[i] != 0)),
            kept(f, i as nat) == Ok::<Seq<usize>, Query>(keep@),
    {
        if mask[i] != 0 {
            keep.push(i);
        }
    }
    keep
}

/// Does a row pass a comparison?
pub open spec fn passes(p: NumCmp, b: Batch, row: int, log: Log) -> Result<bool, Query> {
    survives(p, b.columns[p.col as int].cells[row], log)
}

/// A row passes every comparison of a plan.
pub open spec fn all_pass(plan: Seq<NumCmp>, b: Batch, row: int, log: Log) -> bool {
    forall|k: int|
        0 <= k < plan.len() ==> passes(#[trigger] plan[k], b, row, log) == Ok::<bool, Query>(true)
}

/// No comparison of a plan asks a question.
pub open spec fn all_known(plan: Seq<NumCmp>, b: Batch, row: int, log: Log) -> bool {
    forall|k: int| 0 <= k < plan.len() ==> passes(#[trigger] plan[k], b, row, log) is Ok
}

/// A plan of two parts is passed where both parts are.
proof fn lemma_split(plan: Seq<NumCmp>, k: int, b: Batch, row: int, log: Log)
    requires
        0 <= k <= plan.len(),
    ensures
        all_pass(plan, b, row, log) == (all_pass(plan.take(k), b, row, log) && all_pass(
            plan.skip(k),
            b,
            row,
            log,
        )),
        all_known(plan, b, row, log) == (all_known(plan.take(k), b, row, log) && all_known(
            plan.skip(k),
            b,
            row,
            log,
        )),
{
    let p = plan.take(k);
    let q = plan.skip(k);
    assert forall|i: int| 0 <= i < p.len() implies p[i] == #[trigger] plan[i] by {}
    assert forall|i: int| k <= i < plan.len() implies q[i - k] == #[trigger] plan[i] by {}
    assert forall|i: int| 0 <= i < q.len() implies #[trigger] q[i] == plan[k + i] by {}
}

/// Every comparison is of a column of the chunk.
pub open spec fn plan_fits(plan: Seq<NumCmp>, b: Batch) -> bool {
    forall|k: int| 0 <= k < plan.len() ==> (#[trigger] plan[k]).col < b.columns.len()
}

/// The rows of a chunk that pass every comparison of a plan, in order.
pub open spec fn surviving(plan: Seq<NumCmp>, b: Batch, log: Log) -> Result<Seq<usize>, Query> {
    kept(|row: int| Ok(all_pass(plan, b, row, log)), b.len)
}

/// Runs a compiled conjunction over a chunk: the numbers of the rows that pass,
/// in order. A question is one of those that a cell's comparison asks.
pub fn run(preds: &Vec<NumCmp>, chunk: &Chunk, host: &Answers) -> (r: Result<Vec<usize>, Ask>)
    requires
        chunk@.wf(),
        preds@.len() > 0,
        plan_fits(preds@, chunk@),
    ensures
        r matches Ok(keep) ==> {
            &&& surviving(preds@, chunk@, host@) == Ok::<Seq<usize>, Query>(keep@)
            &&& forall|row: int| 0 <= row < chunk.len ==> #[trigger] all_known(preds@, chunk@, row, host@)
        },
        r matches Err(a) ==> exists|k: int|
            0 <= k < preds@.len() && asked(
                a@,
                #[trigger] preds@[k],
                chunk@.columns[preds@[k].col as int],
                host@,
            ),
{
    let first: NumCmp = preds[0];
    let mut mask: Vec<u8> = match write_mask(&first, chunk, host) {
        Err(a) => {
            return Err(a);
        },
        Ok(m) => m,
    };
    assert(chunk@.columns[first.col as int].cells.len() == chunk.len);
    proof {
        let t = preds@.take(1);
        assert(t[0] == first);
        assert forall|row: int| 0 <= row < chunk.len implies #[trigger] masked(
            mask@,
            t,
            chunk@,
            row,
            host@,
        ) by {
            assert(passes(first, chunk@, row, host@) == Ok::<bool, Query>(mask@[row] != 0));
        }
    }
    let mut n: usize = 1;
    while n < preds.len()
        invariant
            1 <= n <= preds@.len(),
            chunk@.wf(),
            plan_fits(preds@, chunk@),
            mask@.len() == chunk.len,
            forall|row: int|
                0 <= row < chunk.len ==> #[trigger] masked(
                    mask@,
                    preds@.take(n as int),
                    chunk@,
                    row,
                    host@,
                ),
        decreases preds@.len() - n,
    {
        let ghost before = mask@;
        let p: NumCmp = preds[n];
        match and_mask(&p, chunk, &mut mask, host) {
            Err(a) => {
                return Err(a);
            },
            Ok(_) => {},
        }
        proof {
            let t = preds@.take(n as int);
            let u = preds@.take(n + 1);
            assert(u.take(n as int) =~= t);
            assert(u.skip(n as int) =~= seq![p]);
            assert forall|row: int| 0 <= row < chunk.len implies #[trigger] masked(
                mask@,
                u,
                chunk@,
                row,
                host@,
            ) by {
                assert(masked(before, t, chunk@, row, host@));
                lemma_split(u, n as int, chunk@, row, host@);
                assert(seq![p][0] == p);
                assert(all_pass(seq![p], chunk@, row, host@) == (passes(p, chunk@, row, host@)
                    == Ok::<bool, Query>(true)));
            }
        }
        n = n + 1;
    }
    let keep = compact_mask(&mask);
    proof {
        assert(preds@.take(preds@.len() as int) =~= preds@);
        let f = |i: int| Ok::<bool, Query>(mask@[i] != 0);
        let g = |row: int| Ok::<bool, Query>(all_pass(preds@, chunk@, row, host@));
        assert forall|row: int| 0 <= row < mask@.len() implies #[trigger] f(row) == g(row) by {
            assert(masked(mask@, preds@, chunk@, row, host@));
        }
        lemma_same_kept(f, g, mask@.len());
        assert forall|row: int| 0 <= row < chunk.len implies #[trigger] all_known(
            preds@,
            chunk@,
            row,
            host@,
        ) by {
            assert(masked(mask@, preds@, chunk@, row, host@));
        }
    }
    Ok(keep)
}

/// A mask's byte says whether a row passes a plan.
spec fn masked(mask: Seq<u8>, plan: Seq<NumCmp>, b: Batch, row: int, log: Log) -> bool {
    &&& all_known(plan, b, row, log)
    &&& (mask[row] != 0) == all_pass(plan, b, row, log)
}

/// Tests that agree on every row keep the same rows.
pub proof fn lemma_same_kept(
    f: spec_fn(int) -> Result<bool, Query>,
    g: spec_fn(int) -> Result<bool, Query>,
    n: nat,
)
    requires
        forall|i: int| 0 <= i < n ==> #[trigger] f(i) == g(i),
    ensures
        kept(f, n) == kept(g, n),
    decreases n,
{
    if n > 0 {
        lemma_same_kept(f, g, (n - 1) as nat);
    }
}

// ------------------------------------------- the kernel and the interpreter

/// All predicates hold in a row, by the interpreter: left to right, up to the
/// first that does not.
pub open spec fn passing(preds: Seq<Expr>, b: Batch, row: int, log: Log) -> Result<bool, Query>
    decreases preds.len(),
{
    if preds.len() == 0 {
        Ok(true)
    } else {
        match passing(preds.drop_last(), b, row, log) {
            Err(q) => Err(q),
            Ok(false) => Ok(false),
            Ok(true) => match holds(preds.last(), b, row, log) {
                Err(q) => Err(q),
                Ok(v) => Ok(v.0),
            },
        }
    }
}

/// A compiled comparison decides as the interpreter does.
proof fn lemma_leaf(left: Expr, op: CmpOp, right: Expr, b: Batch, row: int, p: NumCmp, log: Log)
    requires
        b.wf(),
        0 <= row < b.len,
        compiled(left, op, right, b, p, log),
        survives(p, b.columns[p.col as int].cells[row], log) is Ok,
    ensures
        direct(left, op, right, b, row, log) == Some(
            Ok::<(bool, nat), Query>(
                (survives(p, b.columns[p.col as int].cells[row], log)->Ok_0, 0nat),
            ),
        ),
{
    let c = b.columns[p.col as int];
    if numeric_column(left, b) == Some(idx(p.col)) {
        lemma_index_in(b.fields, left->Field_name@);
    }
    if numeric_column(right, b) == Some(idx(p.col)) {
        lemma_index_in(b.fields, right->Field_name@);
    }
    assert(c.typed());
    assert(fits(c.cells[row], c.dtype));
    lemma_flip_exchanges(Rank::Less, op);
    lemma_flip_exchanges(Rank::Equal, op);
    lemma_flip_exchanges(Rank::Greater, op);
}

/// The plan of two lists of comparisons is made of the plans of both.
proof fn lemma_plan_split(
    x: Seq<(Expr, CmpOp, Expr)>,
    y: Seq<(Expr, CmpOp, Expr)>,
    b: Batch,
    plan: Seq<NumCmp>,
    log: Log,
)
    requires
        plan_of(x + y, b, plan, log),
    ensures
        plan_of(x, b, plan.take(x.len() as int), log),
        plan_of(y, b, plan.skip(x.len() as int), log),
{
    let k = x.len() as int;
    let p = plan.take(k);
    let q = plan.skip(k);
    assert forall|i: int| 0 <= i < p.len() implies compiled(
        x[i].0,
        x[i].1,
        x[i].2,
        b,
        #[trigger] p[i],
        log,
    ) && p[i].col < b.columns.len() by {
        assert(p[i] == plan[i]);
        assert((x + y)[i] == x[i]);
    }
    assert forall|i: int| 0 <= i < q.len() implies compiled(
        y[i].0,
        y[i].1,
        y[i].2,
        b,
        #[trigger] q[i],
        log,
    ) && q[i].col < b.columns.len() by {
        assert(q[i] == plan[k + i]);
        assert((x + y)[k + i] == y[i]);
    }
}

/// A compiled conjunction decides as the interpreter does.
proof fn lemma_conjunction(e: Expr, b: Batch, row: int, plan: Seq<NumCmp>, log: Log)
    requires
        b.wf(),
        0 <= row < b.len,
        leaves(e) is Some,
        plan_of(leaves(e)->0, b, plan, log),
        all_known(plan, b, row, log),
    ensures
        holds(e, b, row, log) matches Ok(v) && v.0 == all_pass(plan, b, row, log) && v.1 == 0,
    decreases e,
{
    match e {
        Expr::And(l, r) => {
            let x = leaves(*l)->0;
            let y = leaves(*r)->0;
            let k = x.len() as int;
            lemma_plan_split(x, y, b, plan, log);
            lemma_split(plan, k, b, row, log);
            lemma_conjunction(*l, b, row, plan.take(k), log);
            lemma_conjunction(*r, b, row, plan.skip(k), log);
        },
        Expr::Compare { left, op, right } => {
            let ls = leaves(e)->0;
            assert(ls[0] == (*left, op, *right));
            let p = plan[0];
            assert(compiled(*left, op, *right, b, p, log));
            lemma_leaf(*left, op, *right, b, row, p, log);
            assert(passes(p, b, row, log) is Ok);
            assert(all_pass(plan, b, row, log) == passes(p, b, row, log)->Ok_0);
            assert(comparison(e, b, row, log) == Ok::<(bool, nat), Query>(
                (passes(p, b, row, log)->Ok_0, 0nat),
            ));
            assert(holds(e, b, row, log) == comparison(e, b, row, log));
        },
        _ => {},
    }
}

/// The kernel and the interpreter agree: where a list of predicates compiles to
/// a plan and no comparison of a row asks a question, all predicates hold in the
/// row exactly where it passes the plan.
pub proof fn lemma_kernel_agrees(preds: Seq<Expr>, b: Batch, row: int, plan: Seq<NumCmp>, log: Log)
    requires
        b.wf(),
        0 <= row < b.len,
        all_leaves(preds) is Some,
        plan_of(all_leaves(preds)->0, b, plan, log),
        all_known(plan, b, row, log),
    ensures
        passing(preds, b, row, log) == Ok::<bool, Query>(all_pass(plan, b, row, log)),
    decreases preds.len(),
{
    if preds.len() > 0 {
        let x = all_leaves(preds.drop_last())->0;
        let y = leaves(preds.last())->0;
        let k = x.len() as int;
        lemma_plan_split(x, y, b, plan, log);
        lemma_split(plan, k, b, row, log);
        lemma_kernel_agrees(preds.drop_last(), b, row, plan.take(k), log);
        lemma_conjunction(preds.last(), b, row, plan.skip(k), log);
    }
}

/// The rows in which all predicates hold, in order.
pub open spec fn selected(preds: Seq<Expr>, b: Batch, log: Log) -> Result<Seq<usize>, Query> {
    kept(|row: int| passing(preds, b, row, log), b.len)
}

/// Do all predicates hold in a row?
pub fn row_passes(preds: &Vec<Expr>, chunk: &Chunk, row: usize, host: &Answers) -> (r: Result<bool, Ask>)
    requires
        chunk@.wf(),
        row < chunk.len,
    ensures
        agree(r, passing(preds@, chunk@, row as int, host@), |a: bool, b: bool| a == b),
{
    for n in 0..preds.len()
        invariant
            chunk@.wf(),
            row < chunk.len,
            passing(preds@.take(n as int), chunk@, row as int, host@) == Ok::<bool, Query>(true),
    {
        proof {
            assert(preds@.take(n + 1).drop_last() =~= preds@.take(n as int));
        }
        match eval_predicate(&preds[n], chunk, row, host) {
            Err(a) => {
                proof {
                    lemma_passing_stops(preds@, chunk@, row as int, host@, n + 1);
                }
                return Err(a);
            },
            Ok(false) => {
                proof {
                    lemma_passing_stops(preds@, chunk@, row as int, host@, n + 1);
                }
                return Ok(false);
            },
            Ok(true) => {},
        }
    }
    assert(preds@.take(preds@.len() as int) =~= preds@);
    Ok(true)
}

proof fn lemma_passing_stops(preds: Seq<Expr>, b: Batch, row: int, log: Log, n: int)
    requires
        0 <= n <= preds.len(),
        passing(preds.take(n), b, row, log) != Ok::<bool, Query>(true),
    ensures
        passing(preds, b, row, log) == passing(preds.take(n), b, row, log),
    decreases preds.len(),
{
    if n < preds.len() {
        assert(preds.drop_last().take(n) =~= preds.take(n));
        lemma_passing_stops(preds.drop_last(), b, row, log, n);
    } else {
        assert(preds.take(n) =~= preds);
    }
}

/// The rows in which all predicates hold: by the kernel where they compile and
/// it needs no answer, else by the interpreter.
pub fn select_rows(preds: &Vec<Expr>, chunk: &Chunk, host: &Answers) -> (r: Result<Vec<usize>, Ask>)
    requires
        chunk@.wf(),
    ensures
        agree(r, selected(preds@, chunk@, host@), |a: Vec<usize>, b: Seq<usize>| a@ == b),
{
    let ghost f = |row: int| passing(preds@, chunk@, row, host@);
    match compile(preds, chunk, host) {
        Ok(Some(plan)) => {
            proof {
                assert(plan_fits(plan@, chunk@)) by {
                    assert forall|k: int| 0 <= k < plan@.len() implies (#[trigger] plan@[k]).col
                        < chunk@.columns.len() by {}
                }
            }
            match run(&plan, chunk, host) {
                Ok(keep) => {
                    proof {
                        let g = |row: int| Ok::<bool, Query>(
                            all_pass(plan@, chunk@, row, host@),
                        );
                        assert forall|row: int| 0 <= row < chunk@.len implies #[trigger] g(row)
                            == f(row) by {
                            assert(all_known(plan@, chunk@, row, host@));
                            lemma_kernel_agrees(preds@, chunk@, row, plan@, host@);
                        }
                        lemma_same_kept(g, f, chunk@.len);
                    }
                    return Ok(keep);
                },
                Err(_) => {},
            }
        },
        _ => {},
    }
    let mut keep: Vec<usize> = Vec::new();
    for row in 0..chunk.len
        invariant
            chunk@.wf(),
            f == (|row: int| passing(preds@, chunk@, row, host@)),
            kept(f, row as nat) == Ok::<Seq<usize>, Query>(keep@),
    {
        match row_passes(preds, chunk, row, host) {
            Err(a) => {
                proof {
                    lemma_kept_stops(f, (row + 1) as nat, chunk@.len);
                }
                return Err(a);
            },
            Ok(b) => {
                if b {
                    keep.push(row);
                }
            },
        }
    }
    Ok(keep)
}

} // verus!
