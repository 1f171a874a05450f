//! A join and a group in one pass over the rows: no joined chunk is built, and
//! every key and aggregate is read from where it comes from.
use vstd::prelude::*;
use crate::agg::{needs_text, of_text, Item};
use crate::cast::{render, rendered};
use crate::chunk::{index_in, index_of, Batch, Chunk, FieldV};
use crate::compare::agree;
use crate::eval::holds;
use crate::expr::{Expr, Func, PathExpr};
use crate::flows::{ReadGroupShape, ShapeV, Step};
use crate::group::{agg_views, grouped, item_views, row_views, shaped, AggSpec, AggV, GroupBy, InputRow, RowV};
use crate::host::{Answers, Ask, Log, Query};
use crate::join::{gathered_side, join_pairs, lemma_pairs_fit, match_rows, pad, padding, right_name, side_fits, JoinKind, Pair};
use crate::kernel::{passing, row_passes};
use crate::plan::{NodeId, Op, PlanGraph};
use crate::select::{keys_of, row_keys};
use crate::text::{owned, same_text};
use crate::value::{texts, DataType, Datum, Value};

verus! {

// --------------------------------------------------------- columns in use

/// Two lists of names in one, where both are known.
pub open spec fn both(a: Option<Seq<Seq<char>>>, b: Option<Seq<Seq<char>>>) -> Option<
    Seq<Seq<char>>,
> {
    match (a, b) {
        (Some(x), Some(y)) => Some(x + y),
        _ => None,
    }
}

/// Every column that an expression reads, by name; `None` where it reads one by
/// its place.
pub open spec fn expr_cols(e: Expr) -> Option<Seq<Seq<char>>>
    decreases e, 1nat, 0nat,
{
    match e {
        Expr::Field { name, access } => Some(
            if access.column() {
                seq![name@]
            } else {
                Seq::empty()
            },
        ),
        Expr::FieldAt(_) => None,
        Expr::SubView { base, .. } => Some(seq![base@]),
        Expr::Path(p) => Some(seq![p.root@]),
        Expr::Literal(_) => Some(Seq::empty()),
        Expr::Hole(_) => Some(Seq::empty()),
        Expr::Compare { left, right, .. } => both(expr_cols(*left), expr_cols(*right)),
        Expr::Arith { left, right, .. } => both(expr_cols(*left), expr_cols(*right)),
        Expr::And(a, b) => both(expr_cols(*a), expr_cols(*b)),
        Expr::Or(a, b) => both(expr_cols(*a), expr_cols(*b)),
        Expr::Cast { expr, .. } => expr_cols(*expr),
        Expr::Func { args, .. } => args_cols(args, args@.len()),
        Expr::Case { branches, default } => both(
            case_cols(e, branches@.len()),
            match default {
                Some(d) => expr_cols(*d),
                None => Some(Seq::empty()),
            },
        ),
    }
}

/// Every column that the first `n` arguments read.
pub open spec fn args_cols(args: Vec<Expr>, n: nat) -> Option<Seq<Seq<char>>>
    decreases args, 0nat, n,
{
    if 0 < n <= args@.len() {
        both(args_cols(args, (n - 1) as nat), expr_cols(args@[n - 1]))
    } else {
        Some(Seq::empty())
    }
}

/// Every column that the first `n` branches of a case expression read.
pub open spec fn case_cols(e: Expr, n: nat) -> Option<Seq<Seq<char>>>
    decreases e, 0nat, n,
{
    match e {
        Expr::Case { branches, .. } => if 0 < n <= branches@.len() {
            both(
                case_cols(e, (n - 1) as nat),
                both(expr_cols(branches@[n - 1].0), expr_cols(branches@[n - 1].1)),
            )
        } else {
            Some(Seq::empty())
        },
        _ => Some(Seq::empty()),
    }
}

/// The names that a projection, a cast or keys list.
pub open spec fn op_cols(op: Op) -> Option<Seq<Seq<char>>> {
    match op {
        Op::Join { left_keys, .. } => Some(roots(left_keys@)),
        Op::Cast { casts } => Some(Seq::new(casts@.len(), |i: int| casts@[i].0@)),
        Op::Filter { pred } => expr_cols(pred),
        Op::FilterProject { preds, fields } => both(
            list_cols(preds@, preds@.len()),
            Some(
                match fields {
                    Some(f) => texts(f@),
                    None => Seq::empty(),
                },
            ),
        ),
        Op::Project { fields } => Some(texts(fields@)),
        Op::ProjectExpr { items, .. } => item_cols(items@, items@.len()),
        _ => None,
    }
}

/// The root columns of paths.
pub open spec fn roots(keys: Seq<PathExpr>) -> Seq<Seq<char>> {
    Seq::new(keys.len(), |i: int| keys[i].root@)
}

/// Every column that the first `n` expressions read.
pub open spec fn list_cols(es: Seq<Expr>, n: nat) -> Option<Seq<Seq<char>>>
    decreases n,
{
    if n == 0 {
        Some(Seq::empty())
    } else {
        both(list_cols(es, (n - 1) as nat), expr_cols(es[n - 1]))
    }
}

/// Every column that the first `n` items of a projection read.
pub open spec fn item_cols(es: Seq<(Expr, String)>, n: nat) -> Option<Seq<Seq<char>>>
    decreases n,
{
    if n == 0 {
        Some(Seq::empty())
    } else {
        both(item_cols(es, (n - 1) as nat), expr_cols(es[n - 1].0))
    }
}

/// The node of a step.
pub open spec fn step_node(s: Step) -> NodeId {
    match s {
        Step::Stateless(n) => n,
        Step::Broadcast { join, .. } => join,
    }
}

/// Every column that the first `n` steps read.
pub open spec fn path_cols(g: PlanGraph, path: Seq<Step>, n: nat) -> Option<Seq<Seq<char>>>
    decreases n,
{
    if n == 0 {
        Some(Seq::empty())
    } else {
        both(
            path_cols(g, path, (n - 1) as nat),
            op_cols(g.nodes@[step_node(path[n - 1]) as int].op),
        )
    }
}

/// Every column that a group reads.
pub open spec fn group_cols(op: Op) -> Option<Seq<Seq<char>>> {
    match op {
        Op::GroupBy { keys, aggs } => Some(
            roots(keys@) + Seq::new(aggs@.len(), |i: int| aggs@[i].col@),
        ),
        _ => None,
    }
}

/// Each name once, where it comes first.
pub open spec fn once(s: Seq<Seq<char>>) -> Seq<Seq<char>>
    decreases s.len(),
{
    if s.len() == 0 {
        Seq::empty()
    } else {
        let up = once(s.drop_last());
        if up.contains(s.last()) {
            up
        } else {
            up.push(s.last())
        }
    }
}

/// The columns that the steps and the group of a shape read, each once; `None`
/// where they cannot be listed.
pub open spec fn used_columns(g: PlanGraph, s: ShapeV) -> Option<Seq<Seq<char>>> {
    match both(path_cols(g, s.path, s.path.len()), group_cols(g.nodes@[s.group as int].op)) {
        Some(names) => Some(once(names)),
        None => None,
    }
}

/// Puts a name behind the others unless it is there.
fn put(out: &mut Vec<String>, name: &str, Ghost(all): Ghost<Seq<Seq<char>>>)
    requires
        texts(old(out)@) == once(all),
    ensures
        texts(final(out)@) == once(all.push(name@)),
{
    let ghost t = texts(out@);
    assert(all.push(name@).drop_last() =~= all);
    for i in 0..out.len()
        invariant
            t == texts(out@),
            forall|k: int| 0 <= k < i ==> (#[trigger] t[k]) != name@,
            t == once(all),
            all.push(name@).drop_last() == all,
            *out == *old(out),
    {
        assert(t[i as int] == out@[i as int]@);
        if same_text(out[i].as_str(), name) {
            assert(t.contains(name@));
            return;
        }
    }
    out.push(owned(name));
    assert(texts(out@) =~= t.push(name@));
}

/// What a collector has gathered agrees with what is owed.
spec fn holds_names(out: Seq<String>, all: Seq<Seq<char>>) -> bool {
    texts(out) == once(all)
}

/// Puts the columns that an expression reads behind the others; fails where it
/// reads one by its place.
fn put_expr(e: &Expr, out: &mut Vec<String>, Ghost(all): Ghost<Seq<Seq<char>>>) -> (r: bool)
    requires
        holds_names(old(out)@, all),
    ensures
        r == (expr_cols(*e) is Some),
        r ==> holds_names(final(out)@, all + expr_cols(*e)->Some_0),
    decreases *e,
{
    proof {
        assert(all + Seq::<Seq<char>>::empty() =~= all);
    }
    match e {
        Expr::Field { name, access } => {
            if access.is_column() {
                put(out, name.as_str(), Ghost(all));
                assert(all.push(name@) =~= all + seq![name@]);
            }
            true
        },
        Expr::FieldAt(_) => false,
        Expr::SubView { base, .. } => {
            put(out, base.as_str(), Ghost(all));
            assert(all.push(base@) =~= all + seq![base@]);
            true
        },
        Expr::Path(p) => {
            put(out, p.root.as_str(), Ghost(all));
            assert(all.push(p.root@) =~= all + seq![p.root@]);
            true
        },
        Expr::Literal(_) => true,
        Expr::Hole(_) => true,
        Expr::Compare { left, right, .. } => {
            if !put_expr(left, out, Ghost(all)) {
                return false;
            }
            let ghost now = all + expr_cols(**left)->Some_0;
            if !put_expr(right, out, Ghost(now)) {
                return false;
            }
            assert(now + expr_cols(**right)->Some_0 =~= all + expr_cols(*e)->Some_0);
            true
        },
        Expr::Arith { left, right, .. } => {
            if !put_expr(left, out, Ghost(all)) {
                return false;
            }
            let ghost now = all + expr_cols(**left)->Some_0;
            if !put_expr(right, out, Ghost(now)) {
                return false;
            }
            assert(now + expr_cols(**right)->Some_0 =~= all + expr_cols(*e)->Some_0);
            true
        },
        Expr::And(a, b) => {
            if !put_expr(a, out, Ghost(all)) {
                return false;
            }
            let ghost now = all + expr_cols(**a)->Some_0;
            if !put_expr(b, out, Ghost(now)) {
                return false;
            }
            assert(now + expr_cols(**b)->Some_0 =~= all + expr_cols(*e)->Some_0);
            true
        },
        Expr::Or(a, b) => {
            if !put_expr(a, out, Ghost(all)) {
                return false;
            }
            let ghost now = all + expr_cols(**a)->Some_0;
            if !put_expr(b, out, Ghost(now)) {
                return false;
            }
            assert(now + expr_cols(**b)->Some_0 =~= all + expr_cols(*e)->Some_0);
            true
        },
        Expr::Cast { expr, .. } => put_expr(expr, out, Ghost(all)),
        Expr::Func { args, .. } => {
            for n in 0..args.len()
                invariant
                    args_cols(*args, n as nat) is Some,
                    holds_names(out@, all + args_cols(*args, n as nat)->Some_0),
                    e matches Expr::Func { args: a0, .. } && a0 == *args,
                    decreases_to!(*e => *args),
            {
                proof {
                    assert(decreases_to!(*args => args@));
                    assert(decreases_to!(args@ => args@[n as int]));
                }
                let ghost now = all + args_cols(*args, n as nat)->Some_0;
                if !put_expr(&args[n], out, Ghost(now)) {
                    proof {
                        lemma_args_stop(*args, (n + 1) as nat, args@.len());
                    }
                    return false;
                }
                proof {
                    assert(now + expr_cols(args@[n as int])->Some_0 =~= all + args_cols(
                        *args,
                        (n + 1) as nat,
                    )->Some_0);
                }
            }
            true
        },
        Expr::Case { branches, default } => {
            for n in 0..branches.len()
                invariant
                    case_cols(*e, n as nat) is Some,
                    holds_names(out@, all + case_cols(*e, n as nat)->Some_0),
                    e matches Expr::Case { branches: b0, default: d0 } && b0 == *branches && d0
                        == *default,
                    decreases_to!(*e => *branches),
            {
                proof {
                    assert(decreases_to!(*branches => branches@));
                    assert(decreases_to!(branches@ => branches@[n as int]));
                    assert(decreases_to!(branches@[n as int] => branches@[n as int].0));
                    assert(decreases_to!(branches@[n as int] => branches@[n as int].1));
                }
                let ghost now = all + case_cols(*e, n as nat)->Some_0;
                if !put_expr(&branches[n].0, out, Ghost(now)) {
                    proof {
                        lemma_case_stop(*e, (n + 1) as nat, branches@.len());
                    }
                    return false;
                }
                let ghost mid = now + expr_cols(branches@[n as int].0)->Some_0;
                if !put_expr(&branches[n].1, out, Ghost(mid)) {
                    proof {
                        lemma_case_stop(*e, (n + 1) as nat, branches@.len());
                    }
                    return false;
                }
                proof {
                    assert(mid + expr_cols(branches@[n as int].1)->Some_0 =~= all + case_cols(
                        *e,
                        (n + 1) as nat,
                    )->Some_0);
                }
            }
            let ghost now = all + case_cols(*e, branches@.len())->Some_0;
            match default {
                Some(d) => {
                    if !put_expr(d, out, Ghost(now)) {
                        return false;
                    }
                    assert(now + expr_cols(**d)->Some_0 =~= all + expr_cols(*e)->Some_0);
                },
                None => {
                    assert(now =~= all + expr_cols(*e)->Some_0);
                },
            }
            true
        },
    }
}

proof fn lemma_args_stop(args: Vec<Expr>, n: nat, m: nat)
    requires
        n <= m <= args@.len(),
        args_cols(args, n) is None,
    ensures
        args_cols(args, m) is None,
    decreases m - n,
{
    if n < m {
        lemma_args_stop(args, n, (m - 1) as nat);
    }
}

proof fn lemma_case_stop(e: Expr, n: nat, m: nat)
    requires
        e is Case,
        n <= m <= e->branches@.len(),
        case_cols(e, n) is None,
    ensures
        case_cols(e, m) is None,
    decreases m - n,
{
    if n < m {
        lemma_case_stop(e, n, (m - 1) as nat);
    }
}

fn put_list(names: &Vec<String>, out: &mut Vec<String>, Ghost(all): Ghost<Seq<Seq<char>>>)
    requires
        holds_names(old(out)@, all),
    ensures
        holds_names(final(out)@, all + texts(names@)),
{
    let ghost t = texts(names@);
    assert(all + t.take(0) =~= all);
    for i in 0..names.len()
        invariant
            t == texts(names@),
            holds_names(out@, all + t.take(i as int)),
    {
        let ghost now = all + t.take(i as int);
        put(out, names[i].as_str(), Ghost(now));
        assert(t[i as int] == names@[i as int]@);
        assert(now.push(t[i as int]) =~= all + t.take(i + 1));
    }
    assert(t.take(names@.len() as int) =~= t);
}

fn put_roots(keys: &Vec<PathExpr>, out: &mut Vec<String>, Ghost(all): Ghost<Seq<Seq<char>>>)
    requires
        holds_names(old(out)@, all),
    ensures
        holds_names(final(out)@, all + roots(keys@)),
{
    let ghost t = roots(keys@);
    assert(all + t.take(0) =~= all);
    for i in 0..keys.len()
        invariant
            t == roots(keys@),
            holds_names(out@, all + t.take(i as int)),
    {
        let ghost now = all + t.take(i as int);
        put(out, keys[i].root.as_str(), Ghost(now));
        assert(now.push(t[i as int]) =~= all + t.take(i + 1));
    }
    assert(t.take(keys@.len() as int) =~= t);
}

fn put_aggs(aggs: &Vec<AggSpec>, out: &mut Vec<String>, Ghost(all): Ghost<Seq<Seq<char>>>)
    requires
        holds_names(old(out)@, all),
    ensures
        holds_names(final(out)@, all + Seq::new(aggs@.len(), |i: int| aggs@[i].col@)),
{
    let ghost t = Seq::new(aggs@.len(), |i: int| aggs@[i].col@);
    assert(all + t.take(0) =~= all);
    for i in 0..aggs.len()
        invariant
            t == Seq::new(aggs@.len(), |i: int| aggs@[i].col@),
            holds_names(out@, all + t.take(i as int)),
    {
        let ghost now = all + t.take(i as int);
        put(out, aggs[i].col.as_str(), Ghost(now));
        assert(now.push(t[i as int]) =~= all + t.take(i + 1));
    }
    assert(t.take(aggs@.len() as int) =~= t);
}

fn put_casts(
    casts: &Vec<(String, DataType)>,
    out: &mut Vec<String>,
    Ghost(all): Ghost<Seq<Seq<char>>>,
)
    requires
        holds_names(old(out)@, all),
    ensures
        holds_names(final(out)@, all + Seq::new(casts@.len(), |i: int| casts@[i].0@)),
{
    let ghost t = Seq::new(casts@.len(), |i: int| casts@[i].0@);
    assert(all + t.take(0) =~= all);
    for i in 0..casts.len()
        invariant
            t == Seq::new(casts@.len(), |i: int| casts@[i].0@),
            holds_names(out@, all + t.take(i as int)),
    {
        let ghost now = all + t.take(i as int);
        put(out, casts[i].0.as_str(), Ghost(now));
        assert(now.push(t[i as int]) =~= all + t.take(i + 1));
    }
    assert(t.take(casts@.len() as int) =~= t);
}

proof fn lemma_list_stop(es: Seq<Expr>, n: nat, m: nat)
    requires
        n <= m,
        list_cols(es, n) is None,
    ensures
        list_cols(es, m) is None,
    decreases m - n,
{
    if n < m {
        lemma_list_stop(es, n, (m - 1) as nat);
    }
}

proof fn lemma_item_stop(es: Seq<(Expr, String)>, n: nat, m: nat)
    requires
        n <= m,
        item_cols(es, n) is None,
    ensures
        item_cols(es, m) is None,
    decreases m - n,
{
    if n < m {
        lemma_item_stop(es, n, (m - 1) as nat);
    }
}

fn put_preds(preds: &Vec<Expr>, out: &mut Vec<String>, Ghost(all): Ghost<Seq<Seq<char>>>) -> (r:
    bool)
    requires
        holds_names(old(out)@, all),
    ensures
        r == (list_cols(preds@, preds@.len()) is Some),
        r ==> holds_names(final(out)@, all + list_cols(preds@, preds@.len())->Some_0),
{
    assert(all + Seq::<Seq<char>>::empty() =~= all);
    for n in 0..preds.len()
        invariant
            list_cols(preds@, n as nat) is Some,
            holds_names(out@, all + list_cols(preds@, n as nat)->Some_0),
    {
        let ghost now = all + list_cols(preds@, n as nat)->Some_0;
        if !put_expr(&preds[n], out, Ghost(now)) {
            proof {
                lemma_list_stop(preds@, (n + 1) as nat, preds@.len());
            }
            return false;
        }
        assert(now + expr_cols(preds@[n as int])->Some_0 =~= all + list_cols(
            preds@,
            (n + 1) as nat,
        )->Some_0);
    }
    true
}

fn put_items(
    items: &Vec<(Expr, String)>,
    out: &mut Vec<String>,
    Ghost(all): Ghost<Seq<Seq<char>>>,
) -> (r: bool)
    requires
        holds_names(old(out)@, all),
    ensures
        r == (item_cols(items@, items@.len()) is Some),
        r ==> holds_names(final(out)@, all + item_cols(items@, items@.len())->Some_0),
{
    assert(all + Seq::<Seq<char>>::empty() =~= all);
    for n in 0..items.len()
        invariant
            item_cols(items@, n as nat) is Some,
            holds_names(out@, all + item_cols(items@, n as nat)->Some_0),
    {
        let ghost now = all + item_cols(items@, n as nat)->Some_0;
        if !put_expr(&items[n].0, out, Ghost(now)) {
            proof {
                lemma_item_stop(items@, (n + 1) as nat, items@.len());
            }
            return false;
        }
        assert(now + expr_cols(items@[n as int].0)->Some_0 =~= all + item_cols(
            items@,
            (n + 1) as nat,
        )->Some_0);
    }
    true
}

fn put_op(op: &Op, out: &mut Vec<String>, Ghost(all): Ghost<Seq<Seq<char>>>) -> (r: bool)
    requires
        holds_names(old(out)@, all),
    ensures
        r == (op_cols(*op) is Some),
        r ==> holds_names(final(out)@, all + op_cols(*op)->Some_0),
{
    match op {
        Op::Join { left_keys, .. } => {
            put_roots(left_keys, out, Ghost(all));
            true
        },
        Op::Cast { casts } => {
            put_casts(casts, out, Ghost(all));
            true
        },
        Op::Filter { pred } => put_expr(pred, out, Ghost(all)),
        Op::FilterProject { preds, fields } => {
            if !put_preds(preds, out, Ghost(all)) {
                return false;
            }
            let ghost now = all + list_cols(preds@, preds@.len())->Some_0;
            match fields {
                Some(f) => {
                    put_list(f, out, Ghost(now));
                    assert(now + texts(f@) =~= all + op_cols(*op)->Some_0);
                },
                None => {
                    assert(now =~= all + op_cols(*op)->Some_0);
                },
            }
            true
        },
        Op::Project { fields } => {
            put_list(fields, out, Ghost(all));
            true
        },
        Op::ProjectExpr { items, .. } => put_items(items, out, Ghost(all)),
        _ => false,
    }
}

proof fn lemma_path_cols_stop(g: PlanGraph, path: Seq<Step>, n: nat, m: nat)
    requires
        n <= m,
        path_cols(g, path, n) is None,
    ensures
        path_cols(g, path, m) is None,
    decreases m - n,
{
    if n < m {
        lemma_path_cols_stop(g, path, n, (m - 1) as nat);
    }
}

/// Every step and the group are nodes of the graph.
pub open spec fn shape_in(g: PlanGraph, s: ShapeV) -> bool {
    &&& s.group < g.nodes@.len()
    &&& forall|i: int| 0 <= i < s.path.len() ==> step_node(#[trigger] s.path[i]) < g.nodes@.len()
}

/// The columns that the steps and the group of a shape read (see
/// [`used_columns`]): only these need be kept by a join on the way.
pub fn fused_used_columns(g: &PlanGraph, shape: &ReadGroupShape) -> (r: Option<Vec<String>>)
    requires
        shape_in(*g, shape@),
    ensures
        match r {
            Some(v) => used_columns(*g, shape@) == Some(texts(v@)),
            None => used_columns(*g, shape@) is None,
        },
{
    let ghost path = shape.path@;
    let mut used: Vec<String> = Vec::new();
    assert(texts(used@) =~= Seq::empty());
    for n in 0..shape.path.len()
        invariant
            shape_in(*g, shape@),
            path == shape.path@,
            path_cols(*g, path, n as nat) is Some,
            holds_names(used@, path_cols(*g, path, n as nat)->Some_0),
    {
        let ghost now = path_cols(*g, path, n as nat)->Some_0;
        assert(step_node(shape@.path[n as int]) < g.nodes@.len());
        let nid: NodeId = match shape.path[n] {
            Step::Stateless(k) => k,
            Step::Broadcast { join, .. } => join,
        };
        if !put_op(&g.nodes[nid].op, &mut used, Ghost(now)) {
            proof {
                lemma_path_cols_stop(*g, path, (n + 1) as nat, path.len());
            }
            return None;
        }
    }
    let ghost now = path_cols(*g, path, path.len())->Some_0;
    match &g.nodes[shape.group].op {
        Op::GroupBy { keys, aggs } => {
            put_roots(keys, &mut used, Ghost(now));
            let ghost mid = now + roots(keys@);
            put_aggs(aggs, &mut used, Ghost(mid));
            assert(mid + Seq::new(aggs@.len(), |i: int| aggs@[i].col@) =~= now + group_cols(
                g.nodes@[shape.group as int].op,
            )->Some_0);
            Some(used)
        },
        _ => None,
    }
}

// ------------------------------------------------------------ the plan

/// A reference to a column or a literal.
pub open spec fn leaf(e: Expr) -> bool {
    e is Field || e is Literal
}

/// A predicate that cannot fail to convert: comparisons of columns and
/// literals, and conjunctions of such.
pub open spec fn plain_pred(e: Expr) -> bool
    decreases e,
{
    match e {
        Expr::Compare { left, right, .. } => leaf(*left) && leaf(*right),
        Expr::And(a, b) => plain_pred(*a) && plain_pred(*b),
        _ => false,
    }
}

fn is_leaf(e: &Expr) -> (r: bool)
    ensures
        r == leaf(*e),
{
    matches!(e, Expr::Field { .. } | Expr::Literal(_))
}

fn is_plain_pred(e: &Expr) -> (r: bool)
    ensures
        r == plain_pred(*e),
    decreases *e,
{
    match e {
        Expr::Compare { left, right, .. } => is_leaf(left) && is_leaf(right),
        Expr::And(a, b) => is_plain_pred(a) && is_plain_pred(b),
        _ => false,
    }
}

/// Are all predicates of a filter plain?
pub open spec fn plain_filter(op: Op) -> bool {
    match op {
        Op::Filter { pred } => plain_pred(pred),
        Op::FilterProject { preds, fields } => fields is None && forall|i: int|
            0 <= i < preds@.len() ==> plain_pred(#[trigger] preds@[i]),
        _ => false,
    }
}

fn is_plain_filter(op: &Op) -> (r: bool)
    ensures
        r == plain_filter(*op),
{
    match op {
        Op::Filter { pred } => is_plain_pred(pred),
        Op::FilterProject { preds, fields } => {
            if fields.is_some() {
                return false;
            }
            for i in 0..preds.len()
                invariant
                    op matches Op::FilterProject { preds: p0, fields: f0 } && p0 == *preds && f0
                        == *fields,
                    fields is None,
                    forall|k: int| 0 <= k < i ==> plain_pred(#[trigger] preds@[k]),
            {
                if !is_plain_pred(&preds[i]) {
                    return false;
                }
            }
            true
        },
        _ => false,
    }
}

/// The one broadcast join on a path, where there is exactly one.
pub open spec fn one_broadcast(path: Seq<Step>, k: int) -> bool {
    &&& 0 <= k < path.len()
    &&& path[k] is Broadcast
    &&& forall|i: int| 0 <= i < path.len() && i != k ==> !((#[trigger] path[i]) is Broadcast)
}

/// Do the steps behind the join fit: plain filters, and at the very end at most
/// one projection?
pub open spec fn rest_fits(g: PlanGraph, path: Seq<Step>, k: int) -> bool {
    forall|i: int|
        k < i < path.len() ==> {
            let op = g.nodes@[step_node(#[trigger] path[i]) as int].op;
            plain_filter(op) || (op is ProjectExpr && i == path.len() - 1)
        }
}

/// Can the join and the group of a shape be run as one: there is one broadcast
/// join, the steps behind it fit, and the group keys are plain columns?
pub open spec fn fusable(g: PlanGraph, s: ShapeV, k: int) -> bool {
    &&& one_broadcast(s.path, k)
    &&& rest_fits(g, s.path, k)
    &&& g.nodes@[s.group as int].op is GroupBy
    &&& forall|i: int|
        0 <= i < g.nodes@[s.group as int].op->GroupBy_keys@.len() ==> (
        #[trigger] g.nodes@[s.group as int].op->GroupBy_keys@[i]).bare()
}

/// The join and the group of a shape as one: the place of the join on the path,
/// the join, its right side, the filters behind it, and the projection at the
/// end where there is one.
#[derive(Debug)]
pub struct FusedShapePlan {
    pub split: usize,
    pub join: NodeId,
    pub right: NodeId,
    pub filters: Vec<NodeId>,
    pub items: Option<NodeId>,
}

/// Does the plan name the steps of the shape?
pub open spec fn plan_of(g: PlanGraph, s: ShapeV, p: FusedShapePlan) -> bool {
    let k = p.split as int;
    let last = s.path.len() - 1;
    let projects = k < last && g.nodes@[step_node(s.path[last]) as int].op is ProjectExpr;
    let end = if projects {
        last
    } else {
        last + 1
    };
    &&& fusable(g, s, k)
    &&& s.path[k] == (Step::Broadcast { join: p.join, right: p.right })
    &&& p.filters@ == Seq::new((end - k - 1) as nat, |i: int| step_node(s.path[k + 1 + i]))
    &&& p.items == if projects {
        Some(step_node(s.path[last]))
    } else {
        None
    }
}

fn find_broadcast(path: &Vec<Step>) -> (r: Option<usize>)
    ensures
        match r {
            Some(k) => one_broadcast(path@, k as int),
            None => forall|k: int| !one_broadcast(path@, k),
        },
{
    let mut found: Option<usize> = None;
    for i in 0..path.len()
        invariant
            match found {
                Some(k) => k < i && path@[k as int] is Broadcast && forall|j: int|
                    0 <= j < i && j != k ==> !((#[trigger] path@[j]) is Broadcast),
                None => forall|j: int| 0 <= j < i ==> !((#[trigger] path@[j]) is Broadcast),
            },
    {
        if matches!(path[i], Step::Broadcast { .. }) {
            match found {
                Some(k) => {
                    proof {
                        assert forall|x: int| !one_broadcast(path@, x) by {
                            assert(path@[k as int] is Broadcast);
                            assert(path@[i as int] is Broadcast);
                        }
                    }
                    return None;
                },
                None => {
                    found = Some(i);
                },
            }
        }
    }
    found
}

fn keys_are_plain(op: &Op) -> (r: bool)
    ensures
        r == (op is GroupBy && forall|i: int|
            0 <= i < op->GroupBy_keys@.len() ==> (#[trigger] op->GroupBy_keys@[i]).bare()),
{
    match op {
        Op::GroupBy { keys, .. } => {
            for i in 0..keys.len()
                invariant
                    op matches Op::GroupBy { keys: k0, .. } && k0 == *keys,
                    forall|k: int| 0 <= k < i ==> (#[trigger] keys@[k]).bare(),
            {
                if !keys[i].is_bare() {
                    return false;
                }
            }
            true
        },
        _ => false,
    }
}

/// The join and the group of a shape as one, where that can be (see
/// [`fusable`]).
pub fn fused_shape_plan(g: &PlanGraph, shape: &ReadGroupShape) -> (r: Option<FusedShapePlan>)
    requires
        shape_in(*g, shape@),
    ensures
        match r {
            Some(p) => plan_of(*g, shape@, p),
            None => forall|k: int| !fusable(*g, shape@, k),
        },
{
    let split: usize = match find_broadcast(&shape.path) {
        None => {
            return None;
        },
        Some(k) => k,
    };
    let (join, right) = match shape.path[split] {
        Step::Broadcast { join, right } => (join, right),
        Step::Stateless(n) => (n, n),
    };
    let ghost path = shape.path@;
    let mut filters: Vec<NodeId> = Vec::new();
    let mut items: Option<NodeId> = None;
    let last: usize = shape.path.len() - 1;
    let mut i: usize = split + 1;
    while i < shape.path.len()
        invariant
            shape_in(*g, shape@),
            path == shape.path@,
            one_broadcast(path, split as int),
            last == path.len() - 1,
            split < i <= path.len(),
            items is Some ==> i == path.len() && split < last && items == Some(
                step_node(path[last as int]),
            ) && g.nodes@[step_node(path[last as int]) as int].op is ProjectExpr,
            items is None ==> (i == path.len() ==> !(split < last && g.nodes@[step_node(
                path[last as int],
            ) as int].op is ProjectExpr)),
            filters@.len() == (if items is Some {
                i - 1
            } else {
                i as int
            }) - split - 1,
            forall|j: int|
                0 <= j < filters@.len() ==> (#[trigger] filters@[j]) == step_node(
                    path[split + 1 + j],
                ),
            forall|j: int|
                split < j < i ==> {
                    let op = g.nodes@[step_node(#[trigger] path[j]) as int].op;
                    plain_filter(op) || (op is ProjectExpr && j == path.len() - 1)
                },
        decreases path.len() - i,
    {
        assert(step_node(shape@.path[i as int]) < g.nodes@.len());
        let n: NodeId = match shape.path[i] {
            Step::Stateless(n) => n,
            Step::Broadcast { join, .. } => join,
        };
        if is_plain_filter(&g.nodes[n].op) {
            filters.push(n);
        } else if matches!(&g.nodes[n].op, Op::ProjectExpr { .. }) && i == last {
            items = Some(n);
        } else {
            proof {
                assert forall|k: int| !fusable(*g, shape@, k) by {
                    if fusable(*g, shape@, k) {
                        assert(path[k] is Broadcast);
                        assert(k == split);
                        let op = g.nodes@[step_node(path[i as int]) as int].op;
                        assert(rest_fits(*g, path, k));
                    }
                }
            }
            return None;
        }
        i = i + 1;
    }
    if !keys_are_plain(&g.nodes[shape.group].op) {
        return None;
    }
    let p = FusedShapePlan { split, join, right, filters, items };
    proof {
        let k = split as int;
        let projects = k < last && g.nodes@[step_node(path[last as int]) as int].op is ProjectExpr;
        let end = if projects {
            last as int
        } else {
            last + 1
        };
        assert(p.filters@ =~= Seq::new((end - k - 1) as nat, |i: int| step_node(path[k + 1 + i])));
    }
    Some(p)
}

// ------------------------------------------------------------- the cells

/// Where a key or an aggregate of the fused pass comes from.
#[derive(Debug)]
pub enum FusedCell {
    Left(usize),
    Right(usize),
    CoalesceLeft(usize, String),
    CoalesceRight(usize, String),
    LitStr(String),
}

/// The cell of a right column; padded, as in the join, where there is no right
/// row.
pub open spec fn right_datum(r: Batch, ri: Option<usize>, ci: int) -> Datum {
    match ri {
        Some(row) => r.cell(row as int, ci),
        None => padding(r.columns[ci].dtype),
    }
}

/// The value of a cell for a left row and its right row, where it has one.
pub open spec fn fused_datum(c: FusedCell, l: Batch, li: int, r: Batch, ri: Option<usize>) -> Datum {
    match c {
        FusedCell::Left(ci) => l.cell(li, ci as int),
        FusedCell::Right(ci) => right_datum(r, ri, ci as int),
        FusedCell::CoalesceLeft(ci, lit) => if l.cell(li, ci as int) is Null {
            Datum::Str(lit@)
        } else {
            l.cell(li, ci as int)
        },
        FusedCell::CoalesceRight(ci, lit) => if right_datum(r, ri, ci as int) is Null {
            Datum::Str(lit@)
        } else {
            right_datum(r, ri, ci as int)
        },
        FusedCell::LitStr(s) => Datum::Str(s@),
    }
}

/// The cell names a column of its side.
pub open spec fn cell_in(c: FusedCell, l: Batch, r: Batch) -> bool {
    match c {
        FusedCell::Left(ci) => ci < l.columns.len(),
        FusedCell::Right(ci) => ci < r.columns.len(),
        FusedCell::CoalesceLeft(ci, _) => ci < l.columns.len(),
        FusedCell::CoalesceRight(ci, _) => ci < r.columns.len(),
        FusedCell::LitStr(_) => true,
    }
}

fn right_value(r: &Chunk, ri: Option<usize>, ci: usize) -> (v: Value)
    requires
        r@.wf(),
        ri matches Some(row) ==> row < r.len,
        ci < r@.columns.len(),
    ensures
        v@ == right_datum(r@, ri, ci as int),
{
    match ri {
        Some(row) => r.value(row, ci),
        None => {
            assert(r@.columns[ci as int] == r.columns@[ci as int]@);
            pad(r.columns[ci].dtype)
        },
    }
}

/// The value of a cell (see [`fused_datum`]).
pub fn fused_value(c: &FusedCell, l: &Chunk, li: usize, r: &Chunk, ri: Option<usize>) -> (v: Value)
    requires
        l@.wf(),
        r@.wf(),
        li < l.len,
        ri matches Some(row) ==> row < r.len,
        cell_in(*c, l@, r@),
    ensures
        v@ == fused_datum(*c, l@, li as int, r@, ri),
{
    match c {
        FusedCell::Left(ci) => l.value(li, *ci),
        FusedCell::Right(ci) => right_value(r, ri, *ci),
        FusedCell::CoalesceLeft(ci, lit) => {
            let v: Value = l.value(li, *ci);
            match v {
                Value::Null => Value::Str(lit.clone()),
                _ => v,
            }
        },
        FusedCell::CoalesceRight(ci, lit) => {
            let v: Value = right_value(r, ri, *ci);
            match v {
                Value::Null => Value::Str(lit.clone()),
                _ => v,
            }
        },
        FusedCell::LitStr(s) => Value::Str(s.clone()),
    }
}

/// A plain cell is what the join puts into that column: the fused pass reads
/// from the sides what the joined chunk would hold.
pub proof fn lemma_fused_reads_join(l: Batch, r: Batch, pairs: Seq<Pair>, i: int, ci: int)
    requires
        0 <= i < pairs.len(),
        pairs[i].0 is Some,
    ensures
        0 <= ci < l.columns.len() ==> fused_datum(
            FusedCell::Left(ci as usize),
            l,
            pairs[i].0->Some_0 as int,
            r,
            pairs[i].1,
        ) == gathered_side(l.columns[ci], pairs, false).cells[i] || ci > usize::MAX,
        0 <= ci < r.columns.len() ==> fused_datum(
            FusedCell::Right(ci as usize),
            l,
            pairs[i].0->Some_0 as int,
            r,
            pairs[i].1,
        ) == gathered_side(r.columns[ci], pairs, true).cells[i] || ci > usize::MAX,
{
}


// ---------------------------------------------------------- resolution

/// The right column that has that name in the join, among the first `n`: not a
/// key, and with the suffix where the left has a column of its name.
pub open spec fn right_place(l: Batch, r: Batch, rk: Seq<usize>, name: Seq<char>, n: nat) -> Option<
    int,
>
    decreases n,
{
    if n == 0 {
        None
    } else {
        match right_place(l, r, rk, name, (n - 1) as nat) {
            Some(i) => Some(i),
            None => if !rk.contains((n - 1) as usize) && right_name(l, r.fields[n - 1].name) == name {
                Some(n - 1)
            } else {
                None
            },
        }
    }
}

/// Where the join has a column of that name from.
pub enum Place {
    Left(int),
    Right(int),
    Nowhere,
}

/// Where the join has a column of that name from: the left, else the right.
pub open spec fn place_in_join(l: Batch, r: Batch, rk: Seq<usize>, name: Seq<char>) -> Place {
    match index_in(l.fields, name) {
        Some(i) => Place::Left(i),
        None => match right_place(l, r, rk, name, r.fields.len()) {
            Some(i) => Place::Right(i),
            None => Place::Nowhere,
        },
    }
}

/// Does a cell read what an expression over the join means: a column, a text,
/// or a text column with a text in the place of nulls?
pub open spec fn cell_for(c: FusedCell, e: Expr, l: Batch, r: Batch, rk: Seq<usize>) -> bool {
    match e {
        Expr::Field { name, access } => access.flat() && cell_at(
            c,
            place_in_join(l, r, rk, name@),
        ),
        Expr::Literal(Value::Str(s)) => c matches FusedCell::LitStr(t) && t@ == s@,
        Expr::Func { func, args } => {
            &&& func is Coalesce
            &&& args@.len() == 2
            &&& args@[0] is Field
            &&& args@[0]->Field_access.flat()
            &&& args@[1] matches Expr::Literal(Value::Str(lit)) && match place_in_join(
                l,
                r,
                rk,
                args@[0]->Field_name@,
            ) {
                Place::Left(i) => l.fields[i].dtype is Str && (
                c matches FusedCell::CoalesceLeft(k, t) && k == i && t@ == lit@),
                Place::Right(i) => r.fields[i].dtype is Str && (
                c matches FusedCell::CoalesceRight(k, t) && k == i && t@ == lit@),
                Place::Nowhere => false,
            }
        },
        _ => false,
    }
}

/// Does a cell read the column at that place?
pub open spec fn cell_at(c: FusedCell, p: Place) -> bool {
    match p {
        Place::Left(i) => c matches FusedCell::Left(k) && k == i,
        Place::Right(i) => c matches FusedCell::Right(k) && k == i,
        Place::Nowhere => false,
    }
}

/// Can an expression over the join be read by a cell?
pub open spec fn readable(e: Expr, l: Batch, r: Batch, rk: Seq<usize>) -> bool {
    match e {
        Expr::Field { name, access } => access.flat() && !(place_in_join(l, r, rk, name@) is Nowhere),
        Expr::Literal(v) => v is Str,
        Expr::Func { func, args } => {
            &&& func is Coalesce
            &&& args@.len() == 2
            &&& args@[0] is Field
            &&& args@[0]->Field_access.flat()
            &&& args@[1] is Literal
            &&& args@[1]->Literal_0 is Str
            &&& match place_in_join(l, r, rk, args@[0]->Field_name@) {
                Place::Left(i) => l.fields[i].dtype is Str,
                Place::Right(i) => r.fields[i].dtype is Str,
                Place::Nowhere => false,
            }
        },
        _ => false,
    }
}

proof fn lemma_right_place(l: Batch, r: Batch, rk: Seq<usize>, name: Seq<char>, n: nat, m: nat)
    requires
        n <= m,
        right_place(l, r, rk, name, n) is Some,
    ensures
        right_place(l, r, rk, name, m) == right_place(l, r, rk, name, n),
    decreases m - n,
{
    if n < m {
        lemma_right_place(l, r, rk, name, n, (m - 1) as nat);
    }
}

fn has_place(v: &Vec<usize>, x: usize) -> (r: bool)
    ensures
        r == v@.contains(x),
{
    for i in 0..v.len()
        invariant
            forall|k: int| 0 <= k < i ==> (#[trigger] v@[k]) != x,
    {
        if v[i] == x {
            return true;
        }
    }
    false
}

fn named_so(l: &Chunk, field: &str, name: &str) -> (r: bool)
    ensures
        r == (right_name(l@, field@) == name@),
{
    if index_of(&l.fields, field).is_some() {
        let mut s: String = owned(field);
        s.push('_');
        s.push('r');
        assert(s@ =~= field@ + seq!['_', 'r']);
        same_text(s.as_str(), name)
    } else {
        same_text(field, name)
    }
}

fn find_cell(l: &Chunk, r: &Chunk, rk: &Vec<usize>, name: &str) -> (c: Option<FusedCell>)
    ensures
        match c {
            Some(x) => cell_at(x, place_in_join(l@, r@, rk@, name@)),
            None => place_in_join(l@, r@, rk@, name@) is Nowhere,
        },
{
    match index_of(&l.fields, name) {
        Some(i) => {
            return Some(FusedCell::Left(i));
        },
        None => {},
    }
    for ci in 0..r.fields.len()
        invariant
            index_in(l@.fields, name@) is None,
            right_place(l@, r@, rk@, name@, ci as nat) is None,
    {
        assert(r@.fields[ci as int] == r.fields@[ci as int]@);
        if !has_place(rk, ci) && named_so(l, r.fields[ci].name.as_str(), name) {
            proof {
                lemma_right_place(l@, r@, rk@, name@, (ci + 1) as nat, r@.fields.len());
            }
            return Some(FusedCell::Right(ci));
        }
    }
    None
}

fn cell_of(e: &Expr, l: &Chunk, r: &Chunk, rk: &Vec<usize>) -> (c: Option<FusedCell>)
    ensures
        match c {
            Some(x) => cell_for(x, *e, l@, r@, rk@) && readable(*e, l@, r@, rk@),
            None => !readable(*e, l@, r@, rk@),
        },
{
    proof {
        crate::chunk::lemma_index_in(l@.fields, Seq::empty());
    }
    match e {
        Expr::Field { name, access } => {
            if !access.is_flat() {
                return None;
            }
            find_cell(l, r, rk, name.as_str())
        },
        Expr::Literal(Value::Str(s)) => Some(FusedCell::LitStr(s.clone())),
        Expr::Func { func, args } => {
            if !matches!(func, Func::Coalesce) || args.len() != 2 {
                return None;
            }
            let name: &String = match &args[0] {
                Expr::Field { name, access } => {
                    if !access.is_flat() {
                        return None;
                    }
                    name
                },
                _ => {
                    return None;
                },
            };
            let lit: &String = match &args[1] {
                Expr::Literal(Value::Str(s)) => s,
                _ => {
                    return None;
                },
            };
            proof {
                crate::chunk::lemma_index_in(l@.fields, name@);
                lemma_right_bound(l@, r@, rk@, name@, r@.fields.len());
            }
            match find_cell(l, r, rk, name.as_str()) {
                Some(FusedCell::Left(i)) => {
                    assert(l@.fields[i as int] == l.fields@[i as int]@);
                    if matches!(l.fields[i].dtype, DataType::Str) {
                        Some(FusedCell::CoalesceLeft(i, lit.clone()))
                    } else {
                        None
                    }
                },
                Some(FusedCell::Right(i)) => {
                    assert(r@.fields[i as int] == r.fields@[i as int]@);
                    if matches!(r.fields[i].dtype, DataType::Str) {
                        Some(FusedCell::CoalesceRight(i, lit.clone()))
                    } else {
                        None
                    }
                },
                _ => None,
            }
        },
        _ => None,
    }
}

/// The place found is a right column.
pub proof fn lemma_right_bound(l: Batch, r: Batch, rk: Seq<usize>, name: Seq<char>, n: nat)
    ensures
        right_place(l, r, rk, name, n) matches Some(i) ==> 0 <= i < n,
    decreases n,
{
    if n > 0 {
        lemma_right_bound(l, r, rk, name, (n - 1) as nat);
    }
}

/// The first item of a projection with that name.
pub open spec fn item_named(items: Seq<(Expr, String)>, name: Seq<char>) -> Option<int>
    decreases items.len(),
{
    if items.len() == 0 {
        None
    } else {
        match item_named(items.drop_last(), name) {
            Some(i) => Some(i),
            None => if items.last().1@ == name {
                Some(items.len() - 1)
            } else {
                None
            },
        }
    }
}

proof fn lemma_item_named(items: Seq<(Expr, String)>, name: Seq<char>, n: int)
    requires
        0 <= n <= items.len(),
        item_named(items.take(n), name) is Some,
    ensures
        item_named(items, name) == item_named(items.take(n), name),
    decreases items.len() - n,
{
    if n == items.len() {
        assert(items.take(n) =~= items);
    } else {
        assert(items.take(n + 1).drop_last() =~= items.take(n));
        lemma_item_named(items, name, n + 1);
    }
}

/// Does a cell read what a name means behind the join: the item of that name,
/// where there is a projection, else the column?
pub open spec fn cell_named(
    c: FusedCell,
    items: Option<Seq<(Expr, String)>>,
    l: Batch,
    r: Batch,
    rk: Seq<usize>,
    name: Seq<char>,
) -> bool {
    match items {
        None => cell_at(c, place_in_join(l, r, rk, name)),
        Some(s) => item_named(s, name) is Some && cell_for(
            c,
            s[item_named(s, name)->Some_0].0,
            l,
            r,
            rk,
        ),
    }
}

/// Can a name behind the join be read by a cell?
pub open spec fn name_readable(
    items: Option<Seq<(Expr, String)>>,
    l: Batch,
    r: Batch,
    rk: Seq<usize>,
    name: Seq<char>,
) -> bool {
    match items {
        None => !(place_in_join(l, r, rk, name) is Nowhere),
        Some(s) => item_named(s, name) is Some && readable(
            s[item_named(s, name)->Some_0].0,
            l,
            r,
            rk,
        ),
    }
}

/// The items of the projection of a plan.
pub open spec fn plan_items(g: PlanGraph, p: FusedShapePlan) -> Option<Seq<(Expr, String)>> {
    match p.items {
        Some(n) => if g.nodes@[n as int].op is ProjectExpr {
            Some(g.nodes@[n as int].op->ProjectExpr_items@)
        } else {
            None
        },
        None => None,
    }
}

fn lookup(
    g: &PlanGraph,
    p: &FusedShapePlan,
    l: &Chunk,
    r: &Chunk,
    rk: &Vec<usize>,
    name: &str,
) -> (c: Option<FusedCell>)
    requires
        p.items matches Some(n) ==> n < g.nodes@.len(),
    ensures
        match c {
            Some(x) => cell_named(x, plan_items(*g, *p), l@, r@, rk@, name@) && name_readable(
                plan_items(*g, *p),
                l@,
                r@,
                rk@,
                name@,
            ),
            None => !name_readable(plan_items(*g, *p), l@, r@, rk@, name@),
        },
{
    match p.items {
        Some(n) => match &g.nodes[n].op {
            Op::ProjectExpr { items, .. } => {
                assert(items@.take(0) =~= Seq::empty());
                for i in 0..items.len()
                    invariant
                        plan_items(*g, *p) == Some(items@),
                        item_named(items@.take(i as int), name@) is None,
                {
                    assert(items@.take(i + 1).drop_last() =~= items@.take(i as int));
                    if same_text(items[i].1.as_str(), name) {
                        proof {
                            lemma_item_named(items@, name@, i + 1);
                        }
                        return cell_of(&items[i].0, l, r, rk);
                    }
                }
                assert(items@.take(items@.len() as int) =~= items@);
                None
            },
            _ => find_cell(l, r, rk, name),
        },
        None => find_cell(l, r, rk, name),
    }
}

/// Does a predicate read flat columns of the left only? A nested field could be
/// found on the other side too, and the origin of the left chunk is not that of
/// the join.
pub open spec fn pred_left(e: Expr, fields: Seq<FieldV>) -> bool
    decreases e,
{
    match e {
        Expr::Field { name, access } => access.flat() && index_in(fields, name@) is Some,
        Expr::Literal(_) => true,
        Expr::Compare { left, right, .. } => pred_left(*left, fields) && pred_left(*right, fields),
        Expr::And(a, b) => pred_left(*a, fields) && pred_left(*b, fields),
        _ => false,
    }
}

fn is_pred_left(e: &Expr, l: &Chunk) -> (r: bool)
    ensures
        r == pred_left(*e, l@.fields),
    decreases *e,
{
    match e {
        Expr::Field { name, access } => access.is_flat() && index_of(
            &l.fields,
            name.as_str(),
        ).is_some(),
        Expr::Literal(_) => true,
        Expr::Compare { left, right, .. } => is_pred_left(left, l) && is_pred_left(right, l),
        Expr::And(a, b) => is_pred_left(a, l) && is_pred_left(b, l),
        _ => false,
    }
}

/// Does a filter read columns of the left only?
pub open spec fn filter_left(op: Op, fields: Seq<FieldV>) -> bool {
    match op {
        Op::Filter { pred } => pred_left(pred, fields),
        Op::FilterProject { preds, .. } => forall|i: int|
            0 <= i < preds@.len() ==> pred_left(#[trigger] preds@[i], fields),
        _ => true,
    }
}

fn is_filter_left(op: &Op, l: &Chunk) -> (r: bool)
    ensures
        r == filter_left(*op, l@.fields),
{
    match op {
        Op::Filter { pred } => is_pred_left(pred, l),
        Op::FilterProject { preds, .. } => {
            for i in 0..preds.len()
                invariant
                    op matches Op::FilterProject { preds: p0, .. } && p0 == *preds,
                    forall|k: int| 0 <= k < i ==> pred_left(#[trigger] preds@[k], l@.fields),
            {
                if !is_pred_left(&preds[i], l) {
                    return false;
                }
            }
            true
        },
        _ => true,
    }
}

/// How a fused pass reads the chunks of one part.
#[derive(Debug)]
pub struct FusedPlan {
    /// The places of the key columns on the left.
    pub lk: Vec<usize>,
    pub kind: JoinKind,
    pub filters: Vec<NodeId>,
    pub key_cells: Vec<FusedCell>,
    pub agg_cells: Vec<FusedCell>,
}

/// The nodes that a shape plan names are there: a join, a group, filters and a
/// projection.
pub open spec fn plan_in(g: PlanGraph, p: FusedShapePlan, group: NodeId) -> bool {
    &&& p.join < g.nodes@.len()
    &&& g.nodes@[p.join as int].op is Join
    &&& group < g.nodes@.len()
    &&& g.nodes@[group as int].op is GroupBy
    &&& forall|i: int| 0 <= i < p.filters@.len() ==> (#[trigger] p.filters@[i]) < g.nodes@.len()
    &&& p.items matches Some(n) ==> n < g.nodes@.len()
}

/// Can the pass be resolved against a left and a right chunk: the join keys are
/// plain columns of the left, the filters read the left only, and every key
/// and aggregate can be read by a cell?
pub open spec fn resolvable(
    g: PlanGraph,
    p: FusedShapePlan,
    group: NodeId,
    l: Batch,
    r: Batch,
    rk: Seq<usize>,
) -> bool {
    let keys = g.nodes@[p.join as int].op->Join_left_keys@;
    let gkeys = g.nodes@[group as int].op->GroupBy_keys@;
    let aggs = g.nodes@[group as int].op->GroupBy_aggs@;
    &&& forall|i: int|
        0 <= i < keys.len() ==> (#[trigger] keys[i]).bare() && index_in(l.fields, keys[i].root@) is Some
    &&& forall|i: int|
        0 <= i < p.filters@.len() ==> filter_left(
            g.nodes@[(#[trigger] p.filters@[i]) as int].op,
            l.fields,
        )
    &&& forall|i: int|
        0 <= i < gkeys.len() ==> name_readable(
            plan_items(g, p),
            l,
            r,
            rk,
            (#[trigger] gkeys[i]).root@,
        )
    &&& forall|i: int|
        0 <= i < aggs.len() ==> name_readable(plan_items(g, p), l, r, rk, (#[trigger] aggs[i]).col@)
}

/// Does the plan read the chunks as the shape plan says?
pub open spec fn resolved(
    g: PlanGraph,
    p: FusedShapePlan,
    group: NodeId,
    l: Batch,
    r: Batch,
    rk: Seq<usize>,
    f: FusedPlan,
) -> bool {
    let keys = g.nodes@[p.join as int].op->Join_left_keys@;
    let gkeys = g.nodes@[group as int].op->GroupBy_keys@;
    let aggs = g.nodes@[group as int].op->GroupBy_aggs@;
    &&& f.kind == g.nodes@[p.join as int].op->Join_kind
    &&& f.filters@ == p.filters@
    &&& f.lk@.len() == keys.len()
    &&& forall|i: int| 0 <= i < keys.len() ==> key_at(l.fields, keys[i], #[trigger] f.lk@[i])
    &&& f.key_cells@.len() == gkeys.len()
    &&& forall|i: int|
        0 <= i < gkeys.len() ==> cell_named(
            #[trigger] f.key_cells@[i],
            plan_items(g, p),
            l,
            r,
            rk,
            gkeys[i].root@,
        )
    &&& f.agg_cells@.len() == aggs.len()
    &&& forall|i: int|
        0 <= i < aggs.len() ==> cell_named(
            #[trigger] f.agg_cells@[i],
            plan_items(g, p),
            l,
            r,
            rk,
            aggs[i].col@,
        )
}

/// Is the key the plain column at that place?
pub open spec fn key_at(fields: Seq<FieldV>, key: PathExpr, i: usize) -> bool {
    key.bare() && index_in(fields, key.root@) == Some(i as int)
}

fn find_left_keys(keys: &Vec<PathExpr>, l: &Chunk) -> (r: Option<Vec<usize>>)
    ensures
        match r {
            Some(v) => v@.len() == keys@.len() && forall|i: int|
                0 <= i < keys@.len() ==> key_at(l@.fields, keys@[i], #[trigger] v@[i]),
            None => exists|i: int|
                0 <= i < keys@.len() && !((#[trigger] keys@[i]).bare() && index_in(
                    l@.fields,
                    keys@[i].root@,
                ) is Some),
        },
{
    let mut out: Vec<usize> = Vec::new();
    for i in 0..keys.len()
        invariant
            out@.len() == i,
            forall|k: int|
                0 <= k < i ==> key_at(l@.fields, keys@[k], #[trigger] out@[k]),
    {
        if !keys[i].is_bare() {
            assert(!keys@[i as int].bare());
            return None;
        }
        match index_of(&l.fields, keys[i].root.as_str()) {
            None => {
                assert(index_in(l@.fields, keys@[i as int].root@) is None);
                return None;
            },
            Some(k) => {
                out.push(k);
            },
        }
    }
    Some(out)
}

/// Resolves a fused pass against the first left chunk and the right side (see
/// [`resolvable`]).
pub fn resolve_fused_plan(
    g: &PlanGraph,
    p: &FusedShapePlan,
    group: NodeId,
    l: &Chunk,
    r: &Chunk,
    rk: &Vec<usize>,
) -> (f: Option<FusedPlan>)
    requires
        plan_in(*g, *p, group),
    ensures
        match f {
            Some(x) => resolved(*g, *p, group, l@, r@, rk@, x) && resolvable(
                *g,
                *p,
                group,
                l@,
                r@,
                rk@,
            ),
            None => !resolvable(*g, *p, group, l@, r@, rk@),
        },
{
    let ghost jop = g.nodes@[p.join as int].op;
    let ghost gop = g.nodes@[group as int].op;
    let (lk, kind) = match &g.nodes[p.join].op {
        Op::Join { left_keys, kind, .. } => match find_left_keys(left_keys, l) {
            None => {
                return None;
            },
            Some(v) => (v, *kind),
        },
        _ => {
            return None;
        },
    };
    let mut filters: Vec<NodeId> = Vec::new();
    for i in 0..p.filters.len()
        invariant
            plan_in(*g, *p, group),
            filters@ == p.filters@.take(i as int),
            forall|k: int|
                0 <= k < i ==> filter_left(
                    g.nodes@[(#[trigger] p.filters@[k]) as int].op,
                    l@.fields,
                ),
    {
        let n: NodeId = p.filters[i];
        assert(p.filters@[i as int] < g.nodes@.len());
        if !is_filter_left(&g.nodes[n].op, l) {
            return None;
        }
        filters.push(n);
        assert(filters@ =~= p.filters@.take(i + 1));
    }
    assert(p.filters@.take(p.filters@.len() as int) =~= p.filters@);
    match &g.nodes[group].op {
        Op::GroupBy { keys, aggs } => {
            let mut key_cells: Vec<FusedCell> = Vec::new();
            for i in 0..keys.len()
                invariant
                    plan_in(*g, *p, group),
                    gop == g.nodes@[group as int].op,
                    gop matches Op::GroupBy { keys: k0, aggs: a0 } && k0 == *keys && a0 == *aggs,
                    key_cells@.len() == i,
                    forall|k: int|
                        0 <= k < i ==> name_readable(
                            plan_items(*g, *p),
                            l@,
                            r@,
                            rk@,
                            (#[trigger] keys@[k]).root@,
                        ) && cell_named(
                            key_cells@[k],
                            plan_items(*g, *p),
                            l@,
                            r@,
                            rk@,
                            keys@[k].root@,
                        ),
            {
                match lookup(g, p, l, r, rk, keys[i].root.as_str()) {
                    None => {
                        assert(!name_readable(plan_items(*g, *p), l@, r@, rk@, keys@[i as int].root@));
                        return None;
                    },
                    Some(c) => {
                        key_cells.push(c);
                    },
                }
            }
            let mut agg_cells: Vec<FusedCell> = Vec::new();
            for i in 0..aggs.len()
                invariant
                    plan_in(*g, *p, group),
                    gop == g.nodes@[group as int].op,
                    gop matches Op::GroupBy { keys: k0, aggs: a0 } && k0 == *keys && a0 == *aggs,
                    agg_cells@.len() == i,
                    forall|k: int|
                        0 <= k < i ==> name_readable(
                            plan_items(*g, *p),
                            l@,
                            r@,
                            rk@,
                            (#[trigger] aggs@[k]).col@,
                        ) && cell_named(
                            agg_cells@[k],
                            plan_items(*g, *p),
                            l@,
                            r@,
                            rk@,
                            aggs@[k].col@,
                        ),
            {
                match lookup(g, p, l, r, rk, aggs[i].col.as_str()) {
                    None => {
                        assert(!name_readable(plan_items(*g, *p), l@, r@, rk@, aggs@[i as int].col@));
                        return None;
                    },
                    Some(c) => {
                        agg_cells.push(c);
                    },
                }
            }
            proof {
                assert forall|i: int| 0 <= i < keys@.len() implies cell_named(
                    #[trigger] key_cells@[i],
                    plan_items(*g, *p),
                    l@,
                    r@,
                    rk@,
                    keys@[i].root@,
                ) by {
                    assert(name_readable(plan_items(*g, *p), l@, r@, rk@, keys@[i].root@));
                }
                assert forall|i: int| 0 <= i < aggs@.len() implies cell_named(
                    #[trigger] agg_cells@[i],
                    plan_items(*g, *p),
                    l@,
                    r@,
                    rk@,
                    aggs@[i].col@,
                ) by {
                    assert(name_readable(plan_items(*g, *p), l@, r@, rk@, aggs@[i].col@));
                }
                let jk = jop->Join_left_keys@;
                assert forall|i: int| 0 <= i < jk.len() implies (#[trigger] jk[i]).bare() && index_in(
                    l@.fields,
                    jk[i].root@,
                ) is Some by {
                    assert(key_at(l@.fields, jk[i], lk@[i]));
                }
            }
            Some(FusedPlan { lk, kind, filters, key_cells, agg_cells })
        },
        _ => None,
    }
}


// -------------------------------------------------------------- the pass

/// Does a left row pass the first `n` filters?
pub open spec fn passes_filters(g: PlanGraph, filters: Seq<NodeId>, n: nat, l: Batch, li: int, log: Log) -> Result<
    bool,
    Query,
>
    decreases n,
{
    if n == 0 {
        Ok(true)
    } else {
        match passes_filters(g, filters, (n - 1) as nat, l, li, log) {
            Err(q) => Err(q),
            Ok(false) => Ok(false),
            Ok(true) => match g.nodes@[filters[n - 1] as int].op {
                Op::Filter { pred } => match holds(pred, l, li, log) {
                    Err(q) => Err(q),
                    Ok(v) => Ok(v.0),
                },
                Op::FilterProject { preds, .. } => passing(preds@, l, li, log),
                _ => Ok(true),
            },
        }
    }
}

/// The texts of the first `n` key cells.
pub open spec fn cell_texts(cells: Seq<FusedCell>, n: nat, l: Batch, li: int, r: Batch, ri: Option<usize>, log: Log) -> Result<
    Seq<Seq<char>>,
    Query,
>
    decreases n,
{
    if n == 0 {
        Ok(Seq::empty())
    } else {
        match cell_texts(cells, (n - 1) as nat, l, li, r, ri, log) {
            Err(q) => Err(q),
            Ok(s) => match rendered(fused_datum(cells[n - 1], l, li, r, ri), log) {
                Err(q) => Err(q),
                Ok(t) => Ok(s.push(t)),
            },
        }
    }
}

/// The items of the first `n` aggregate cells.
pub open spec fn cell_items(
    cells: Seq<FusedCell>,
    aggs: Seq<AggV>,
    n: nat,
    l: Batch,
    li: int,
    r: Batch,
    ri: Option<usize>,
    log: Log,
) -> Result<Seq<Option<Item>>, Query>
    decreases n,
{
    if n == 0 {
        Ok(Seq::empty())
    } else {
        match cell_items(cells, aggs, (n - 1) as nat, l, li, r, ri, log) {
            Err(q) => Err(q),
            Ok(s) => {
                let d = fused_datum(cells[n - 1], l, li, r, ri);
                if of_text(aggs[n - 1].func) {
                    match rendered(d, log) {
                        Err(q) => Err(q),
                        Ok(t) => Ok(s.push(Some((d, t)))),
                    }
                } else {
                    Ok(s.push(Some((d, Seq::empty()))))
                }
            },
        }
    }
}

/// What the group gets of the first `n` pairs of rows.
pub open spec fn fused_rows(
    g: PlanGraph,
    f: FusedPlan,
    aggs: Seq<AggV>,
    l: Batch,
    r: Batch,
    pairs: Seq<Pair>,
    n: nat,
    log: Log,
) -> Result<Seq<RowV>, Query>
    decreases n,
{
    if n == 0 {
        Ok(Seq::empty())
    } else {
        match fused_rows(g, f, aggs, l, r, pairs, (n - 1) as nat, log) {
            Err(q) => Err(q),
            Ok(rows) => {
                let li = pairs[n - 1].0->Some_0 as int;
                let ri = pairs[n - 1].1;
                match passes_filters(g, f.filters@, f.filters@.len(), l, li, log) {
                    Err(q) => Err(q),
                    Ok(false) => Ok(rows),
                    Ok(true) => match cell_texts(
                        f.key_cells@,
                        f.key_cells@.len(),
                        l,
                        li,
                        r,
                        ri,
                        log,
                    ) {
                        Err(q) => Err(q),
                        Ok(parts) => match cell_items(
                            f.agg_cells@,
                            aggs,
                            f.agg_cells@.len(),
                            l,
                            li,
                            r,
                            ri,
                            log,
                        ) {
                            Err(q) => Err(q),
                            Ok(items) => Ok(rows.push(RowV { parts, items })),
                        },
                    },
                }
            },
        }
    }
}

/// The rows that a fused pass over a left chunk hands to the group: the pairs of
/// the join, filtered and projected.
pub open spec fn fused_out(
    g: PlanGraph,
    f: FusedPlan,
    aggs: Seq<AggV>,
    l: Batch,
    r: Batch,
    rk: Seq<usize>,
    log: Log,
) -> Result<Seq<RowV>, Query> {
    match row_keys(l, f.lk@, l.len, log) {
        Err(q) => Err(q),
        Ok(lkeys) => match row_keys(r, rk, r.len, log) {
            Err(q) => Err(q),
            Ok(rkeys) => {
                let pairs = join_pairs(lkeys, rkeys, f.kind);
                fused_rows(g, f, aggs, l, r, pairs, pairs.len(), log)
            },
        },
    }
}

fn filters_pass(g: &PlanGraph, filters: &Vec<NodeId>, l: &Chunk, li: usize, host: &Answers) -> (r:
    Result<bool, Ask>)
    requires
        l@.wf(),
        li < l.len,
        forall|i: int| 0 <= i < filters@.len() ==> (#[trigger] filters@[i]) < g.nodes@.len(),
    ensures
        agree(
            r,
            passes_filters(*g, filters@, filters@.len(), l@, li as int, host@),
            |a: bool, b: bool| a == b,
        ),
{
    for n in 0..filters.len()
        invariant
            l@.wf(),
            li < l.len,
            forall|i: int| 0 <= i < filters@.len() ==> (#[trigger] filters@[i]) < g.nodes@.len(),
            passes_filters(*g, filters@, n as nat, l@, li as int, host@) == Ok::<bool, Query>(true),
    {
        let k: NodeId = filters[n];
        assert(filters@[n as int] < g.nodes@.len());
        let out: Result<bool, Ask> = match &g.nodes[k].op {
            Op::Filter { pred } => crate::eval::eval_predicate(pred, l, li, host),
            Op::FilterProject { preds, .. } => row_passes(preds, l, li, host),
            _ => Ok(true),
        };
        match out {
            Err(a) => {
                proof {
                    lemma_filters_stop(*g, filters@, (n + 1) as nat, filters@.len(), l@, li as int, host@);
                }
                return Err(a);
            },
            Ok(yes) => {
                if !yes {
                    proof {
                        lemma_filters_stop(*g, filters@, (n + 1) as nat, filters@.len(), l@, li as int, host@);
                    }
                    return Ok(false);
                }
            },
        }
    }
    Ok(true)
}

proof fn lemma_filters_stop(g: PlanGraph, filters: Seq<NodeId>, n: nat, m: nat, l: Batch, li: int, log: Log)
    requires
        n <= m,
        passes_filters(g, filters, n, l, li, log) != Ok::<bool, Query>(true),
    ensures
        passes_filters(g, filters, m, l, li, log) == passes_filters(g, filters, n, l, li, log),
    decreases m - n,
{
    if n < m {
        lemma_filters_stop(g, filters, n, (m - 1) as nat, l, li, log);
    }
}

/// Every cell names a column of its side.
pub open spec fn cells_in(cells: Seq<FusedCell>, l: Batch, r: Batch) -> bool {
    forall|i: int| 0 <= i < cells.len() ==> cell_in(#[trigger] cells[i], l, r)
}

proof fn lemma_texts_stop(cells: Seq<FusedCell>, n: nat, m: nat, l: Batch, li: int, r: Batch, ri: Option<usize>, log: Log)
    requires
        n <= m,
        cell_texts(cells, n, l, li, r, ri, log) is Err,
    ensures
        cell_texts(cells, m, l, li, r, ri, log) == cell_texts(cells, n, l, li, r, ri, log),
    decreases m - n,
{
    if n < m {
        lemma_texts_stop(cells, n, (m - 1) as nat, l, li, r, ri, log);
    }
}

fn key_texts(cells: &Vec<FusedCell>, l: &Chunk, li: usize, r: &Chunk, ri: Option<usize>, host: &Answers) -> (out:
    Result<Vec<String>, Ask>)
    requires
        l@.wf(),
        r@.wf(),
        li < l.len,
        ri matches Some(row) ==> row < r.len,
        cells_in(cells@, l@, r@),
    ensures
        agree(
            out,
            cell_texts(cells@, cells@.len(), l@, li as int, r@, ri, host@),
            |a: Vec<String>, b: Seq<Seq<char>>| texts(a@) == b && b.len() == cells@.len(),
        ),
{
    let mut v: Vec<String> = Vec::new();
    assert(texts(v@) =~= Seq::empty());
    for n in 0..cells.len()
        invariant
            l@.wf(),
            r@.wf(),
            li < l.len,
            ri matches Some(row) ==> row < r.len,
            cells_in(cells@, l@, r@),
            v@.len() == n,
            cell_texts(cells@, n as nat, l@, li as int, r@, ri, host@) == Ok::<
                Seq<Seq<char>>,
                Query,
            >(texts(v@)),
    {
        assert(cell_in(cells@[n as int], l@, r@));
        let x: Value = fused_value(&cells[n], l, li, r, ri);
        match render(&x, host) {
            Err(a) => {
                proof {
                    lemma_texts_stop(cells@, (n + 1) as nat, cells@.len(), l@, li as int, r@, ri, host@);
                }
                return Err(a);
            },
            Ok(t) => {
                let ghost up = texts(v@);
                v.push(t);
                assert(texts(v@) =~= up.push(t@));
            },
        }
    }
    Ok(v)
}

proof fn lemma_items_stop(cells: Seq<FusedCell>, aggs: Seq<AggV>, n: nat, m: nat, l: Batch, li: int, r: Batch, ri: Option<usize>, log: Log)
    requires
        n <= m,
        cell_items(cells, aggs, n, l, li, r, ri, log) is Err,
    ensures
        cell_items(cells, aggs, m, l, li, r, ri, log) == cell_items(cells, aggs, n, l, li, r, ri, log),
    decreases m - n,
{
    if n < m {
        lemma_items_stop(cells, aggs, n, (m - 1) as nat, l, li, r, ri, log);
    }
}

fn agg_items(
    cells: &Vec<FusedCell>,
    aggs: &Vec<AggSpec>,
    l: &Chunk,
    li: usize,
    r: &Chunk,
    ri: Option<usize>,
    host: &Answers,
) -> (out: Result<Vec<Option<(Value, String)>>, Ask>)
    requires
        l@.wf(),
        r@.wf(),
        li < l.len,
        ri matches Some(row) ==> row < r.len,
        cells_in(cells@, l@, r@),
        aggs@.len() == cells@.len(),
    ensures
        agree(
            out,
            cell_items(cells@, agg_views(aggs@), cells@.len(), l@, li as int, r@, ri, host@),
            |a: Vec<Option<(Value, String)>>, b: Seq<Option<Item>>|
                item_views(a@) == b && b.len() == cells@.len(),
        ),
{
    let ghost av = agg_views(aggs@);
    let mut v: Vec<Option<(Value, String)>> = Vec::new();
    assert(item_views(v@) =~= Seq::empty());
    for n in 0..cells.len()
        invariant
            l@.wf(),
            r@.wf(),
            li < l.len,
            ri matches Some(row) ==> row < r.len,
            cells_in(cells@, l@, r@),
            aggs@.len() == cells@.len(),
            av == agg_views(aggs@),
            v@.len() == n,
            cell_items(cells@, av, n as nat, l@, li as int, r@, ri, host@) == Ok::<
                Seq<Option<Item>>,
                Query,
            >(item_views(v@)),
    {
        assert(cell_in(cells@[n as int], l@, r@));
        assert(av[n as int].func == aggs@[n as int].func);
        let x: Value = fused_value(&cells[n], l, li, r, ri);
        let mut t: String = String::new();
        assert(t@ =~= Seq::empty());
        if needs_text(aggs[n].func) {
            match render(&x, host) {
                Err(a) => {
                    proof {
                        lemma_items_stop(cells@, av, (n + 1) as nat, cells@.len(), l@, li as int, r@, ri, host@);
                    }
                    return Err(a);
                },
                Ok(s) => {
                    t = s;
                },
            }
        }
        let ghost up = item_views(v@);
        let ghost one: Option<Item> = Some((x@, t@));
        v.push(Some((x, t)));
        assert(item_views(v@) =~= up.push(one));
    }
    Ok(v)
}

proof fn lemma_rows_stop(g: PlanGraph, f: FusedPlan, aggs: Seq<AggV>, l: Batch, r: Batch, pairs: Seq<Pair>, n: nat, m: nat, log: Log)
    requires
        n <= m,
        fused_rows(g, f, aggs, l, r, pairs, n, log) is Err,
    ensures
        fused_rows(g, f, aggs, l, r, pairs, m, log) == fused_rows(g, f, aggs, l, r, pairs, n, log),
    decreases m - n,
{
    if n < m {
        lemma_rows_stop(g, f, aggs, l, r, pairs, n, (m - 1) as nat, log);
    }
}

/// Can the plan read the chunks: the join keeps no right row that nothing
/// matches, its keys and cells name columns, and its filters nodes?
pub open spec fn plan_reads(g: PlanGraph, f: FusedPlan, l: Batch, r: Batch, rk: Seq<usize>) -> bool {
    &&& !f.kind.right_kept()
    &&& forall|i: int| 0 <= i < f.lk@.len() ==> (#[trigger] f.lk@[i]) < l.columns.len()
    &&& forall|i: int| 0 <= i < rk.len() ==> (#[trigger] rk[i]) < r.columns.len()
    &&& cells_in(f.key_cells@, l, r)
    &&& cells_in(f.agg_cells@, l, r)
    &&& forall|i: int| 0 <= i < f.filters@.len() ==> (#[trigger] f.filters@[i]) < g.nodes@.len()
}

/// Without kept right rows every pair of a join has a left row.
pub proof fn lemma_left_sides(lkeys: Seq<Seq<char>>, rkeys: Seq<Seq<char>>, kind: JoinKind, n: nat)
    requires
        n <= lkeys.len(),
    ensures
        forall|i: int|
            0 <= i < crate::join::left_pairs(lkeys, rkeys, kind, n).len() ==> (
            #[trigger] crate::join::left_pairs(lkeys, rkeys, kind, n)[i]).0 is Some,
    decreases n,
{
    if n > 0 {
        lemma_left_sides(lkeys, rkeys, kind, (n - 1) as nat);
        let a = crate::join::left_pairs(lkeys, rkeys, kind, (n - 1) as nat);
        let all = crate::join::left_pairs(lkeys, rkeys, kind, n);
        assert forall|i: int| 0 <= i < all.len() implies (#[trigger] all[i]).0 is Some by {
            if i < a.len() {
                assert(all[i] == a[i]);
            }
        }
    }
}

/// Reads the rows of a fused pass over a left chunk (see [`fused_out`]).
pub fn read_fused(
    g: &PlanGraph,
    f: &FusedPlan,
    aggs: &Vec<AggSpec>,
    l: &Chunk,
    r: &Chunk,
    rk: &Vec<usize>,
    host: &Answers,
) -> (out: Result<Vec<InputRow>, Ask>)
    requires
        l@.wf(),
        r@.wf(),
        plan_reads(*g, *f, l@, r@, rk@),
        aggs@.len() == f.agg_cells@.len(),
    ensures
        agree(
            out,
            fused_out(*g, *f, agg_views(aggs@), l@, r@, rk@, host@),
            |a: Vec<InputRow>, b: Seq<RowV>|
                row_views(a@) == b && shaped(b, f.key_cells@.len(), f.agg_cells@.len()),
        ),
{
    let lkeys: Vec<String> = match keys_of(l, &f.lk, host) {
        Err(a) => {
            return Err(a);
        },
        Ok(k) => k,
    };
    let rkeys: Vec<String> = match keys_of(r, rk, host) {
        Err(a) => {
            return Err(a);
        },
        Ok(k) => k,
    };
    let ln: usize = l.len;
    let rn: usize = r.len;
    let pairs: Vec<Pair> = match_rows(&lkeys, &rkeys, f.kind);
    let ghost av = agg_views(aggs@);
    proof {
        lemma_pairs_fit(texts(lkeys@), texts(rkeys@), f.kind);
        lemma_left_sides(texts(lkeys@), texts(rkeys@), f.kind, texts(lkeys@).len());
        let a = crate::join::left_pairs(texts(lkeys@), texts(rkeys@), f.kind, texts(lkeys@).len());
        assert(pairs@ =~= a);
    }
    let mut rows: Vec<InputRow> = Vec::new();
    assert(row_views(rows@) =~= Seq::empty());
    for n in 0..pairs.len()
        invariant
            l@.wf(),
            r@.wf(),
            plan_reads(*g, *f, l@, r@, rk@),
            aggs@.len() == f.agg_cells@.len(),
            av == agg_views(aggs@),
            side_fits(l@.len, pairs@, false),
            side_fits(r@.len, pairs@, true),
            forall|i: int| 0 <= i < pairs@.len() ==> (#[trigger] pairs@[i]).0 is Some,
            fused_rows(*g, *f, av, l@, r@, pairs@, n as nat, host@) == Ok::<Seq<RowV>, Query>(
                row_views(rows@),
            ),
            shaped(row_views(rows@), f.key_cells@.len(), f.agg_cells@.len()),
            fused_out(*g, *f, av, l@, r@, rk@, host@) == fused_rows(
                *g,
                *f,
                av,
                l@,
                r@,
                pairs@,
                pairs@.len(),
                host@,
            ),
    {
        let p: Pair = pairs[n];
        proof {
            assert(pairs@[n as int].0 is Some);
            assert(crate::join::side(pairs@[n as int], false) matches Some(x) ==> x < l@.len);
            assert(crate::join::side(pairs@[n as int], true) matches Some(x) ==> x < r@.len);
        }
        let li: usize = match p.0 {
            Some(i) => i,
            None => 0,
        };
        let ri: Option<usize> = p.1;
        let ghost next = fused_rows(*g, *f, av, l@, r@, pairs@, (n + 1) as nat, host@);
        match filters_pass(g, &f.filters, l, li, host) {
            Err(a) => {
                proof {
                    lemma_rows_stop(*g, *f, av, l@, r@, pairs@, (n + 1) as nat, pairs@.len(), host@);
                }
                return Err(a);
            },
            Ok(yes) => {
                if yes {
                    let parts: Vec<String> = match key_texts(&f.key_cells, l, li, r, ri, host) {
                        Err(a) => {
                            proof {
                                lemma_rows_stop(*g, *f, av, l@, r@, pairs@, (n + 1) as nat, pairs@.len(), host@);
                            }
                            return Err(a);
                        },
                        Ok(v) => v,
                    };
                    let items: Vec<Option<(Value, String)>> = match agg_items(
                        &f.agg_cells,
                        aggs,
                        l,
                        li,
                        r,
                        ri,
                        host,
                    ) {
                        Err(a) => {
                            proof {
                                lemma_rows_stop(*g, *f, av, l@, r@, pairs@, (n + 1) as nat, pairs@.len(), host@);
                            }
                            return Err(a);
                        },
                        Ok(v) => v,
                    };
                    let ghost up = row_views(rows@);
                    let row = InputRow { parts, items };
                    rows.push(row);
                    proof {
                        assert(row_views(rows@) =~= up.push(row@));
                        assert forall|i: int| 0 <= i < row_views(rows@).len() implies (
                        #[trigger] row_views(rows@)[i]).parts.len() == f.key_cells@.len()
                            && row_views(rows@)[i].items.len() == f.agg_cells@.len() by {
                            if i < up.len() {
                                assert(row_views(rows@)[i] == up[i]);
                            }
                        }
                    }
                }
            },
        }
    }
    Ok(rows)
}

/// Runs a fused pass over a left chunk into a group; the number of rows that
/// reached it comes back. A question leaves the group as it was.
pub fn fused_feed_chunk(
    g: &PlanGraph,
    f: &FusedPlan,
    group: &mut GroupBy,
    l: &Chunk,
    r: &Chunk,
    rk: &Vec<usize>,
    host: &Answers,
) -> (out: Result<usize, Ask>)
    requires
        old(group).wf(),
        l@.wf(),
        r@.wf(),
        plan_reads(*g, *f, l@, r@, rk@),
        old(group).aggs@.len() == f.agg_cells@.len(),
        old(group).keys@.len() == f.key_cells@.len(),
    ensures
        final(group).wf(),
        final(group).keys == old(group).keys,
        final(group).aggs == old(group).aggs,
        final(group).emitted == old(group).emitted,
        match (out, fused_out(*g, *f, old(group).aggs_view(), l@, r@, rk@, host@)) {
            (Ok(n), Ok(rows)) => n == rows.len() && final(group).groups() == grouped(
                old(group).groups(),
                rows,
                old(group).aggs_view(),
            ),
            (Err(a), Err(q)) => a@ == q && *final(group) == *old(group),
            _ => false,
        },
{
    match read_fused(g, f, &group.aggs, l, r, rk, host) {
        Err(a) => Err(a),
        Ok(rows) => {
            let n: usize = rows.len();
            assert(row_views(rows@).len() == rows@.len());
            group.observe_rows(&rows);
            Ok(n)
        },
    }
}

} // verus!
