//! The check of a plan before it runs: mistakes that a run would swallow are
//! refused, with words that help.
use vstd::prelude::*;
use crate::chunk::{fields_view, index_in, index_of, Field, FieldV};
use crate::event::message3;
use crate::expr::{Expr, PathExpr};
use crate::group::AggSpec;
use crate::plan::{Hook, HookAction, Node, NodeId, Op, PlanGraph};
use crate::text::{chars_of, owned, same_text, string_of};
use crate::value::{dup_texts, texts, DataType};

verus! {

// -------------------------------------------------------- names that are read

/// The columns that an expression names, from left to right.
pub open spec fn names_in(e: Expr) -> Seq<Seq<char>>
    decreases e, 1nat, 0nat,
{
    match e {
        Expr::Field { name, access } => if access.column() {
            seq![name@]
        } else {
            Seq::empty()
        },
        Expr::Compare { left, right, .. } => names_in(*left) + names_in(*right),
        Expr::Arith { left, right, .. } => names_in(*left) + names_in(*right),
        Expr::And(a, b) => names_in(*a) + names_in(*b),
        Expr::Or(a, b) => names_in(*a) + names_in(*b),
        Expr::Cast { expr, .. } => names_in(*expr),
        Expr::Func { args, .. } => names_in_args(args, args@.len()),
        Expr::Case { branches, default } => names_in_case(e, branches@.len()) + match default {
            Some(d) => names_in(*d),
            None => Seq::empty(),
        },
        _ => Seq::empty(),
    }
}

/// The columns that the first `n` arguments name.
pub open spec fn names_in_args(args: Vec<Expr>, n: nat) -> Seq<Seq<char>>
    decreases args, 0nat, n,
{
    if 0 < n <= args@.len() {
        names_in_args(args, (n - 1) as nat) + names_in(args@[n - 1])
    } else {
        Seq::empty()
    }
}

/// The columns that the first `n` branches of a case expression name.
pub open spec fn names_in_case(e: Expr, n: nat) -> Seq<Seq<char>>
    decreases e, 0nat, n,
{
    match e {
        Expr::Case { branches, .. } => if 0 < n <= branches@.len() {
            names_in_case(e, (n - 1) as nat) + (names_in(branches@[n - 1].0) + names_in(
                branches@[n - 1].1,
            ))
        } else {
            Seq::empty()
        },
        _ => Seq::empty(),
    }
}

proof fn lemma_texts_push(v: Seq<String>, s: String)
    ensures
        texts(v.push(s)) == texts(v).push(s@),
{
    assert(texts(v.push(s)) =~= texts(v).push(s@));
}

/// The columns that an expression names, put behind `out`.
pub fn collect_bare_fields(e: &Expr, out: &mut Vec<String>)
    ensures
        texts(final(out)@) == texts(old(out)@) + names_in(*e),
    decreases *e,
{
    let ghost start = texts(out@);
    match e {
        Expr::Field { name, access } => {
            if access.is_column() {
                proof {
                    lemma_texts_push(out@, *name);
                }
                out.push(name.clone());
                assert(texts(out@) =~= start + seq![name@]);
            } else {
                assert(texts(out@) =~= start + names_in(*e));
            }
        },
        Expr::Compare { left, right, .. } => {
            collect_bare_fields(left, out);
            collect_bare_fields(right, out);
            assert(texts(out@) =~= start + names_in(*e));
        },
        Expr::Arith { left, right, .. } => {
            collect_bare_fields(left, out);
            collect_bare_fields(right, out);
            assert(texts(out@) =~= start + names_in(*e));
        },
        Expr::And(a, b) => {
            collect_bare_fields(a, out);
            collect_bare_fields(b, out);
            assert(texts(out@) =~= start + names_in(*e));
        },
        Expr::Or(a, b) => {
            collect_bare_fields(a, out);
            collect_bare_fields(b, out);
            assert(texts(out@) =~= start + names_in(*e));
        },
        Expr::Cast { expr, .. } => {
            collect_bare_fields(expr, out);
        },
        Expr::Func { args, .. } => {
            assert(start + names_in_args(*args, 0) =~= start);
            for n in 0..args.len()
                invariant
                    texts(out@) == start + names_in_args(*args, n as nat),
                    decreases_to!(*e => *args),
            {
                proof {
                    assert(decreases_to!(*args => args@));
                    assert(decreases_to!(args@ => args@[n as int]));
                }
                collect_bare_fields(&args[n], out);
                assert(texts(out@) =~= start + names_in_args(*args, (n + 1) as nat));
            }
        },
        Expr::Case { branches, default } => {
            assert(start + names_in_case(*e, 0) =~= start);
            for n in 0..branches.len()
                invariant
                    e matches Expr::Case { branches: b0, default: d0 } && b0 == *branches && d0
                        == *default,
                    texts(out@) == start + names_in_case(*e, n as nat),
                    decreases_to!(*e => *branches),
            {
                proof {
                    assert(decreases_to!(*branches => branches@));
                    assert(decreases_to!(branches@ => branches@[n as int]));
                    assert(decreases_to!(branches@[n as int] => branches@[n as int].0));
                    assert(decreases_to!(branches@[n as int] => branches@[n as int].1));
                }
                collect_bare_fields(&branches[n].0, out);
                collect_bare_fields(&branches[n].1, out);
                assert(texts(out@) =~= start + names_in_case(*e, (n + 1) as nat));
            }
            match default {
                Some(d) => {
                    collect_bare_fields(d, out);
                },
                None => {},
            }
            assert(texts(out@) =~= start + names_in(*e));
        },
        _ => {
            assert(texts(out@) =~= start + names_in(*e));
        },
    }
}

/// The roots of the paths that name plain columns.
pub open spec fn bare_roots(keys: Seq<PathExpr>) -> Seq<Seq<char>>
    decreases keys.len(),
{
    if keys.len() == 0 {
        Seq::empty()
    } else if keys.last().bare() {
        bare_roots(keys.drop_last()).push(keys.last().root@)
    } else {
        bare_roots(keys.drop_last())
    }
}

/// The roots of the paths that name plain columns.
pub fn bare_keys(keys: &Vec<PathExpr>) -> (r: Vec<String>)
    ensures
        texts(r@) == bare_roots(keys@),
{
    let mut out: Vec<String> = Vec::new();
    assert(texts(out@) =~= Seq::empty());
    for i in 0..keys.len()
        invariant
            texts(out@) == bare_roots(keys@.take(i as int)),
    {
        assert(keys@.take(i + 1).drop_last() =~= keys@.take(i as int));
        if keys[i].is_bare() {
            proof {
                lemma_texts_push(out@, keys@[i as int].root);
            }
            out.push(keys[i].root.clone());
        }
    }
    assert(keys@.take(keys@.len() as int) =~= keys@);
    out
}

/// The roots of the plain columns among sort keys.
pub open spec fn sort_roots(keys: Seq<(PathExpr, bool)>) -> Seq<Seq<char>>
    decreases keys.len(),
{
    if keys.len() == 0 {
        Seq::empty()
    } else if keys.last().0.bare() {
        sort_roots(keys.drop_last()).push(keys.last().0.root@)
    } else {
        sort_roots(keys.drop_last())
    }
}

fn sort_keys(keys: &Vec<(PathExpr, bool)>) -> (r: Vec<String>)
    ensures
        texts(r@) == sort_roots(keys@),
{
    let mut out: Vec<String> = Vec::new();
    assert(texts(out@) =~= Seq::empty());
    for i in 0..keys.len()
        invariant
            texts(out@) == sort_roots(keys@.take(i as int)),
    {
        assert(keys@.take(i + 1).drop_last() =~= keys@.take(i as int));
        if keys[i].0.is_bare() {
            proof {
                lemma_texts_push(out@, keys@[i as int].0.root);
            }
            out.push(keys[i].0.root.clone());
        }
    }
    assert(keys@.take(keys@.len() as int) =~= keys@);
    out
}

/// The columns that the first `n` expressions name.
pub open spec fn names_in_all(es: Seq<Expr>, n: nat) -> Seq<Seq<char>>
    decreases n,
{
    if n == 0 {
        Seq::empty()
    } else {
        names_in_all(es, (n - 1) as nat) + names_in(es[n - 1])
    }
}

/// The columns that the first `n` items of a projection name.
pub open spec fn names_in_items(es: Seq<(Expr, String)>, n: nat) -> Seq<Seq<char>>
    decreases n,
{
    if n == 0 {
        Seq::empty()
    } else {
        names_in_items(es, (n - 1) as nat) + names_in(es[n - 1].0)
    }
}

/// The names of the columns that aggregates read.
pub open spec fn agg_cols(aggs: Seq<AggSpec>) -> Seq<Seq<char>> {
    Seq::new(aggs.len(), |i: int| aggs[i].col@)
}

/// The columns that an operator needs of its first input, and of its second.
pub open spec fn reads(op: Op) -> (Seq<Seq<char>>, Seq<Seq<char>>) {
    let none: Seq<Seq<char>> = Seq::empty();
    match op {
        Op::Filter { pred } => (names_in(pred), none),
        Op::Validate { pred } => (names_in(pred), none),
        Op::FilterProject { preds, fields } => (
            names_in_all(preds@, preds@.len()) + match fields {
                Some(f) => texts(f@),
                None => none,
            },
            none,
        ),
        Op::Project { fields } => (texts(fields@), none),
        Op::ProjectExpr { items, views } => (
            names_in_items(items@, items@.len()) + texts(views@),
            none,
        ),
        Op::GroupBy { keys, aggs } => (bare_roots(keys@) + agg_cols(aggs@), none),
        Op::Sort { keys } => (sort_roots(keys@), none),
        Op::Distinct { keys } => (bare_roots(keys@), none),
        Op::Join { left_keys, right_keys, .. } => (bare_roots(left_keys@), bare_roots(right_keys@)),
        Op::DropNa { cols } => (texts(cols@), none),
        Op::Drop { cols } => (texts(cols@), none),
        Op::Reorder { cols } => (texts(cols@), none),
        Op::Fill { col, .. } => (seq![col@], none),
        Op::Sessionize { ts, by } => (seq![ts@] + texts(by@), none),
        Op::Shift { col, by } => (seq![col@] + texts(by@), none),
        Op::AsofJoin { ts, by } => (seq![ts@] + texts(by@), none),
        Op::Cast { casts } => (Seq::new(casts@.len(), |i: int| casts@[i].0@), none),
        Op::Rename { pairs } => (Seq::new(pairs@.len(), |i: int| pairs@[i].0@), none),
        _ => (none, none),
    }
}

fn more(out: &mut Vec<String>, v: &Vec<String>)
    ensures
        texts(final(out)@) == texts(old(out)@) + texts(v@),
{
    let ghost start = texts(out@);
    let ghost t = texts(v@);
    assert(start + t.take(0) =~= start);
    for i in 0..v.len()
        invariant
            t == texts(v@),
            texts(out@) == start + t.take(i as int),
    {
        let ghost up = texts(out@);
        proof {
            lemma_texts_push(out@, v@[i as int]);
        }
        out.push(v[i].clone());
        assert(t.take(i + 1) =~= t.take(i as int).push(t[i as int]));
        assert(texts(out@) =~= start + t.take(i + 1));
    }
    assert(t.take(v@.len() as int) =~= t);
}

fn name_then(first: &String, rest: &Vec<String>) -> (r: Vec<String>)
    ensures
        texts(r@) == seq![first@] + texts(rest@),
{
    let mut out: Vec<String> = Vec::new();
    proof {
        lemma_texts_push(out@, *first);
        assert(texts(out@) =~= Seq::empty());
        assert(Seq::<Seq<char>>::empty().push(first@) =~= seq![first@]);
    }
    out.push(first.clone());
    more(&mut out, rest);
    out
}

fn read_by_filter(preds: &Vec<Expr>, fields: &Option<Vec<String>>) -> (r: Vec<String>)
    ensures
        texts(r@) == names_in_all(preds@, preds@.len()) + match *fields {
            Some(f) => texts(f@),
            None => Seq::empty(),
        },
{
    let mut out: Vec<String> = Vec::new();
    assert(texts(out@) =~= Seq::empty());
    for i in 0..preds.len()
        invariant
            texts(out@) == names_in_all(preds@, i as nat),
    {
        collect_bare_fields(&preds[i], &mut out);
    }
    match fields {
        Some(f) => {
            more(&mut out, f);
        },
        None => {
            assert(texts(out@) + Seq::empty() =~= texts(out@));
        },
    }
    out
}

fn read_by_items(items: &Vec<(Expr, String)>, views: &Vec<String>) -> (r: Vec<String>)
    ensures
        texts(r@) == names_in_items(items@, items@.len()) + texts(views@),
{
    let mut out: Vec<String> = Vec::new();
    assert(texts(out@) =~= Seq::empty());
    for i in 0..items.len()
        invariant
            texts(out@) == names_in_items(items@, i as nat),
    {
        collect_bare_fields(&items[i].0, &mut out);
    }
    more(&mut out, views);
    out
}

fn read_by_group(keys: &Vec<PathExpr>, aggs: &Vec<AggSpec>) -> (r: Vec<String>)
    ensures
        texts(r@) == bare_roots(keys@) + agg_cols(aggs@),
{
    let mut out: Vec<String> = bare_keys(keys);
    let ghost start = texts(out@);
    let ghost t = agg_cols(aggs@);
    assert(start + t.take(0) =~= start);
    for i in 0..aggs.len()
        invariant
            t == agg_cols(aggs@),
            texts(out@) == start + t.take(i as int),
    {
        proof {
            lemma_texts_push(out@, aggs@[i as int].col);
        }
        out.push(aggs[i].col.clone());
        assert(t.take(i + 1) =~= t.take(i as int).push(t[i as int]));
        assert(texts(out@) =~= start + t.take(i + 1));
    }
    assert(t.take(aggs@.len() as int) =~= t);
    out
}

fn cast_names(casts: &Vec<(String, DataType)>) -> (r: Vec<String>)
    ensures
        texts(r@) == Seq::new(casts@.len(), |i: int| casts@[i].0@),
{
    let mut out: Vec<String> = Vec::new();
    for i in 0..casts.len()
        invariant
            out@.len() == i,
            forall|k: int| 0 <= k < i ==> (#[trigger] out@[k])@ == casts@[k].0@,
    {
        out.push(casts[i].0.clone());
    }
    assert(texts(out@) =~= Seq::new(casts@.len(), |i: int| casts@[i].0@));
    out
}

fn rename_names(pairs: &Vec<(String, String)>) -> (r: Vec<String>)
    ensures
        texts(r@) == Seq::new(pairs@.len(), |i: int| pairs@[i].0@),
{
    let mut out: Vec<String> = Vec::new();
    for i in 0..pairs.len()
        invariant
            out@.len() == i,
            forall|k: int| 0 <= k < i ==> (#[trigger] out@[k])@ == pairs@[k].0@,
    {
        out.push(pairs[i].0.clone());
    }
    assert(texts(out@) =~= Seq::new(pairs@.len(), |i: int| pairs@[i].0@));
    out
}

/// The columns that an operator needs of its first input, and of its second.
pub fn read_columns(op: &Op) -> (r: (Vec<String>, Vec<String>))
    ensures
        (texts(r.0@), texts(r.1@)) == reads(*op),
{
    let none: Vec<String> = Vec::new();
    assert(texts(none@) =~= Seq::empty());
    match op {
        Op::Filter { pred } => {
            let mut out: Vec<String> = Vec::new();
            collect_bare_fields(pred, &mut out);
            assert(texts(out@) =~= names_in(*pred));
            (out, none)
        },
        Op::Validate { pred } => {
            let mut out: Vec<String> = Vec::new();
            collect_bare_fields(pred, &mut out);
            assert(texts(out@) =~= names_in(*pred));
            (out, none)
        },
        Op::FilterProject { preds, fields } => (read_by_filter(preds, fields), none),
        Op::Project { fields } => (dup_texts(fields), none),
        Op::ProjectExpr { items, views } => (read_by_items(items, views), none),
        Op::GroupBy { keys, aggs } => (read_by_group(keys, aggs), none),
        Op::Sort { keys } => (sort_keys(keys), none),
        Op::Distinct { keys } => (bare_keys(keys), none),
        Op::Join { left_keys, right_keys, .. } => (bare_keys(left_keys), bare_keys(right_keys)),
        Op::DropNa { cols } => (dup_texts(cols), none),
        Op::Drop { cols } => (dup_texts(cols), none),
        Op::Reorder { cols } => (dup_texts(cols), none),
        Op::Fill { col, .. } => {
            let r: Vec<String> = name_then(col, &none);
            assert(texts(r@) =~= seq![col@]);
            (r, none)
        },
        Op::Sessionize { ts, by } => (name_then(ts, by), none),
        Op::Shift { col, by } => (name_then(col, by), none),
        Op::AsofJoin { ts, by } => (name_then(ts, by), none),
        Op::Cast { casts } => (cast_names(casts), none),
        Op::Rename { pairs } => (rename_names(pairs), none),
        _ => {
            let also: Vec<String> = Vec::new();
            assert(texts(also@) =~= Seq::empty());
            (none, also)
        },
    }
}

// --------------------------------------------------------------- refusals

/// The declared schema of each node's output, where it is known.
pub type Schemas = Vec<Option<Vec<Field>>>;

/// Is the column missing in the declared schema of a node's input?
pub open spec fn missing(g: PlanGraph, schemas: Seq<Option<Vec<Field>>>, node: int, slot: int, col: Seq<char>) -> bool {
    let ins = g.inputs(node);
    slot < ins.len() && schemas[ins[slot] as int] is Some && index_in(
        fields_view(schemas[ins[slot] as int]->Some_0@),
        col,
    ) is None
}

/// The place of the first of the names that is missing.
pub open spec fn first_missing(
    g: PlanGraph,
    schemas: Seq<Option<Vec<Field>>>,
    node: int,
    slot: int,
    names: Seq<Seq<char>>,
) -> Option<int>
    decreases names.len(),
{
    if names.len() == 0 {
        None
    } else {
        match first_missing(g, schemas, node, slot, names.drop_last()) {
            Some(i) => Some(i),
            None => if missing(g, schemas, node, slot, names.last()) {
                Some(names.len() - 1)
            } else {
                None
            },
        }
    }
}

/// A reference that is missing: the node, its input, and the name.
pub struct MissingV {
    pub node: int,
    pub slot: int,
    pub col: Seq<char>,
}

/// The first missing reference of one node.
pub open spec fn missing_at(g: PlanGraph, schemas: Seq<Option<Vec<Field>>>, node: int) -> Option<
    MissingV,
> {
    let (left, right) = reads(g.nodes@[node].op);
    match first_missing(g, schemas, node, 0, left) {
        Some(i) => Some(MissingV { node, slot: 0, col: left[i] }),
        None => match first_missing(g, schemas, node, 1, right) {
            Some(i) => Some(MissingV { node, slot: 1, col: right[i] }),
            None => None,
        },
    }
}

/// The first missing reference of the first `n` nodes.
pub open spec fn missing_in(g: PlanGraph, schemas: Seq<Option<Vec<Field>>>, n: nat) -> Option<
    MissingV,
>
    decreases n,
{
    if n == 0 {
        None
    } else {
        match missing_in(g, schemas, (n - 1) as nat) {
            Some(m) => Some(m),
            None => missing_at(g, schemas, n - 1),
        }
    }
}

/// The first hook of a node that routes.
pub open spec fn routes(hooks: Seq<Hook>) -> Option<int>
    decreases hooks.len(),
{
    if hooks.len() == 0 {
        None
    } else {
        match routes(hooks.drop_last()) {
            Some(i) => Some(i),
            None => if hooks.last().action is Route {
                Some(hooks.len() - 1)
            } else {
                None
            },
        }
    }
}

/// The first hook of the first `n` nodes that routes.
pub open spec fn routed(nodes: Seq<Node>, n: nat) -> Option<(int, int)>
    decreases n,
{
    if n == 0 {
        None
    } else {
        match routed(nodes, (n - 1) as nat) {
            Some(p) => Some(p),
            None => match routes(nodes[n - 1].hooks@) {
                Some(i) => Some((n - 1, i)),
                None => None,
            },
        }
    }
}

/// Why a plan is refused.
#[derive(Debug)]
pub enum Refusal {
    /// There is no node.
    Empty,
    /// A hook routes.
    Routes { event: String, target: String },
    /// A column is not in the declared schema of the input.
    Unknown {
        col: String,
        line: String,
        /// The names that are there.
        names: Vec<String>,
        /// Is the name a key of a group-by?
        group_key: bool,
    },
}

/// What a [`Refusal`] is.
pub enum RefusalV {
    Empty,
    Routes { event: Seq<char>, target: Seq<char> },
    Unknown { col: Seq<char>, line: Seq<char>, names: Seq<Seq<char>>, group_key: bool },
}

impl Refusal {
    /// The refusal.
    pub open spec fn view(&self) -> RefusalV {
        match self {
            Refusal::Empty => RefusalV::Empty,
            Refusal::Routes { event, target } => RefusalV::Routes {
                event: event@,
                target: target@,
            },
            Refusal::Unknown { col, line, names, group_key } => RefusalV::Unknown {
                col: col@,
                line: line@,
                names: texts(names@),
                group_key: *group_key,
            },
        }
    }
}

/// The names of a schema.
pub open spec fn names_of(fields: Seq<FieldV>) -> Seq<Seq<char>> {
    Seq::new(fields.len(), |i: int| fields[i].name)
}

/// Is the name a plain key of a group-by?
pub open spec fn keys_group(op: Op, col: Seq<char>) -> bool {
    op is GroupBy && bare_roots(op->GroupBy_keys@).contains(col)
}

/// Why the plan is refused, where it is: there is nothing to run; a hook
/// routes; or the first reference to a column that a declared schema lacks.
pub open spec fn refusal(g: PlanGraph, schemas: Seq<Option<Vec<Field>>>) -> Option<RefusalV> {
    if g.nodes@.len() == 0 {
        Some(RefusalV::Empty)
    } else {
        match routed(g.nodes@, g.nodes@.len()) {
            Some((n, i)) => {
                let h = g.nodes@[n].hooks@[i];
                Some(RefusalV::Routes { event: h.event_name@, target: h.action->Route_0@ })
            },
            None => match missing_in(g, schemas, g.nodes@.len()) {
                None => None,
                Some(m) => Some(
                    RefusalV::Unknown {
                        col: m.col,
                        line: g.nodes@[m.node].line@,
                        names: names_of(
                            fields_view(schemas[g.inputs(m.node)[m.slot] as int]->Some_0@),
                        ),
                        group_key: keys_group(g.nodes@[m.node].op, m.col),
                    },
                ),
            },
        }
    }
}

fn find_missing(
    g: &PlanGraph,
    schemas: &Schemas,
    ins: &Vec<NodeId>,
    node: NodeId,
    slot: usize,
    names: &Vec<String>,
) -> (r: Option<usize>)
    requires
        g.wf(),
        schemas@.len() == g.nodes@.len(),
        ins@ == g.inputs(node as int),
        forall|i: int| 0 <= i < ins@.len() ==> (#[trigger] ins@[i]) < g.nodes@.len(),
    ensures
        match r {
            Some(i) => i < names@.len() && slot < ins@.len() && schemas@[ins@[slot as int] as int] is Some
                && first_missing(*g, schemas@, node as int, slot as int, texts(names@)) == Some(
                i as int,
            ),
            None => first_missing(*g, schemas@, node as int, slot as int, texts(names@)) is None,
        },
{
    let ghost t = texts(names@);
    assert(t.take(0) =~= Seq::empty());
    for i in 0..names.len()
        invariant
            g.wf(),
            schemas@.len() == g.nodes@.len(),
            ins@ == g.inputs(node as int),
            forall|i: int| 0 <= i < ins@.len() ==> (#[trigger] ins@[i]) < g.nodes@.len(),
            t == texts(names@),
            first_missing(*g, schemas@, node as int, slot as int, t.take(i as int)) is None,
    {
        assert(t.take(i + 1).drop_last() =~= t.take(i as int));
        assert(t[i as int] == names@[i as int]@);
        if slot < ins.len() {
            assert(ins@[slot as int] < g.nodes@.len());
            match &schemas[ins[slot]] {
                Some(fields) => {
                    if index_of(fields, names[i].as_str()).is_none() {
                        proof {
                            lemma_first_missing(*g, schemas@, node as int, slot as int, t, i + 1);
                        }
                        return Some(i);
                    }
                },
                None => {},
            }
        }
    }
    assert(t.take(names@.len() as int) =~= t);
    None
}

proof fn lemma_first_missing(
    g: PlanGraph,
    schemas: Seq<Option<Vec<Field>>>,
    node: int,
    slot: int,
    names: Seq<Seq<char>>,
    n: int,
)
    requires
        0 <= n <= names.len(),
        first_missing(g, schemas, node, slot, names.take(n)) is Some,
    ensures
        first_missing(g, schemas, node, slot, names) == first_missing(
            g,
            schemas,
            node,
            slot,
            names.take(n),
        ),
    decreases names.len() - n,
{
    if n == names.len() {
        assert(names.take(n) =~= names);
    } else {
        assert(names.take(n + 1).drop_last() =~= names.take(n));
        lemma_first_missing(g, schemas, node, slot, names, n + 1);
    }
}

fn find_route(nodes: &Vec<Node>) -> (r: Option<(usize, usize)>)
    ensures
        match r {
            Some((n, i)) => routed(nodes@, nodes@.len()) == Some((n as int, i as int)) && n
                < nodes@.len() && i < nodes@[n as int].hooks@.len()
                && nodes@[n as int].hooks@[i as int].action is Route,
            None => routed(nodes@, nodes@.len()) is None,
        },
{
    for n in 0..nodes.len()
        invariant
            routed(nodes@, n as nat) is None,
    {
        let limit: usize = nodes[n].hooks.len();
        let ghost hs = nodes@[n as int].hooks@;
        assert(hs.take(0) =~= Seq::empty());
        for i in 0..limit
            invariant
                n < nodes@.len(),
                hs == nodes@[n as int].hooks@,
                limit == hs.len(),
                routed(nodes@, n as nat) is None,
                routes(hs.take(i as int)) is None,
        {
            assert(hs.take(i + 1).drop_last() =~= hs.take(i as int));
            if matches!(&nodes[n].hooks[i].action, HookAction::Route(_)) {
                proof {
                    lemma_routes(hs, i + 1);
                    lemma_routed(nodes@, (n + 1) as nat, nodes@.len());
                }
                return Some((n, i));
            }
        }
        assert(hs.take(limit as int) =~= hs);
    }
    None
}

proof fn lemma_routes(hs: Seq<Hook>, n: int)
    requires
        0 <= n <= hs.len(),
        routes(hs.take(n)) is Some,
    ensures
        routes(hs) == routes(hs.take(n)),
    decreases hs.len() - n,
{
    if n == hs.len() {
        assert(hs.take(n) =~= hs);
    } else {
        assert(hs.take(n + 1).drop_last() =~= hs.take(n));
        lemma_routes(hs, n + 1);
    }
}

proof fn lemma_routed(nodes: Seq<Node>, n: nat, m: nat)
    requires
        n <= m,
        routed(nodes, n) is Some,
    ensures
        routed(nodes, m) == routed(nodes, n),
    decreases m - n,
{
    if n < m {
        lemma_routed(nodes, n, (m - 1) as nat);
    }
}

proof fn lemma_missing_in(g: PlanGraph, schemas: Seq<Option<Vec<Field>>>, n: nat, m: nat)
    requires
        n <= m,
        missing_in(g, schemas, n) is Some,
    ensures
        missing_in(g, schemas, m) == missing_in(g, schemas, n),
    decreases m - n,
{
    if n < m {
        lemma_missing_in(g, schemas, n, (m - 1) as nat);
    }
}

fn field_names(fields: &Vec<Field>) -> (r: Vec<String>)
    ensures
        texts(r@) == names_of(fields_view(fields@)),
{
    let mut out: Vec<String> = Vec::new();
    for i in 0..fields.len()
        invariant
            out@.len() == i,
            forall|k: int| 0 <= k < i ==> (#[trigger] out@[k])@ == fields@[k].name@,
    {
        out.push(fields[i].name.clone());
    }
    assert(texts(out@) =~= names_of(fields_view(fields@)));
    out
}

fn is_group_key(op: &Op, col: &str) -> (r: bool)
    ensures
        r == keys_group(*op, col@),
{
    match op {
        Op::GroupBy { keys, .. } => {
            let roots: Vec<String> = bare_keys(keys);
            let ghost t = texts(roots@);
            for i in 0..roots.len()
                invariant
                    t == texts(roots@),
                    t == bare_roots(keys@),
                    op matches Op::GroupBy { keys: k0, .. } && k0 == *keys,
                    forall|k: int| 0 <= k < i ==> (#[trigger] t[k]) != col@,
            {
                assert(t[i as int] == roots@[i as int]@);
                if same_text(roots[i].as_str(), col) {
                    assert(t.contains(col@));
                    return true;
                }
            }
            false
        },
        _ => false,
    }
}

fn unknown_column(g: &PlanGraph, fields: &Vec<Field>, node: NodeId, col: &String) -> (r: Refusal)
    requires
        node < g.nodes@.len(),
    ensures
        r@ == (RefusalV::Unknown {
            col: col@,
            line: g.nodes@[node as int].line@,
            names: names_of(fields_view(fields@)),
            group_key: keys_group(g.nodes@[node as int].op, col@),
        }),
{
    Refusal::Unknown {
        col: col.clone(),
        line: g.nodes[node].line.clone(),
        names: field_names(fields),
        group_key: is_group_key(&g.nodes[node].op, col.as_str()),
    }
}

/// Checks a plan before it runs (see [`refusal`]). `schemas` holds the declared
/// schema of each node's output, where it is known.
pub fn plan_validate(g: &PlanGraph, schemas: &Schemas) -> (r: Result<(), Refusal>)
    requires
        g.wf(),
        schemas@.len() == g.nodes@.len(),
    ensures
        match r {
            Ok(_) => refusal(*g, schemas@) is None,
            Err(e) => refusal(*g, schemas@) == Some(e@),
        },
{
    if g.nodes.len() == 0 {
        return Err(Refusal::Empty);
    }
    match find_route(&g.nodes) {
        Some((n, i)) => {
            let h: &Hook = &g.nodes[n].hooks[i];
            match &h.action {
                HookAction::Route(target) => {
                    return Err(
                        Refusal::Routes { event: h.event_name.clone(), target: target.clone() },
                    );
                },
                _ => {},
            }
        },
        None => {},
    }
    for n in 0..g.nodes.len()
        invariant
            g.wf(),
            schemas@.len() == g.nodes@.len(),
            g.nodes@.len() > 0,
            routed(g.nodes@, g.nodes@.len()) is None,
            missing_in(*g, schemas@, n as nat) is None,
    {
        let ins: Vec<NodeId> = g.inputs_of(n);
        let (left, right) = read_columns(&g.nodes[n].op);
        match find_missing(g, schemas, &ins, n, 0, &left) {
            Some(i) => {
                assert(ins@[0] < g.nodes@.len());
                match &schemas[ins[0]] {
                    Some(fields) => {
                        proof {
                            assert(texts(left@)[i as int] == left@[i as int]@);
                            lemma_missing_in(*g, schemas@, (n + 1) as nat, g.nodes@.len());
                        }
                        return Err(unknown_column(g, fields, n, &left[i]));
                    },
                    None => {},
                }
            },
            None => {},
        }
        match find_missing(g, schemas, &ins, n, 1, &right) {
            Some(i) => {
                assert(ins@[1] < g.nodes@.len());
                match &schemas[ins[1]] {
                    Some(fields) => {
                        proof {
                            assert(texts(right@)[i as int] == right@[i as int]@);
                            lemma_missing_in(*g, schemas@, (n + 1) as nat, g.nodes@.len());
                        }
                        return Err(unknown_column(g, fields, n, &right[i]));
                    },
                    None => {},
                }
            },
            None => {},
        }
    }
    Ok(())
}

// ------------------------------------------------------------------ words

/// A line, cut short where it has more than 48 characters.
pub open spec fn shortened(line: Seq<char>) -> Seq<char> {
    if line.len() > 48 {
        line.take(47).push('\u{2026}')
    } else {
        line
    }
}

fn shorten(line: &str) -> (r: String)
    ensures
        r@ == shortened(line@),
{
    let v: Vec<char> = chars_of(line);
    if v.len() > 48 {
        let mut s: String = string_of(&v, 0, 47);
        s.push('\u{2026}');
        assert(s@ =~= line@.take(47).push('\u{2026}'));
        s
    } else {
        owned(line)
    }
}

/// Texts with a comma and a blank between them.
pub open spec fn listed(names: Seq<Seq<char>>) -> Seq<char>
    decreases names.len(),
{
    if names.len() == 0 {
        Seq::empty()
    } else if names.len() == 1 {
        names[0]
    } else {
        listed(names.drop_last()) + ", "@ + names.last()
    }
}

fn list(names: &Vec<String>) -> (r: String)
    ensures
        r@ == listed(texts(names@)),
{
    let ghost t = texts(names@);
    let mut out: String = String::new();
    assert(out@ =~= Seq::empty());
    for i in 0..names.len()
        invariant
            t == texts(names@),
            out@ == listed(t.take(i as int)),
    {
        proof {
            assert(t.take(i + 1).drop_last() =~= t.take(i as int));
            assert(t[i as int] == names@[i as int]@);
        }
        if i > 0 {
            out.push_str(", ");
        }
        out.push_str(names[i].as_str());
        proof {
            if i == 0 {
                assert(out@ =~= t.take(1)[0]);
            }
        }
    }
    assert(t.take(names@.len() as int) =~= t);
    out
}

/// What helps with an unknown column: where it is a group key that names an
/// aggregate, the form that aggregates take; else a name like it, where there
/// is one.
pub open spec fn hint(col: Seq<char>, agg_word: bool, group_key: bool, similar: Option<Seq<char>>) -> Seq<char> {
    if agg_word && group_key {
        " \u{2014} a bare word in `|#` is a group key; aggregates take the `func:col` form (e.g. `"@
            + col + ":price`), and `count` is always emitted"@
    } else {
        match similar {
            Some(s) => " \u{2014} did you mean '"@ + s + "'?"@,
            None => Seq::empty(),
        }
    }
}

/// The words of a refusal. `agg_word` says whether the name is that of an
/// aggregate, and `similar` gives a name like it.
pub open spec fn refusal_text(r: RefusalV, agg_word: bool, similar: Option<Seq<char>>) -> Seq<char> {
    match r {
        RefusalV::Empty => "no flow found (the program is empty) \u{2014} write at least one scope, e.g. `Name:\n    open file.csv\n;`"@,
        RefusalV::Routes { event, target } => "`on "@ + event + ": route "@ + target
            + "` is not yet implemented (only `transition <mode>` and `log \"\u{2026}\"` are wired) \u{2014} routing error items to a flow is a later slice; remove the hook or use `log`/`transition`"@,
        RefusalV::Unknown { col, line, names, group_key } => "unknown column '"@ + col + "' in `"@
            + shortened(line) + "`"@ + hint(col, agg_word, group_key, similar) + " (available: "@
            + listed(names) + ")"@,
    }
}

impl Refusal {
    /// The words of a refusal (see [`refusal_text`]).
    pub fn message(&self, agg_word: bool, similar: &Option<String>) -> (r: String)
        ensures
            r@ == refusal_text(self@, agg_word, crate::chunk::opt_text(*similar)),
    {
        match self {
            Refusal::Empty => owned(
                "no flow found (the program is empty) \u{2014} write at least one scope, e.g. `Name:\n    open file.csv\n;`",
            ),
            Refusal::Routes { event, target } => {
                let mut s: String = message3("`on ", event.as_str(), ": route ");
                s.push_str(target.as_str());
                s.push_str(
                    "` is not yet implemented (only `transition <mode>` and `log \"\u{2026}\"` are wired) \u{2014} routing error items to a flow is a later slice; remove the hook or use `log`/`transition`",
                );
                s
            },
            Refusal::Unknown { col, line, names, group_key } => {
                let mut s: String = message3("unknown column '", col.as_str(), "' in `");
                s.push_str(shorten(line.as_str()).as_str());
                s.push_str("`");
                let mut h: String = String::new();
                assert(h@ =~= Seq::empty());
                if agg_word && *group_key {
                    h = message3(
                        " \u{2014} a bare word in `|#` is a group key; aggregates take the `func:col` form (e.g. `",
                        col.as_str(),
                        ":price`), and `count` is always emitted",
                    );
                } else {
                    match similar {
                        Some(x) => {
                            h = message3(" \u{2014} did you mean '", x.as_str(), "'?");
                        },
                        None => {},
                    }
                }
                s.push_str(h.as_str());
                s.push_str(" (available: ");
                s.push_str(list(names).as_str());
                s.push_str(")");
                s
            },
        }
    }
}

} // verus!
