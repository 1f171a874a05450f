//! Paths into nested columns.
use vstd::prelude::*;
use crate::cast::{clean, count, counted, Outcome};
use crate::chunk::{fields_view, Batch, Chunk, Field, FieldV, Nested, Shape};
use crate::expr::PathSeg;
use crate::text::same_text;
use crate::value::{Datum, Value};

verus! {

/// One step of a path.
pub enum Step {
    Field(Seq<char>),
    Index(int),
}

/// The step of a path segment.
pub open spec fn step(s: PathSeg) -> Step {
    match s {
        PathSeg::Field(n) => Step::Field(n@),
        PathSeg::Index(i) => Step::Index(i as int),
    }
}

/// The steps of a list of segments.
pub open spec fn steps(s: Seq<PathSeg>) -> Seq<Step> {
    Seq::new(s.len(), |i: int| step(s[i]))
}

/// Where a struct value has the field named `name`.
pub open spec fn member(fs: Seq<(Seq<char>, Datum)>, name: Seq<char>, from: int) -> Option<int>
    decreases fs.len() - from,
{
    if from < 0 || from >= fs.len() {
        None
    } else if fs[from].0 == name {
        Some(from)
    } else {
        member(fs, name, from + 1)
    }
}

/// The value at the end of a path: a missing value on the way is missing; a
/// field that is not there, an index out of range, and a step into a value of
/// another shape are missing and counted.
pub open spec fn walk(d: Datum, path: Seq<Step>) -> Outcome
    decreases path.len(),
{
    if d is Null || path.len() == 0 {
        clean(d)
    } else {
        match (d, path[0]) {
            (Datum::Struct(fs), Step::Field(name)) => match member(fs, name, 0) {
                Some(i) => walk(fs[i].1, path.drop_first()),
                None => Ok((Datum::Null, 1)),
            },
            (Datum::List(v), Step::Index(i)) => if 0 <= i < v.len() {
                walk(v[i], path.drop_first())
            } else {
                Ok((Datum::Null, 1))
            },
            _ => Ok((Datum::Null, 1)),
        }
    }
}

fn find_member(fs: &Vec<(String, Value)>, name: &str) -> (r: Option<usize>)
    ensures
        ({
            let all = Value::Struct(*fs)@->Struct_0;
            match r {
                Some(i) => member(all, name@, 0) == Some(i as int) && i < fs@.len(),
                None => member(all, name@, 0) is None,
            }
        }),
{
    let ghost all = Value::Struct(*fs)@->Struct_0;
    let mut i: usize = 0;
    while i < fs.len()
        invariant
            i <= fs@.len(),
            all == Value::Struct(*fs)@->Struct_0,
            member(all, name@, 0) == member(all, name@, i as int),
        decreases fs.len() - i,
    {
        assert(all[i as int].0 == fs@[i as int].0@);
        if same_text(fs[i].0.as_str(), name) {
            return Some(i);
        }
        i += 1;
    }
    None
}

/// Walks the segments `segs[from..]` into a value (see [`walk`]).
pub fn resolve(v: &Value, segs: &Vec<PathSeg>, from: usize, fails: &mut u64) -> (r: Value)
    requires
        from <= segs@.len(),
    ensures
        walk(v@, steps(segs@).skip(from as int)) matches Ok((d, n)) && r@ == d && *final(fails)
            == counted(*old(fails), n),
    decreases segs@.len() - from,
{
    let ghost path = steps(segs@).skip(from as int);
    if v.is_null() || from == segs.len() {
        return v.dup();
    }
    assert(path[0] == step(segs@[from as int]));
    assert(path.drop_first() =~= steps(segs@).skip(from + 1));
    match (v, &segs[from]) {
        (Value::Struct(fs), PathSeg::Field(name)) => {
            assert(*v == Value::Struct(*fs));
            match find_member(fs, name.as_str()) {
                Some(i) => {
                    assert(v@->Struct_0[i as int].1 == fs@[i as int].1@);
                    resolve(&fs[i].1, segs, from + 1, fails)
                },
                None => {
                    count(fails, 1);
                    Value::Null
                },
            }
        },
        (Value::List(items), PathSeg::Index(i)) => {
            assert(*v == Value::List(*items));
            let k: usize = *i as usize;
            if k < items.len() {
                assert(v@->List_0[k as int] == items@[k as int]@);
                resolve(&items[k], segs, from + 1, fails)
            } else {
                count(fails, 1);
                Value::Null
            }
        },
        _ => {
            count(fails, 1);
            Value::Null
        },
    }
}

/// The value that a path finds in a row; a missing root column is counted.
pub open spec fn path_cell(b: Batch, root: Seq<char>, path: Seq<Step>, row: int) -> Outcome {
    match b.column(root) {
        Some(c) => walk(c.cells[row], path),
        None => Ok((Datum::Null, 1)),
    }
}

/// The value that a path finds in a row (see [`path_cell`]).
pub fn eval_path(root: &str, segs: &Vec<PathSeg>, chunk: &Chunk, row: usize, fails: &mut u64) -> (r: Value)
    requires
        chunk@.wf(),
        row < chunk.len,
    ensures
        path_cell(chunk@, root@, steps(segs@), row as int) matches Ok((d, n)) && r@ == d
            && *final(fails) == counted(*old(fails), n),
{
    match chunk.column(root) {
        Some(c) => {
            assert(steps(segs@).skip(0) =~= steps(segs@));
            assert(c@.cells[row as int] == c.cells@[row as int]@);
            resolve(&c.cells[row], segs, 0, fails)
        },
        None => {
            count(fails, 1);
            Value::Null
        },
    }
}

// ---------------------------------------------------------------- deep descent

/// A field met while descending: its root column, the steps that lead to it,
/// and itself.
pub struct Entry {
    pub root: Seq<char>,
    pub path: Seq<Step>,
    pub field: FieldV,
}

/// The inner fields of a struct field; nothing for any other.
pub open spec fn children(f: FieldV) -> Seq<FieldV> {
    match f.nested {
        Shape::Struct(fs) => fs,
        _ => Seq::empty(),
    }
}

/// The sum of a sequence of numbers.
pub open spec fn total(s: Seq<nat>) -> nat
    decreases s.len(),
{
    if s.len() == 0 {
        0
    } else {
        total(s.drop_last()) + s.last()
    }
}

/// The number of fields at and below each inner field of a field.
pub open spec fn child_sizes(f: FieldV) -> Seq<nat>
    decreases f,
{
    match f.nested {
        Shape::Struct(fs) => Seq::new(
            fs.len(),
            |i: int|
                if 0 <= i < fs.len() {
                    1 + total(child_sizes(fs[i]))
                } else {
                    0
                },
        ),
        _ => Seq::empty(),
    }
}

/// The number of fields at and below a field.
pub open spec fn size(f: FieldV) -> nat {
    1 + total(child_sizes(f))
}

/// The number of fields at and below each entry of a level.
pub open spec fn sizes(level: Seq<Entry>) -> Seq<nat> {
    Seq::new(level.len(), |i: int| size(level[i].field))
}

/// The number of fields at and below a level.
#[verifier::opaque]
pub open spec fn size_level(level: Seq<Entry>) -> nat {
    total(sizes(level))
}

/// The entries of the inner fields of one entry.
pub open spec fn expand(e: Entry) -> Seq<Entry> {
    let fs = children(e.field);
    Seq::new(
        fs.len(),
        |i: int| Entry { root: e.root, path: e.path.push(Step::Field(fs[i].name)), field: fs[i] },
    )
}

/// The next level: the inner fields of every entry, in order.
pub open spec fn next_level(level: Seq<Entry>) -> Seq<Entry>
    decreases level.len(),
{
    if level.len() == 0 {
        Seq::empty()
    } else {
        next_level(level.drop_last()) + expand(level.last())
    }
}

/// How many entries of a level have the name.
pub open spec fn named(level: Seq<Entry>, name: Seq<char>) -> nat
    decreases level.len(),
{
    if level.len() == 0 {
        0
    } else {
        named(level.drop_last(), name) + (if level.last().field.name == name {
            1nat
        } else {
            0nat
        })
    }
}

/// The first entry of a level that has the name.
pub open spec fn first_named(level: Seq<Entry>, name: Seq<char>) -> Option<Entry>
    decreases level.len(),
{
    if level.len() == 0 {
        None
    } else {
        match first_named(level.drop_last(), name) {
            Some(e) => Some(e),
            None => if level.last().field.name == name {
                Some(level.last())
            } else {
                None
            },
        }
    }
}

pub proof fn lemma_total_append(a: Seq<nat>, b: Seq<nat>)
    ensures
        total(a + b) == total(a) + total(b),
    decreases b.len(),
{
    if b.len() == 0 {
        assert(a + b =~= a);
    } else {
        assert((a + b).drop_last() =~= a + b.drop_last());
        lemma_total_append(a, b.drop_last());
    }
}

proof fn lemma_size_entry(e: Entry)
    ensures
        size(e.field) == 1 + size_level(expand(e)),
{
    reveal(size_level);
    assert(sizes(expand(e)) =~= child_sizes(e.field));
}

/// Every level has fewer fields at and below it than the level above.
proof fn lemma_next_smaller(level: Seq<Entry>)
    ensures
        size_level(next_level(level)) + level.len() == size_level(level),
    decreases level.len(),
{
    reveal(size_level);
    if level.len() > 0 {
        let up = next_level(level.drop_last());
        let e = level.last();
        lemma_next_smaller(level.drop_last());
        lemma_size_entry(e);
        lemma_total_append(sizes(up), sizes(expand(e)));
        assert(sizes(up + expand(e)) =~= sizes(up) + sizes(expand(e)));
        assert(sizes(level).drop_last() =~= sizes(level.drop_last()));
        assert(sizes(level).last() == size(e.field));
    } else {
        assert(sizes(level) =~= Seq::empty());
        assert(sizes(next_level(level)) =~= Seq::empty());
    }
}

/// The shallowest field of that name, breadth first from `level`; with it,
/// whether there is more than one at that depth.
pub open spec fn deep_find(level: Seq<Entry>, name: Seq<char>) -> Option<(Entry, bool)>
    decreases size_level(level),
    via deep_find_ends
{
    if level.len() == 0 {
        None
    } else {
        match first_named(level, name) {
            Some(e) => Some((e, named(level, name) > 1)),
            None => deep_find(next_level(level), name),
        }
    }
}

#[via_fn]
proof fn deep_find_ends(level: Seq<Entry>, name: Seq<char>) {
    lemma_next_smaller(level);
}

/// The top level of a schema.
pub open spec fn top_level(fields: Seq<FieldV>) -> Seq<Entry> {
    Seq::new(
        fields.len(),
        |i: int| Entry { root: fields[i].name, path: Seq::empty(), field: fields[i] },
    )
}

/// The value of the shallowest field named `name`. More than one at that depth
/// is counted and the first is taken; none at all is counted too.
pub open spec fn deep_cell(b: Batch, name: Seq<char>, row: int) -> Outcome {
    match deep_find(top_level(b.fields), name) {
        None => Ok((Datum::Null, 1)),
        Some((e, ambiguous)) => match path_cell(b, e.root, e.path, row) {
            Err(q) => Err(q),
            Ok((d, n)) => Ok(
                (
                    d,
                    n + (if ambiguous {
                        1nat
                    } else {
                        0nat
                    }),
                ),
            ),
        },
    }
}

/// An entry of the descent.
struct Node<'a> {
    root: &'a String,
    segs: Vec<PathSeg>,
    field: &'a Field,
}

impl<'a> Node<'a> {
    spec fn view(&self) -> Entry {
        Entry { root: self.root@, path: steps(self.segs@), field: self.field@ }
    }
}

spec fn entries(s: Seq<Node>) -> Seq<Entry> {
    Seq::new(s.len(), |i: int| s[i]@)
}

fn dup_segs(s: &Vec<PathSeg>) -> (r: Vec<PathSeg>)
    ensures
        steps(r@) == steps(s@),
{
    let mut r: Vec<PathSeg> = Vec::new();
    for i in 0..s.len()
        invariant
            r@.len() == i,
            forall|k: int| 0 <= k < i ==> step(#[trigger] r@[k]) == step(s@[k]),
    {
        let item: PathSeg = match &s[i] {
            PathSeg::Field(n) => PathSeg::Field(n.clone()),
            PathSeg::Index(k) => PathSeg::Index(*k),
        };
        r.push(item);
    }
    assert(steps(r@) =~= steps(s@));
    r
}

/// Appends the inner fields of `node` to `next`.
fn descend<'a>(node: &Node<'a>, next: &mut Vec<Node<'a>>)
    ensures
        entries(final(next)@) == entries(old(next)@) + expand(node@),
{
    let ghost before = entries(next@);
    let ghost all = expand(node@);
    match &node.field.nested {
        Nested::Struct(fs) => {
            let ghost kids = children(node@.field);
            assert(kids.len() == fs@.len());
            for i in 0..fs.len()
                invariant
                    kids == children(node@.field),
                    all == expand(node@),
                    node.field.nested == Nested::Struct(*fs),
                    kids.len() == fs@.len(),
                    entries(next@) == before + all.take(i as int),
            {
                let mut segs: Vec<PathSeg> = dup_segs(&node.segs);
                let ghost had = steps(segs@);
                segs.push(PathSeg::Field(fs[i].name.clone()));
                assert(steps(segs@) =~= had.push(Step::Field(fs@[i as int].name@)));
                assert(kids[i as int] == fs@[i as int]@);
                let ghost sofar = entries(next@);
                next.push(Node { root: node.root, segs, field: &fs[i] });
                assert(entries(next@) =~= sofar.push(all[i as int]));
                assert(all.take(i + 1) =~= all.take(i as int).push(all[i as int]));
                assert(before + all.take(i + 1) =~= sofar.push(all[i as int]));
            }
            assert(all.take(all.len() as int) =~= all);
        },
        _ => {
            assert(all =~= Seq::empty());
            assert(before + all =~= before);
        },
    }
}

/// A path found by descending: root column, steps, and whether other fields of
/// that name stand at the same depth.
pub struct DeepPath {
    pub root: String,
    pub segs: Vec<PathSeg>,
    pub ambiguous: bool,
}

/// The top level of a schema.
fn tops<'a>(fields: &'a Vec<Field>) -> (r: Vec<Node<'a>>)
    ensures
        entries(r@) == top_level(fields_view(fields@)),
{
    let mut level: Vec<Node<'a>> = Vec::new();
    let ghost top = top_level(fields_view(fields@));
    for i in 0..fields.len()
        invariant
            top == top_level(fields_view(fields@)),
            entries(level@) == top.take(i as int),
    {
        let ghost sofar = entries(level@);
        let segs: Vec<PathSeg> = Vec::new();
        assert(steps(segs@) =~= Seq::empty());
        level.push(Node { root: &fields[i].name, segs, field: &fields[i] });
        assert(entries(level@) =~= sofar.push(top[i as int]));
        assert(top.take(i + 1) =~= top.take(i as int).push(top[i as int]));
    }
    assert(top.take(top.len() as int) =~= top);
    level
}

/// The first entry of a level with the name, and whether there are more.
fn scan<'a>(level: &Vec<Node<'a>>, name: &str) -> (r: (Option<usize>, bool))
    ensures
        ({
            let now = entries(level@);
            &&& match r.0 {
                Some(k) => k < level@.len() && first_named(now, name@) == Some(level@[k as int]@),
                None => first_named(now, name@) is None,
            }
            &&& r.1 == (named(now, name@) > 1)
        }),
{
    let ghost now = entries(level@);
    let mut first: Option<usize> = None;
    let mut many: bool = false;
    assert(now.take(0) =~= Seq::empty());
    for i in 0..level.len()
        invariant
            now == entries(level@),
            match first {
                Some(k) => k < i && first_named(now.take(i as int), name@) == Some(now[k as int])
                    && named(now.take(i as int), name@) >= 1,
                None => first_named(now.take(i as int), name@) is None && named(
                    now.take(i as int),
                    name@,
                ) == 0,
            },
            many == (named(now.take(i as int), name@) > 1),
    {
        assert(now.take(i + 1).drop_last() =~= now.take(i as int));
        assert(now.take(i + 1).last() == now[i as int]);
        if same_text(level[i].field.name.as_str(), name) {
            if first.is_some() {
                many = true;
            } else {
                first = Some(i);
            }
        }
    }
    assert(now.take(now.len() as int) =~= now);
    (first, many)
}

/// The next level down.
fn below<'a>(level: &Vec<Node<'a>>) -> (r: Vec<Node<'a>>)
    ensures
        entries(r@) == next_level(entries(level@)),
{
    let ghost now = entries(level@);
    let mut next: Vec<Node<'a>> = Vec::new();
    assert(entries(next@) =~= next_level(now.take(0)));
    for i in 0..level.len()
        invariant
            now == entries(level@),
            entries(next@) == next_level(now.take(i as int)),
    {
        assert(now.take(i + 1).drop_last() =~= now.take(i as int));
        assert(now.take(i + 1).last() == now[i as int]);
        descend(&level[i], &mut next);
    }
    assert(now.take(now.len() as int) =~= now);
    next
}

/// The shallowest field named `name` in the struct nesting of a schema, breadth
/// first. Lists are not descended into.
pub fn find_deep_path(fields: &Vec<Field>, name: &str) -> (r: Option<DeepPath>)
    ensures
        match (r, deep_find(top_level(fields_view(fields@)), name@)) {
            (Some(p), Some((e, a))) => p.root@ == e.root && steps(p.segs@) == e.path && p.ambiguous
                == a,
            (None, None) => true,
            _ => false,
        },
{
    let mut level: Vec<Node> = tops(fields);
    let ghost top = top_level(fields_view(fields@));
    while level.len() > 0
        invariant
            deep_find(top, name@) == deep_find(entries(level@), name@),
            top == top_level(fields_view(fields@)),
        decreases size_level(entries(level@)),
    {
        let (first, many) = scan(&level, name);
        if let Some(k) = first {
            return Some(
                DeepPath {
                    root: level[k].root.clone(),
                    segs: dup_segs(&level[k].segs),
                    ambiguous: many,
                },
            );
        }
        proof {
            lemma_next_smaller(entries(level@));
        }
        level = below(&level);
    }
    None
}

/// The value of the shallowest field named `name` (see [`deep_cell`]).
pub fn eval_deep(name: &str, chunk: &Chunk, row: usize, fails: &mut u64) -> (r: Value)
    requires
        chunk@.wf(),
        row < chunk.len,
    ensures
        deep_cell(chunk@, name@, row as int) matches Ok((d, n)) && r@ == d && *final(fails)
            == counted(*old(fails), n),
{
    match find_deep_path(&chunk.fields, name) {
        Some(p) => {
            if p.ambiguous {
                count(fails, 1);
            }
            eval_path(p.root.as_str(), &p.segs, chunk, row, fails)
        },
        None => {
            count(fails, 1);
            Value::Null
        },
    }
}

} // verus!
