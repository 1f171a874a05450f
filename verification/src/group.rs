//! The blocking group-by: one row for each distinct key, with a count and the
//! aggregates of the group.
use vstd::prelude::*;
use crate::agg::{add_count, needs_text, of_text, one_pass, one_scale, sat_add, sums_fit, dec_total, same_exact, same_extremes, lemma_extremes_merge, lemma_merge_is_one_pass, lemma_pass_parts, Acc, AggAcc, AggFunc, Item, Moments};
use crate::cast::{render, rendered};
use crate::chunk::{fields_view, flat_field, index_in, index_of, lanes, Batch, Chunk, Column, Field, Lane, Mode};
use crate::compare::{agree, lemma_text_order_equal, text_order};
use crate::event::{message3, CtxV, ErrorScope, OpCtx, Severity};
use crate::float::{Rank, F64};
use crate::host::{Answers, Ask, Log, Query};
use crate::rows::{ascending, find_key, joined, join_parts, key_parts, known, lemma_parts_len, lemma_place, parts_of, place_of, resolve_names, unknown, within};
use crate::text::{owned, same_text};
use crate::value::{data, dup_texts, texts, DataType, DateTime, Datum, Decimal, Value};

verus! {

/// An aggregate of a group-by: a function of a column, and the function's label
/// in the name of the result.
#[derive(Debug)]
pub struct AggSpec {
    pub func: AggFunc,
    pub col: String,
    pub label: String,
}

/// What an [`AggSpec`] is.
pub struct AggV {
    pub func: AggFunc,
    pub col: Seq<char>,
    pub label: Seq<char>,
}

impl AggSpec {
    /// The aggregate.
    pub open spec fn view(&self) -> AggV {
        AggV { func: self.func, col: self.col@, label: self.label@ }
    }

    /// A copy.
    pub fn dup(&self) -> (r: AggSpec)
        ensures
            r@ == self@,
    {
        AggSpec { func: self.func, col: self.col.clone(), label: self.label.clone() }
    }
}

/// The views of a list of aggregates.
pub open spec fn agg_views(s: Seq<AggSpec>) -> Seq<AggV> {
    Seq::new(s.len(), |i: int| s[i]@)
}

// ------------------------------------------------------------ input rows

/// What a group-by reads of one row: its key, and for each aggregate the cell
/// with its text; nothing where the column is not there.
pub struct RowV {
    pub parts: Seq<Seq<char>>,
    pub items: Seq<Option<Item>>,
}

impl RowV {
    /// The composite key.
    pub open spec fn key(self) -> Seq<char> {
        joined(self.parts)
    }
}

/// The item of one aggregate. The text is taken only where the function reads
/// it.
pub open spec fn item_of(b: Batch, a: AggV, row: int, log: Log) -> Result<Option<Item>, Query> {
    match index_in(b.fields, a.col) {
        None => Ok(None),
        Some(i) => if of_text(a.func) {
            match rendered(b.cell(row, i), log) {
                Err(q) => Err(q),
                Ok(t) => Ok(Some((b.cell(row, i), t))),
            }
        } else {
            Ok(Some((b.cell(row, i), Seq::empty())))
        },
    }
}

/// The items of the first `n` aggregates.
pub open spec fn items_of(b: Batch, aggs: Seq<AggV>, row: int, n: nat, log: Log) -> Result<
    Seq<Option<Item>>,
    Query,
>
    decreases n,
{
    if n == 0 {
        Ok(Seq::empty())
    } else {
        match items_of(b, aggs, row, (n - 1) as nat, log) {
            Err(q) => Err(q),
            Ok(s) => match item_of(b, aggs[n - 1], row, log) {
                Err(q) => Err(q),
                Ok(x) => Ok(s.push(x)),
            },
        }
    }
}

/// What is read of one row.
pub open spec fn row_in(b: Batch, at: Seq<usize>, aggs: Seq<AggV>, row: int, log: Log) -> Result<RowV, Query> {
    match key_parts(b, at, row, at.len(), log) {
        Err(q) => Err(q),
        Ok(parts) => match items_of(b, aggs, row, aggs.len(), log) {
            Err(q) => Err(q),
            Ok(items) => Ok(RowV { parts, items }),
        },
    }
}

/// What is read of the first `n` rows.
pub open spec fn rows_in(b: Batch, at: Seq<usize>, aggs: Seq<AggV>, n: nat, log: Log) -> Result<Seq<RowV>, Query>
    decreases n,
{
    if n == 0 {
        Ok(Seq::empty())
    } else {
        match rows_in(b, at, aggs, (n - 1) as nat, log) {
            Err(q) => Err(q),
            Ok(s) => match row_in(b, at, aggs, n - 1, log) {
                Err(q) => Err(q),
                Ok(r) => Ok(s.push(r)),
            },
        }
    }
}

/// One row as it is read.
pub struct InputRow {
    pub parts: Vec<String>,
    pub items: Vec<Option<(Value, String)>>,
}

/// The view of an item.
pub open spec fn item_view(x: Option<(Value, String)>) -> Option<Item> {
    match x {
        Some((v, t)) => Some((v@, t@)),
        None => None,
    }
}

/// The views of a list of items.
pub open spec fn item_views(s: Seq<Option<(Value, String)>>) -> Seq<Option<Item>> {
    Seq::new(s.len(), |i: int| item_view(s[i]))
}

impl InputRow {
    /// The row.
    pub open spec fn view(&self) -> RowV {
        RowV { parts: texts(self.parts@), items: item_views(self.items@) }
    }
}

/// The views of a list of rows.
pub open spec fn row_views(s: Seq<InputRow>) -> Seq<RowV> {
    Seq::new(s.len(), |i: int| s[i]@)
}

proof fn lemma_items_stop(b: Batch, aggs: Seq<AggV>, row: int, n: nat, m: nat, log: Log)
    requires
        items_of(b, aggs, row, n, log) is Err,
        n <= m,
    ensures
        items_of(b, aggs, row, m, log) == items_of(b, aggs, row, n, log),
    decreases m,
{
    if n < m {
        lemma_items_stop(b, aggs, row, n, (m - 1) as nat, log);
    }
}

proof fn lemma_rows_stop(b: Batch, at: Seq<usize>, aggs: Seq<AggV>, n: nat, m: nat, log: Log)
    requires
        rows_in(b, at, aggs, n, log) is Err,
        n <= m,
    ensures
        rows_in(b, at, aggs, m, log) == rows_in(b, at, aggs, n, log),
    decreases m,
{
    if n < m {
        lemma_rows_stop(b, at, aggs, n, (m - 1) as nat, log);
    }
}

/// Every row has a part for each key and an item for each aggregate.
pub open spec fn shaped(rows: Seq<RowV>, keys: nat, aggs: nat) -> bool {
    forall|i: int|
        0 <= i < rows.len() ==> (#[trigger] rows[i]).parts.len() == keys && rows[i].items.len()
            == aggs
}

fn read_items(chunk: &Chunk, aggs: &Vec<AggSpec>, row: usize, host: &Answers) -> (r: Result<
    Vec<Option<(Value, String)>>,
    Ask,
>)
    requires
        chunk@.wf(),
        row < chunk.len,
    ensures
        agree(
            r,
            items_of(chunk@, agg_views(aggs@), row as int, aggs@.len(), host@),
            |a: Vec<Option<(Value, String)>>, b: Seq<Option<Item>>|
                item_views(a@) == b && b.len() == aggs@.len(),
        ),
{
    let ghost av = agg_views(aggs@);
    let mut out: Vec<Option<(Value, String)>> = Vec::new();
    assert(item_views(out@) =~= Seq::empty());
    for n in 0..aggs.len()
        invariant
            chunk@.wf(),
            row < chunk.len,
            av == agg_views(aggs@),
            items_of(chunk@, av, row as int, n as nat, host@) == Ok::<Seq<Option<Item>>, Query>(
                item_views(out@),
            ),
            out@.len() == n,
    {
        let ghost before = item_views(out@);
        let a: &AggSpec = &aggs[n];
        assert(av[n as int] == a@);
        let item: Option<(Value, String)> = match index_of(&chunk.fields, a.col.as_str()) {
            None => None,
            Some(i) => {
                let v: Value = chunk.value(row, i);
                if needs_text(a.func) {
                    match render(&v, host) {
                        Err(q) => {
                            proof {
                                lemma_items_stop(
                                    chunk@,
                                    av,
                                    row as int,
                                    (n + 1) as nat,
                                    aggs@.len(),
                                    host@,
                                );
                            }
                            return Err(q);
                        },
                        Ok(t) => Some((v, t)),
                    }
                } else {
                    let t: String = String::new();
                    assert(t@ =~= Seq::empty());
                    Some((v, t))
                }
            },
        };
        out.push(item);
        assert(item_views(out@) =~= before.push(item_view(item)));
    }
    Ok(out)
}

fn read_rows(chunk: &Chunk, at: &Vec<usize>, aggs: &Vec<AggSpec>, host: &Answers) -> (r: Result<
    Vec<InputRow>,
    Ask,
>)
    requires
        chunk@.wf(),
        within(chunk@.fields, at@),
    ensures
        agree(
            r,
            rows_in(chunk@, at@, agg_views(aggs@), chunk@.len, host@),
            |a: Vec<InputRow>, b: Seq<RowV>|
                row_views(a@) == b && b.len() == chunk@.len && shaped(b, at@.len(), aggs@.len()),
        ),
{
    let ghost av = agg_views(aggs@);
    let mut out: Vec<InputRow> = Vec::new();
    assert(row_views(out@) =~= Seq::empty());
    for n in 0..chunk.len
        invariant
            chunk@.wf(),
            within(chunk@.fields, at@),
            av == agg_views(aggs@),
            rows_in(chunk@, at@, av, n as nat, host@) == Ok::<Seq<RowV>, Query>(row_views(out@)),
            out@.len() == n,
            shaped(row_views(out@), at@.len(), aggs@.len()),
    {
        let ghost before = row_views(out@);
        proof {
            lemma_parts_len(chunk@, at@, n as int, at@.len(), host@);
            assert forall|i: int| 0 <= i < at@.len() implies (#[trigger] at@[i])
                < chunk@.columns.len() by {}
        }
        let parts: Vec<String> = match parts_of(chunk, at, n, host) {
            Err(a) => {
                proof {
                    lemma_rows_stop(chunk@, at@, av, (n + 1) as nat, chunk@.len, host@);
                }
                return Err(a);
            },
            Ok(p) => p,
        };
        let items: Vec<Option<(Value, String)>> = match read_items(chunk, aggs, n, host) {
            Err(a) => {
                proof {
                    lemma_rows_stop(chunk@, at@, av, (n + 1) as nat, chunk@.len, host@);
                }
                return Err(a);
            },
            Ok(p) => p,
        };
        let row = InputRow { parts, items };
        let ghost rv = row@;
        out.push(row);
        assert(row_views(out@) =~= before.push(rv));
    }
    Ok(out)
}

// ---------------------------------------------------------------- groups

/// The state of one group.
pub struct GroupState {
    pub key_parts: Vec<String>,
    pub count: i64,
    pub accs: Vec<AggAcc>,
}

/// What a [`GroupState`] is.
#[verifier::ext_equal]
pub struct GroupV {
    pub parts: Seq<Seq<char>>,
    pub count: int,
    pub accs: Seq<Acc>,
}

/// The views of a list of accumulators.
pub open spec fn acc_views(s: Seq<AggAcc>) -> Seq<Acc> {
    Seq::new(s.len(), |i: int| s[i]@)
}

impl GroupState {
    /// The state.
    pub open spec fn view(&self) -> GroupV {
        GroupV {
            parts: texts(self.key_parts@),
            count: self.count as int,
            accs: acc_views(self.accs@),
        }
    }

    /// Counts are not negative.
    pub open spec fn wf(&self) -> bool {
        &&& self.count >= 0
        &&& forall|i: int| 0 <= i < self.accs@.len() ==> (#[trigger] self.accs@[i]).wf()
    }
}

/// A group before its first row.
pub open spec fn fresh_group(parts: Seq<Seq<char>>, aggs: Seq<AggV>) -> GroupV {
    GroupV { parts, count: 0, accs: Seq::new(aggs.len(), |i: int| Acc::empty(aggs[i].func)) }
}

/// An accumulator with the item of one more row.
pub open spec fn with_item(a: Acc, item: Option<Item>) -> Acc {
    match item {
        Some((d, t)) => a.with(d, t),
        None => a,
    }
}

/// A group with one more row.
pub open spec fn with_row(g: GroupV, r: RowV) -> GroupV {
    GroupV {
        parts: g.parts,
        count: sat_add(g.count, 1),
        accs: Seq::new(g.accs.len(), |j: int| with_item(g.accs[j], r.items[j])),
    }
}

/// All groups, by key.
pub type Groups = Map<Seq<char>, GroupV>;

/// The groups with one more row: it joins the group of its key, or starts it.
pub open spec fn grouped_row(g: Groups, r: RowV, aggs: Seq<AggV>) -> Groups {
    g.insert(
        r.key(),
        with_row(
            if g.dom().contains(r.key()) {
                g[r.key()]
            } else {
                fresh_group(r.parts, aggs)
            },
            r,
        ),
    )
}

/// The groups with more rows, in order.
pub open spec fn grouped(g: Groups, rows: Seq<RowV>, aggs: Seq<AggV>) -> Groups
    decreases rows.len(),
{
    if rows.len() == 0 {
        g
    } else {
        grouped_row(grouped(g, rows.drop_last(), aggs), rows.last(), aggs)
    }
}

/// The group table: the keys in ascending order, and beside each its group.
pub struct GroupTable {
    pub keys: Vec<String>,
    pub states: Vec<GroupState>,
}

/// The place of a key in a list.
pub open spec fn place(keys: Seq<Seq<char>>, k: Seq<char>) -> int {
    choose|i: int| 0 <= i < keys.len() && keys[i] == k
}

impl GroupTable {
    /// The keys.
    pub open spec fn order(&self) -> Seq<Seq<char>> {
        texts(self.keys@)
    }

    /// The groups, by key.
    pub open spec fn view(&self) -> Groups {
        Map::new(
            |k: Seq<char>| self.order().contains(k),
            |k: Seq<char>| self.states@[place(self.order(), k)]@,
        )
    }

    /// Ascending keys, a well formed group beside each, with an accumulator for
    /// each aggregate.
    pub open spec fn wf(&self, aggs: Seq<AggV>) -> bool {
        &&& ascending(self.order())
        &&& self.keys@.len() == self.states@.len()
        &&& forall|i: int|
            0 <= i < self.states@.len() ==> (#[trigger] self.states@[i]).wf()
                && self.states@[i].accs@.len() == aggs.len()
    }
}

/// In an ascending list a text stands at one place only.
pub proof fn lemma_place_is(keys: Seq<Seq<char>>, i: int)
    requires
        ascending(keys),
        0 <= i < keys.len(),
    ensures
        place(keys, keys[i]) == i,
{
    let p = place(keys, keys[i]);
    assert(keys[p] == keys[i]);
    if p < i {
        assert(text_order(keys[p], keys[i]) == Rank::Less);
        lemma_text_order_equal(keys[p], keys[i]);
    } else if i < p {
        assert(text_order(keys[i], keys[p]) == Rank::Less);
        lemma_text_order_equal(keys[i], keys[p]);
    }
}

/// The table's groups are those beside its keys.
proof fn lemma_table_at(t: GroupTable, aggs: Seq<AggV>, i: int)
    requires
        t.wf(aggs),
        0 <= i < t.keys@.len(),
    ensures
        t@.dom().contains(t.order()[i]),
        t@[t.order()[i]] == t.states@[i]@,
{
    lemma_place_is(t.order(), i);
    assert(t.order().contains(t.order()[i]));
}

fn fresh_state(parts: Vec<String>, aggs: &Vec<AggSpec>) -> (r: GroupState)
    ensures
        r@ == fresh_group(texts(parts@), agg_views(aggs@)),
        r.wf(),
        r.accs@.len() == aggs@.len(),
{
    let mut accs: Vec<AggAcc> = Vec::new();
    let ghost want = fresh_group(texts(parts@), agg_views(aggs@)).accs;
    for i in 0..aggs.len()
        invariant
            want == fresh_group(texts(parts@), agg_views(aggs@)).accs,
            accs@.len() == i,
            forall|k: int| 0 <= k < i ==> (#[trigger] accs@[k])@ == want[k] && accs@[k].wf(),
    {
        accs.push(AggAcc::new(aggs[i].func));
    }
    assert(acc_views(accs@) =~= want);
    GroupState { key_parts: parts, count: 0, accs }
}

fn note_row(s: &mut GroupState, items: &Vec<Option<(Value, String)>>, Ghost(r): Ghost<RowV>)
    requires
        old(s).wf(),
        old(s).accs@.len() == items@.len(),
        r.items == item_views(items@),
    ensures
        final(s).wf(),
        final(s).accs@.len() == items@.len(),
        final(s)@ == with_row(old(s)@, r),
{
    s.count = add_count(s.count, 1);
    let ghost start = acc_views(old(s).accs@);
    let ghost want = with_row(old(s)@, r).accs;
    for j in 0..items.len()
        invariant
            s.count == sat_add(old(s).count as int, 1),
            s.key_parts == old(s).key_parts,
            s.wf(),
            s.accs@.len() == items@.len(),
            start.len() == items@.len(),
            start == acc_views(old(s).accs@),
            r.items == item_views(items@),
            want == with_row(old(s)@, r).accs,
            forall|k: int| 0 <= k < j ==> (#[trigger] s.accs@[k])@ == want[k],
            forall|k: int| j <= k < items@.len() ==> (#[trigger] s.accs@[k])@ == start[k],
    {
        assert(r.items[j as int] == item_view(items@[j as int]));
        match &items[j] {
            Some((v, t)) => {
                assert(s.accs@[j as int].wf());
                s.accs[j].observe(v, t.as_str());
            },
            None => {},
        }
        assert(s.accs@[j as int]@ == want[j as int]);
    }
    assert(acc_views(s.accs@) =~= want);
}

impl GroupTable {
    fn empty(Ghost(aggs): Ghost<Seq<AggV>>) -> (r: GroupTable)
        ensures
            r.wf(aggs),
            r@ == Groups::empty(),
            r.keys@.len() == 0,
    {
        let r = GroupTable { keys: Vec::new(), states: Vec::new() };
        assert(r@ =~= Groups::empty());
        r
    }

    /// The place of the key's group, which is started where there is none.
    fn entry(&mut self, key: &str, parts: &Vec<String>, aggs: &Vec<AggSpec>) -> (at: usize)
        requires
            old(self).wf(agg_views(aggs@)),
        ensures
            final(self).wf(agg_views(aggs@)),
            at < final(self).keys@.len(),
            final(self).order()[at as int] == key@,
            final(self)@ == if old(self)@.dom().contains(key@) {
                old(self)@
            } else {
                old(self)@.insert(key@, fresh_group(texts(parts@), agg_views(aggs@)))
            },
    {
        let ghost av = agg_views(aggs@);
        let at: usize = find_key(&self.keys, key);
        let ghost ks = self.order();
        let ghost old_states = self.states@;
        proof {
            lemma_place(ks, key@, at as int);
        }
        if at < self.keys.len() && same_text(self.keys[at].as_str(), key) {
            return at;
        }
        self.keys.insert(at, owned(key));
        let state: GroupState = fresh_state(dup_texts(parts), aggs);
        let ghost sv = state@;
        self.states.insert(at, state);
        proof {
            let now = self.order();
            assert(now =~= ks.insert(at as int, key@));
            assert forall|i: int| 0 <= i < self.states@.len() implies (#[trigger] self.states@[i]).wf()
                && self.states@[i].accs@.len() == av.len() by {
                if i < at {
                    assert(self.states@[i] == old_states[i]);
                } else if i > at {
                    assert(self.states@[i] == old_states[i - 1]);
                }
            }
            let want = old(self)@.insert(key@, sv);
            assert forall|k: Seq<char>| now.contains(k) <==> ks.contains(k) || k == key@ by {
                if now.contains(k) {
                    let i = choose|i: int| 0 <= i < now.len() && now[i] == k;
                    if i < at {
                        assert(ks[i] == k);
                    } else if i > at {
                        assert(ks[i - 1] == k);
                    }
                }
                if ks.contains(k) {
                    let i = choose|i: int| 0 <= i < ks.len() && ks[i] == k;
                    if i < at {
                        assert(now[i] == k);
                    } else {
                        assert(now[i + 1] == k);
                    }
                }
                assert(now[at as int] == key@);
            }
            assert forall|k: Seq<char>| now.contains(k) implies self@[k] == want[k] by {
                let i = place(now, k);
                assert(now[i] == k);
                if k == key@ {
                    lemma_place_is(now, at as int);
                } else if i < at {
                    assert(ks[i] == k);
                    lemma_place_is(ks, i);
                    assert(self.states@[i] == old_states[i]);
                } else {
                    assert(i > at);
                    assert(ks[i - 1] == k);
                    lemma_place_is(ks, i - 1);
                    assert(self.states@[i] == old_states[i - 1]);
                }
            }
            assert(self@.dom() =~= want.dom());
            assert(self@ =~= want);
        }
        at
    }

    /// Replaces the group at a place.
    proof fn lemma_updated(before: GroupTable, after: GroupTable, aggs: Seq<AggV>, at: int)
        requires
            before.wf(aggs),
            0 <= at < before.keys@.len(),
            after.keys == before.keys,
            after.states@.len() == before.states@.len(),
            after.states@[at].wf(),
            after.states@[at].accs@.len() == aggs.len(),
            forall|i: int|
                0 <= i < before.states@.len() && i != at ==> after.states@[i] == #[trigger] before.states@[i],
        ensures
            after.wf(aggs),
            after@ == before@.insert(before.order()[at], after.states@[at]@),
    {
        let ks = before.order();
        assert forall|i: int| 0 <= i < after.states@.len() implies (#[trigger] after.states@[i]).wf()
            && after.states@[i].accs@.len() == aggs.len() by {
            if i != at {
                assert(after.states@[i] == before.states@[i]);
            }
        }
        let want = before@.insert(ks[at], after.states@[at]@);
        assert(ks.contains(ks[at]));
        assert forall|k: Seq<char>| ks.contains(k) implies after@[k] == want[k] by {
            let i = place(ks, k);
            assert(ks[i] == k);
            if k == ks[at] {
                lemma_place_is(ks, at);
            } else {
                assert(i != at);
                assert(after.states@[i] == before.states@[i]);
            }
        }
        assert(after@.dom() =~= want.dom());
        assert(after@ =~= want);
    }

    /// Notes one row.
    fn note(&mut self, row: &InputRow, aggs: &Vec<AggSpec>)
        requires
            old(self).wf(agg_views(aggs@)),
            row.items@.len() == aggs@.len(),
        ensures
            final(self).wf(agg_views(aggs@)),
            final(self)@ == grouped_row(old(self)@, row@, agg_views(aggs@)),
    {
        let ghost av = agg_views(aggs@);
        let key: String = join_parts(&row.parts);
        let at: usize = self.entry(key.as_str(), &row.parts, aggs);
        let ghost mid = *self;
        proof {
            lemma_table_at(mid, av, at as int);
        }
        note_row(&mut self.states[at], &row.items, Ghost(row@));
        proof {
            Self::lemma_updated(mid, *self, av, at as int);
            assert(self@ =~= grouped_row(old(self)@, row@, av));
        }
    }
}

// ------------------------------------------------------------ the operator

/// `group by`: holds the groups until the end and puts out one row for each, in
/// the order of the keys.
pub struct GroupBy {
    pub keys: Vec<String>,
    pub aggs: Vec<AggSpec>,
    pub table: GroupTable,
    pub emitted: bool,
}

/// The warning of a key that is no column.
pub open spec fn group_warned(c: CtxV, key: Seq<char>) -> CtxV {
    c.raised(
        c.event(
            Severity::Warn,
            ErrorScope::Chunk,
            "group: unknown key '"@ + key + seq!['\''],
        ),
    )
}

impl GroupBy {
    /// The aggregates.
    pub open spec fn aggs_view(&self) -> Seq<AggV> {
        agg_views(self.aggs@)
    }

    /// The groups.
    pub open spec fn groups(&self) -> Groups {
        self.table@
    }

    /// A well formed table whose groups have a part for each key.
    pub open spec fn wf(&self) -> bool {
        &&& self.table.wf(self.aggs_view())
        &&& forall|i: int|
            0 <= i < self.table.states@.len() ==> (#[trigger] self.table.states@[i]).key_parts@.len()
                == self.keys@.len()
    }

    /// The two group by the same keys and aggregates.
    pub open spec fn like(&self, o: &GroupBy) -> bool {
        &&& self.keys@.len() == o.keys@.len()
        &&& self.aggs_view() == o.aggs_view()
    }

    /// No groups yet.
    pub fn new(keys: Vec<String>, aggs: Vec<AggSpec>) -> (r: GroupBy)
        ensures
            r.wf(),
            r.keys == keys,
            r.aggs == aggs,
            r.groups() == Groups::empty(),
            !r.emitted,
    {
        let ghost av = agg_views(aggs@);
        GroupBy { keys, aggs, table: GroupTable::empty(Ghost(av)), emitted: false }
    }

    /// Notes the rows of a chunk. Where a key is no column the chunk is passed
    /// over with a warning. A question leaves everything as it was.
    pub fn process(&mut self, chunk: &Chunk, ctx: &mut OpCtx, host: &Answers) -> (r: Result<(), Ask>)
        requires
            old(self).wf(),
            chunk@.wf(),
        ensures
            final(self).wf(),
            final(self).keys == old(self).keys,
            final(self).aggs == old(self).aggs,
            final(self).emitted == old(self).emitted,
            ({
                let names = texts(old(self).keys@);
                match unknown(chunk@.fields, names) {
                    Some(i) => r is Ok && final(self).groups() == old(self).groups()
                        && final(ctx)@ == group_warned(old(ctx)@, names[i]),
                    None => final(ctx)@ == old(ctx)@ && match (
                        r,
                        rows_in(
                            chunk@,
                            known(chunk@.fields, names),
                            old(self).aggs_view(),
                            chunk@.len,
                            host@,
                        ),
                    ) {
                        (Ok(_), Ok(rows)) => final(self).groups() == grouped(
                            old(self).groups(),
                            rows,
                            old(self).aggs_view(),
                        ),
                        (Err(a), Err(q)) => a@ == q && final(self).groups() == old(self).groups(),
                        _ => false,
                    },
                }
            }),
    {
        let at: Vec<usize> = match resolve_names(chunk, &self.keys) {
            Err(i) => {
                proof {
                    reveal_strlit("'");
                    assert("'"@ =~= seq!['\'']);
                }
                ctx.warn(message3("group: unknown key '", self.keys[i].as_str(), "'"));
                return Ok(());
            },
            Ok(at) => at,
        };
        let rows: Vec<InputRow> = match read_rows(chunk, &at, &self.aggs, host) {
            Err(a) => {
                return Err(a);
            },
            Ok(v) => v,
        };
        self.observe_rows(&rows);
        Ok(())
    }

    /// Notes rows as they were read, in order.
    pub fn observe_rows(&mut self, rows: &Vec<InputRow>)
        requires
            old(self).wf(),
            shaped(row_views(rows@), old(self).keys@.len(), old(self).aggs@.len()),
        ensures
            final(self).wf(),
            final(self).keys == old(self).keys,
            final(self).aggs == old(self).aggs,
            final(self).emitted == old(self).emitted,
            final(self).groups() == grouped(
                old(self).groups(),
                row_views(rows@),
                old(self).aggs_view(),
            ),
    {
        let ghost av = self.aggs_view();
        let ghost rv = row_views(rows@);
        let ghost start = self.groups();
        assert(rv.take(0) =~= Seq::empty());
        for n in 0..rows.len()
            invariant
                self.wf(),
                self.keys == old(self).keys,
                self.aggs == old(self).aggs,
                self.emitted == old(self).emitted,
                av == self.aggs_view(),
                rv == row_views(rows@),
                shaped(rv, self.keys@.len(), self.aggs@.len()),
                self.groups() == grouped(start, rv.take(n as int), av),
        {
            proof {
                assert(rv.take(n + 1).drop_last() =~= rv.take(n as int));
                assert(rv.take(n + 1).last() == rows@[n as int]@);
                assert(rv[n as int].parts.len() == self.keys@.len());
            }
            self.note(&rows[n]);
        }
        assert(rv.take(rv.len() as int) =~= rv);
    }

    fn note(&mut self, row: &InputRow)
        requires
            old(self).wf(),
            row.items@.len() == old(self).aggs@.len(),
            row.parts@.len() == old(self).keys@.len(),
        ensures
            final(self).wf(),
            final(self).keys == old(self).keys,
            final(self).aggs == old(self).aggs,
            final(self).emitted == old(self).emitted,
            final(self).groups() == grouped_row(old(self).groups(), row@, old(self).aggs_view()),
    {
        let ghost av = self.aggs_view();
        let ghost before = self.table;
        self.table.note(row, &self.aggs);
        proof {
            let t = self.table;
            assert forall|i: int| 0 <= i < t.states@.len() implies (
            #[trigger] t.states@[i]).key_parts@.len() == self.keys@.len() by {
                let k = t.order()[i];
                lemma_table_at(t, av, i);
                assert(t@[k].parts.len() == t.states@[i].key_parts@.len());
                if before@.dom().contains(k) {
                    let j = place(before.order(), k);
                    assert(before.order()[j] == k);
                    assert(before@[k] == before.states@[j]@);
                    assert(before@[k].parts.len() == before.states@[j].key_parts@.len());
                }
            }
        }
    }

    /// Carries the pending numbers of every aggregate into its running moments,
    /// so that memory stays with the number of groups. A question leaves what
    /// was not yet carried as it was.
    pub fn settle(&mut self, host: &Answers) -> (r: Result<(), Ask>)
        requires
            old(self).wf(),
        ensures
            final(self).wf(),
            final(self).keys == old(self).keys,
            final(self).aggs == old(self).aggs,
            final(self).emitted == old(self).emitted,
            final(self).table.keys == old(self).table.keys,
            forall|i: int|
                #![trigger final(self).table.states@[i]]
                0 <= i < old(self).table.states@.len() ==> carried_on(
                    old(self).table.states@[i]@,
                    final(self).table.states@[i]@,
                    host@,
                ),
            match r {
                Ok(_) => forall|i: int|
                    #![trigger final(self).table.states@[i]]
                    0 <= i < old(self).table.states@.len() ==> all_settled(
                        final(self).table.states@[i]@,
                    ),
                Err(a) => exists|i: int|
                    #![trigger old(self).table.states@[i]]
                    0 <= i < old(self).table.states@.len() && settling_asks(
                        old(self).table.states@[i]@,
                        a@,
                        host@,
                    ) && forall|k: int|
                        #![trigger final(self).table.states@[k]]
                        0 <= k < i ==> all_settled(final(self).table.states@[k]@),
            },
    {
        let n: usize = self.table.states.len();
        let ghost start = self.table.states@;
        let ghost av = self.aggs_view();
        for i in 0..n
            invariant
                n == self.table.states@.len(),
                start.len() == n,
                start == old(self).table.states@,
                self.wf(),
                av == self.aggs_view(),
                self.keys == old(self).keys,
                self.aggs == old(self).aggs,
                self.emitted == old(self).emitted,
                self.table.keys == old(self).table.keys,
                forall|k: int|
                    0 <= k < i ==> carried_on(
                        start[k]@,
                        (#[trigger] self.table.states@[k])@,
                        host@,
                    ) && all_settled(self.table.states@[k]@),
                forall|k: int| i <= k < n ==> #[trigger] self.table.states@[k] == start[k],
        {
            let ghost before = self.table;
            assert(self.table.states@[i as int].wf());
            let done: Result<(), Ask> = settle_group(&mut self.table.states[i], host);
            proof {
                GroupTable::lemma_updated(before, self.table, av, i as int);
                assert forall|k: int| 0 <= k < n implies (
                #[trigger] self.table.states@[k]).key_parts@.len() == self.keys@.len() by {
                    assert(before.states@[k].key_parts@.len() == self.keys@.len());
                }
            }
            match done {
                Err(a) => {
                    proof {
                        assert forall|k: int|
                            #![trigger self.table.states@[k]]
                            0 <= k < n implies carried_on(
                            start[k]@,
                            self.table.states@[k]@,
                            host@,
                        ) by {
                            if k > i {
                                assert(self.table.states@[k] == start[k]);
                            }
                        }
                    }
                    assert(settling_asks(start[i as int]@, a@, host@));
                    return Err(a);
                },
                Ok(_) => {},
            }
        }
        Ok(())
    }
}

/// The question that carrying on the pending numbers of a group asks.
pub open spec fn settling_asks(g: GroupV, q: Query, log: Log) -> bool {
    exists|j: int|
        0 <= j < g.accs.len() && (#[trigger] g.accs[j]).settled(log) == Err::<
            Moments,
            Query,
        >(q)
}

/// The accumulator is as it was, or has its pending numbers carried on.
pub open spec fn acc_carried(a: Acc, b: Acc, log: Log) -> bool {
    b == a || (!(a.func is Pct) && a.settled(log) is Ok && b == (Acc {
        moments: a.settled(log)->Ok_0,
        pending: Seq::empty(),
        ..a
    }))
}

/// Every accumulator of a group is as it was, or has its pending numbers carried
/// on.
pub open spec fn carried_on(a: GroupV, b: GroupV, log: Log) -> bool {
    &&& b.parts == a.parts
    &&& b.count == a.count
    &&& b.accs.len() == a.accs.len()
    &&& forall|j: int| 0 <= j < a.accs.len() ==> acc_carried(a.accs[j], #[trigger] b.accs[j], log)
}

/// Nothing is pending, but for the values that percentiles keep.
pub open spec fn all_settled(g: GroupV) -> bool {
    forall|j: int|
        0 <= j < g.accs.len() ==> (#[trigger] g.accs[j]).func is Pct || g.accs[j].pending.len() == 0
}

fn settle_group(s: &mut GroupState, host: &Answers) -> (r: Result<(), Ask>)
    requires
        old(s).wf(),
    ensures
        final(s).wf(),
        final(s).accs@.len() == old(s).accs@.len(),
        final(s).key_parts == old(s).key_parts,
        carried_on(old(s)@, final(s)@, host@),
        match r {
            Ok(_) => all_settled(final(s)@),
            Err(a) => settling_asks(old(s)@, a@, host@),
        },
{
    let n: usize = s.accs.len();
    let ghost start = acc_views(s.accs@);
    for j in 0..n
        invariant
            s.wf(),
            n == s.accs@.len(),
            start.len() == n,
            start == acc_views(old(s).accs@),
            s.key_parts == old(s).key_parts,
            s.count == old(s).count,
            forall|k: int|
                0 <= k < j ==> acc_carried(start[k], (#[trigger] s.accs@[k])@, host@) && (
                s.accs@[k]@.func is Pct || s.accs@[k]@.pending.len() == 0),
            forall|k: int| j <= k < n ==> (#[trigger] s.accs@[k])@ == start[k],
    {
        assert(s.accs@[j as int].wf());
        assert(s.accs@[j as int]@ == start[j as int]);
        match s.accs[j].settle_in(host) {
            Err(a) => {
                assert(s.accs@[j as int]@ == start[j as int]);
                return Err(a);
            },
            Ok(_) => {},
        }
    }
    Ok(())
}

// -------------------------------------------------------------- merging

/// Two groups of one key, the second of later rows, in one.
pub open spec fn merged_group(a: GroupV, b: GroupV, log: Log) -> GroupV {
    GroupV {
        parts: a.parts,
        count: sat_add(a.count, b.count),
        accs: Seq::new(a.accs.len(), |j: int| a.accs[j].join(b.accs[j], log)->Ok_0),
    }
}

/// The question that merging two groups asks.
pub open spec fn merge_asks(a: GroupV, b: GroupV, q: Query, log: Log) -> bool {
    exists|j: int|
        0 <= j < a.accs.len() && (#[trigger] a.accs[j]).join(b.accs[j], log) == Err::<Acc, Query>(q)
}

/// Merging two groups asks nothing.
pub open spec fn mergeable(a: GroupV, b: GroupV, log: Log) -> bool {
    forall|j: int| 0 <= j < a.accs.len() ==> (#[trigger] a.accs[j]).join(b.accs[j], log) is Ok
}

/// The groups of two runs of rows in one, the second run later.
pub open spec fn merged(a: Groups, b: Groups, log: Log) -> Groups {
    Map::new(
        |k: Seq<char>| a.dom().contains(k) || b.dom().contains(k),
        |k: Seq<char>|
            if a.dom().contains(k) && b.dom().contains(k) {
                merged_group(a[k], b[k], log)
            } else if a.dom().contains(k) {
                a[k]
            } else {
                b[k]
            },
    )
}

fn merge_states(a: &GroupState, b: &GroupState, host: &Answers) -> (r: Result<GroupState, Ask>)
    requires
        a.wf(),
        b.wf(),
        a.accs@.len() == b.accs@.len(),
    ensures
        match r {
            Ok(s) => s@ == merged_group(a@, b@, host@) && s.wf() && s.accs@.len() == a.accs@.len()
                && s.key_parts@.len() == a.key_parts@.len() && mergeable(a@, b@, host@),
            Err(q) => merge_asks(a@, b@, q@, host@),
        },
{
    let mut accs: Vec<AggAcc> = Vec::new();
    let ghost want = merged_group(a@, b@, host@).accs;
    for j in 0..a.accs.len()
        invariant
            a.wf(),
            b.wf(),
            a.accs@.len() == b.accs@.len(),
            want == merged_group(a@, b@, host@).accs,
            accs@.len() == j,
            forall|k: int|
                0 <= k < j ==> (#[trigger] accs@[k])@ == want[k] && accs@[k].wf()
                    && a@.accs[k].join(b@.accs[k], host@) is Ok,
    {
        assert(a.accs@[j as int].wf());
        assert(b.accs@[j as int].wf());
        assert(a@.accs[j as int] == a.accs@[j as int]@);
        assert(b@.accs[j as int] == b.accs@[j as int]@);
        let mut acc: AggAcc = a.accs[j].dup();
        match acc.merge(&b.accs[j], host) {
            Err(q) => {
                return Err(q);
            },
            Ok(_) => {},
        }
        accs.push(acc);
    }
    assert(acc_views(accs@) =~= want);
    assert forall|j: int| 0 <= j < a@.accs.len() implies (#[trigger] a@.accs[j]).join(
        b@.accs[j],
        host@,
    ) is Ok by {
        assert(accs@[j]@ == want[j]);
    }
    let key_parts: Vec<String> = dup_texts(&a.key_parts);
    assert(texts(key_parts@).len() == key_parts@.len());
    assert(texts(a.key_parts@).len() == a.key_parts@.len());
    Ok(GroupState { key_parts, count: add_count(a.count, b.count), accs })
}

fn dup_state(s: &GroupState) -> (r: GroupState)
    requires
        s.wf(),
    ensures
        r@ == s@,
        r.wf(),
        r.accs@.len() == s.accs@.len(),
        r.key_parts@.len() == s.key_parts@.len(),
{
    let mut accs: Vec<AggAcc> = Vec::new();
    for j in 0..s.accs.len()
        invariant
            s.wf(),
            accs@.len() == j,
            forall|k: int| 0 <= k < j ==> (#[trigger] accs@[k])@ == s.accs@[k]@ && accs@[k].wf(),
    {
        assert(s.accs@[j as int].wf());
        accs.push(s.accs[j].dup());
    }
    assert(acc_views(accs@) =~= acc_views(s.accs@));
    let key_parts: Vec<String> = dup_texts(&s.key_parts);
    assert(texts(key_parts@).len() == key_parts@.len());
    assert(texts(s.key_parts@).len() == s.key_parts@.len());
    GroupState { key_parts, count: s.count, accs }
}

/// The groups of the first `n` keys of a table.
spec fn first_groups(t: GroupTable, n: int) -> Groups {
    Map::new(|k: Seq<char>| t.order().take(n).contains(k), |k: Seq<char>| t@[k])
}

proof fn lemma_first_groups(t: GroupTable, aggs: Seq<AggV>, n: int)
    requires
        t.wf(aggs),
        0 <= n < t.keys@.len(),
    ensures
        first_groups(t, n + 1) == first_groups(t, n).insert(t.order()[n], t.states@[n]@),
        !first_groups(t, n).dom().contains(t.order()[n]),
{
    let ks = t.order();
    let k = ks[n];
    lemma_table_at(t, aggs, n);
    let a = ks.take(n);
    let b = ks.take(n + 1);
    assert(b =~= a.push(k));
    assert forall|x: Seq<char>| b.contains(x) <==> a.contains(x) || x == k by {
        if b.contains(x) {
            let i = choose|i: int| 0 <= i < b.len() && b[i] == x;
            if i < n {
                assert(a[i] == x);
            }
        }
        if a.contains(x) {
            let i = choose|i: int| 0 <= i < a.len() && a[i] == x;
            assert(b[i] == x);
        }
        assert(b[n] == k);
    }
    if a.contains(k) {
        let i = choose|i: int| 0 <= i < a.len() && a[i] == k;
        assert(ks[i] == k);
        lemma_place_is(ks, i);
        lemma_place_is(ks, n);
    }
    assert(first_groups(t, n + 1) =~= first_groups(t, n).insert(k, t.states@[n]@));
}

impl GroupBy {
    /// Folds the groups of a later run of rows in. A question leaves everything
    /// as it was.
    pub fn merge_from(&mut self, other: &GroupBy, host: &Answers) -> (r: Result<(), Ask>)
        requires
            old(self).wf(),
            other.wf(),
            old(self).like(other),
        ensures
            final(self).wf(),
            final(self).keys == old(self).keys,
            final(self).aggs == old(self).aggs,
            final(self).emitted == old(self).emitted,
            match r {
                Ok(_) => final(self).groups() == merged(
                    old(self).groups(),
                    other.groups(),
                    host@,
                ) && forall|k: Seq<char>|
                    #[trigger] old(self).groups().dom().contains(k) && other.groups().dom().contains(
                        k,
                    ) ==> mergeable(old(self).groups()[k], other.groups()[k], host@),
                Err(a) => *final(self) == *old(self) && exists|k: Seq<char>|
                    #[trigger] old(self).groups().dom().contains(k) && other.groups().dom().contains(
                        k,
                    ) && merge_asks(old(self).groups()[k], other.groups()[k], a@, host@),
            },
    {
        let ghost av = self.aggs_view();
        let ghost a = self.groups();
        let mut made: GroupTable = self.copy_table();
        let n: usize = other.table.keys.len();
        proof {
            assert(other.table.order().take(0) =~= Seq::empty());
            assert(first_groups(other.table, 0) =~= Groups::empty());
            assert(merged(a, Groups::empty(), host@) =~= a);
        }
        for i in 0..n
            invariant
                n == other.table.keys@.len(),
                *self == *old(self),
                self.wf(),
                other.wf(),
                self.like(other),
                av == self.aggs_view(),
                a == self.groups(),
                made.wf(av),
                forall|k: int|
                    0 <= k < made.states@.len() ==> (#[trigger] made.states@[k]).key_parts@.len()
                        == self.keys@.len(),
                made@ == merged(a, first_groups(other.table, i as int), host@),
                forall|k: Seq<char>|
                    #[trigger] a.dom().contains(k) && first_groups(other.table, i as int).dom().contains(
                        k,
                    ) ==> mergeable(a[k], other.groups()[k], host@),
        {
            let ghost b0 = first_groups(other.table, i as int);
            let ghost b1 = first_groups(other.table, i + 1);
            let ghost ob = other.groups();
            let ghost key = other.table.order()[i as int];
            proof {
                lemma_first_groups(other.table, av, i as int);
                lemma_table_at(other.table, av, i as int);
            }
            let at: usize = find_key(&made.keys, other.table.keys[i].as_str());
            let ghost before = made;
            proof {
                lemma_place(before.order(), key, at as int);
            }
            if at < made.keys.len() && same_text(
                made.keys[at].as_str(),
                other.table.keys[i].as_str(),
            ) {
                proof {
                    assert(before.order()[at as int] == key);
                    lemma_table_at(before, av, at as int);
                    assert(before@.dom().contains(key));
                    assert(a.dom().contains(key));
                    assert(before@[key] == a[key]);
                    assert(a[key] == before.states@[at as int]@);
                    assert(ob[key] == other.table.states@[i as int]@);
                }
                let m: Result<GroupState, Ask> = merge_states(
                    &made.states[at],
                    &other.table.states[i],
                    host,
                );
                match m {
                    Err(q) => {
                        return Err(q);
                    },
                    Ok(s) => {
                        made.states.set(at, s);
                        proof {
                            GroupTable::lemma_updated(before, made, av, at as int);
                            assert(made@ =~= merged(a, b1, host@));
                        }
                    },
                }
            } else {
                let s: GroupState = dup_state(&other.table.states[i]);
                let ghost sv = s@;
                proof {
                    assert(!before@.dom().contains(key));
                    assert(!a.dom().contains(key));
                    assert(b1.dom().contains(key));
                }
                insert_group(
                    &mut made,
                    at,
                    other.table.keys[i].clone(),
                    s,
                    Ghost(av),
                    Ghost(self.keys@.len()),
                );
                proof {
                    assert(made@ =~= merged(a, b1, host@));
                }
            }
            proof {
                assert forall|k: Seq<char>| #[trigger] a.dom().contains(k) && b1.dom().contains(
                    k,
                ) implies mergeable(a[k], ob[k], host@) by {
                    if k != key {
                        assert(b0.dom().contains(k));
                    }
                }
            }
        }
        proof {
            assert(other.table.order().take(n as int) =~= other.table.order());
            assert(first_groups(other.table, n as int) =~= other.groups());
        }
        self.table = made;
        Ok(())
    }

    fn copy_table(&self) -> (r: GroupTable)
        requires
            self.wf(),
        ensures
            r.wf(self.aggs_view()),
            r@ == self.groups(),
            forall|k: int|
                0 <= k < r.states@.len() ==> (#[trigger] r.states@[k]).key_parts@.len()
                    == self.keys@.len(),
    {
        let mut states: Vec<GroupState> = Vec::new();
        for i in 0..self.table.states.len()
            invariant
                self.wf(),
                states@.len() == i,
                forall|k: int|
                    0 <= k < i ==> (#[trigger] states@[k])@ == self.table.states@[k]@
                        && states@[k].wf() && states@[k].accs@.len() == self.aggs@.len()
                        && states@[k].key_parts@.len() == self.keys@.len(),
        {
            assert(self.table.states@[i as int].wf());
            assert(self.table.states@[i as int].key_parts@.len() == self.keys@.len());
            states.push(dup_state(&self.table.states[i]));
        }
        let r = GroupTable { keys: dup_texts(&self.table.keys), states };
        proof {
            assert(r.order() == self.table.order());
            assert forall|k: Seq<char>| r.order().contains(k) implies r@[k] == self.table@[k] by {
                let i = place(r.order(), k);
                assert(r.order()[i] == k);
                assert(r.states@[i]@ == self.table.states@[i]@);
            }
            assert(r@ =~= self.table@);
        }
        r
    }
}

/// Puts a group in at the place of its key.
fn insert_group(t: &mut GroupTable, at: usize, key: String, s: GroupState, Ghost(aggs): Ghost<Seq<AggV>>, Ghost(nk): Ghost<nat>)
    requires
        old(t).wf(aggs),
        place_of(old(t).order(), key@, at as int),
        !old(t).order().contains(key@),
        s.wf(),
        s.accs@.len() == aggs.len(),
        s.key_parts@.len() == nk,
        forall|k: int|
            0 <= k < old(t).states@.len() ==> (#[trigger] old(t).states@[k]).key_parts@.len() == nk,
    ensures
        final(t).wf(aggs),
        final(t)@ == old(t)@.insert(key@, s@),
        forall|k: int|
            0 <= k < final(t).states@.len() ==> (#[trigger] final(t).states@[k]).key_parts@.len()
                == nk,
{
    let ghost ks = t.order();
    let ghost old_states = t.states@;
    let ghost kv = key@;
    let ghost sv = s@;
    proof {
        lemma_place(ks, kv, at as int);
    }
    t.keys.insert(at, key);
    t.states.insert(at, s);
    proof {
        let now = t.order();
        assert(now =~= ks.insert(at as int, kv));
        assert forall|i: int| 0 <= i < t.states@.len() implies (#[trigger] t.states@[i]).wf()
            && t.states@[i].accs@.len() == aggs.len() && t.states@[i].key_parts@.len() == nk by {
            if i < at {
                assert(t.states@[i] == old_states[i]);
            } else if i > at {
                assert(t.states@[i] == old_states[i - 1]);
            }
        }
        let want = old(t)@.insert(kv, sv);
        assert forall|k: Seq<char>| now.contains(k) <==> ks.contains(k) || k == kv by {
            if now.contains(k) {
                let i = choose|i: int| 0 <= i < now.len() && now[i] == k;
                if i < at {
                    assert(ks[i] == k);
                } else if i > at {
                    assert(ks[i - 1] == k);
                }
            }
            if ks.contains(k) {
                let i = choose|i: int| 0 <= i < ks.len() && ks[i] == k;
                if i < at {
                    assert(now[i] == k);
                } else {
                    assert(now[i + 1] == k);
                }
            }
            assert(now[at as int] == kv);
        }
        assert forall|k: Seq<char>| now.contains(k) implies t@[k] == want[k] by {
            let i = place(now, k);
            assert(now[i] == k);
            if k == kv {
                lemma_place_is(now, at as int);
            } else if i < at {
                assert(ks[i] == k);
                lemma_place_is(ks, i);
                assert(t.states@[i] == old_states[i]);
            } else {
                assert(i > at);
                assert(ks[i - 1] == k);
                lemma_place_is(ks, i - 1);
                assert(t.states@[i] == old_states[i - 1]);
            }
        }
        assert(t@.dom() =~= want.dom());
        assert(t@ =~= want);
    }
}

// ------------------------------------------------- one pass and partials

/// The items of one aggregate in the rows of one key.
pub open spec fn items_for(rows: Seq<RowV>, key: Seq<char>, j: int) -> Seq<Item>
    decreases rows.len(),
{
    if rows.len() == 0 {
        Seq::empty()
    } else {
        let up = items_for(rows.drop_last(), key, j);
        if rows.last().key() == key && rows.last().items[j] is Some {
            up.push(rows.last().items[j]->0)
        } else {
            up
        }
    }
}

/// A group's accumulators are one pass over the items of its rows.
pub proof fn lemma_group_is_one_pass(rows: Seq<RowV>, aggs: Seq<AggV>, key: Seq<char>, j: int)
    requires
        0 <= j < aggs.len(),
    ensures
        ({
            let g = grouped(Groups::empty(), rows, aggs);
            &&& g.dom().contains(key) ==> g[key].accs.len() == aggs.len() && g[key].accs[j]
                == one_pass(aggs[j].func, items_for(rows, key, j))
            &&& !g.dom().contains(key) ==> items_for(rows, key, j).len() == 0
        }),
    decreases rows.len(),
{
    if rows.len() > 0 {
        let front = rows.drop_last();
        let r = rows.last();
        lemma_group_is_one_pass(front, aggs, key, j);
        let g = grouped(Groups::empty(), front, aggs);
        if r.key() == key {
            let a = if g.dom().contains(key) {
                g[key]
            } else {
                fresh_group(r.parts, aggs)
            };
            let x = items_for(front, key, j);
            assert(a.accs[j] == one_pass(aggs[j].func, x)) by {
                if !g.dom().contains(key) {
                    assert(x =~= Seq::empty());
                }
            }
            if r.items[j] is Some {
                let y = x.push(r.items[j]->0);
                assert(y.drop_last() =~= x);
            }
        }
    }
}

pub proof fn lemma_items_append(x: Seq<RowV>, y: Seq<RowV>, key: Seq<char>, j: int)
    ensures
        items_for(x + y, key, j) == items_for(x, key, j) + items_for(y, key, j),
    decreases y.len(),
{
    if y.len() == 0 {
        assert(x + y =~= x);
        assert(items_for(x, key, j) + items_for(y, key, j) =~= items_for(x, key, j));
    } else {
        lemma_items_append(x, y.drop_last(), key, j);
        assert((x + y).drop_last() =~= x + y.drop_last());
        assert((x + y).last() == y.last());
        let a = items_for(x, key, j);
        let b = items_for(y.drop_last(), key, j);
        if y.last().key() == key && y.last().items[j] is Some {
            assert((a + b).push(y.last().items[j]->0) =~= a + b.push(y.last().items[j]->0));
        }
    }
}

/// Grouping two runs of rows apart and merging gives, for each aggregate of each
/// key, what one pass over all rows gives: the same count, exact sums and
/// extremes, first and last texts, distinct texts and percentile values. The
/// decimals share a scale and no sum of a part overflows.
pub proof fn lemma_partials_merge(x: Seq<RowV>, y: Seq<RowV>, aggs: Seq<AggV>, key: Seq<char>, j: int, s: u8, log: Log)
    requires
        0 <= j < aggs.len(),
        one_scale(items_for(x, key, j), s),
        one_scale(items_for(y, key, j), s),
        sums_fit(0, items_for(x, key, j)),
        sums_fit(0, items_for(y, key, j)),
        sums_fit(dec_total(items_for(x, key, j)), items_for(y, key, j)),
    ensures
        ({
            let gx = grouped(Groups::empty(), x, aggs);
            let gy = grouped(Groups::empty(), y, aggs);
            let all = grouped(Groups::empty(), x + y, aggs);
            let m = merged(gx, gy, log);
            (gx.dom().contains(key) && gy.dom().contains(key) ==> mergeable(gx[key], gy[key], log))
                ==> {
                &&& m.dom().contains(key) == all.dom().contains(key)
                &&& m.dom().contains(key) ==> same_exact(m[key].accs[j], all[key].accs[j])
                    && same_extremes(m[key].accs[j], all[key].accs[j], log)
            }
        }),
{
    let gx = grouped(Groups::empty(), x, aggs);
    let gy = grouped(Groups::empty(), y, aggs);
    let all = grouped(Groups::empty(), x + y, aggs);
    lemma_group_is_one_pass(x, aggs, key, j);
    lemma_group_is_one_pass(y, aggs, key, j);
    lemma_group_is_one_pass(x + y, aggs, key, j);
    lemma_items_append(x, y, key, j);
    lemma_dom(Groups::empty(), x, aggs, key);
    lemma_dom(Groups::empty(), y, aggs, key);
    lemma_dom(Groups::empty(), x + y, aggs, key);
    lemma_has_append(x, y, key);
    let (ix, iy) = (items_for(x, key, j), items_for(y, key, j));
    if gx.dom().contains(key) && gy.dom().contains(key) {
        lemma_merge_is_one_pass(aggs[j].func, ix, iy, s, log);
        lemma_pass_parts(aggs[j].func, ix, iy);
        lemma_extremes_merge(gx[key].accs[j], aggs[j].func, ix, iy, log);
        if mergeable(gx[key], gy[key], log) {
            assert(gx[key].accs[j].join(gy[key].accs[j], log) is Ok);
        }
    } else if gx.dom().contains(key) {
        assert(iy =~= Seq::empty());
        assert(ix + iy =~= ix);
    } else if gy.dom().contains(key) {
        assert(ix =~= Seq::empty());
        assert(ix + iy =~= iy);
    }
}

/// A row with the key is among the rows.
pub open spec fn has_key(rows: Seq<RowV>, key: Seq<char>) -> bool {
    exists|i: int| 0 <= i < rows.len() && (#[trigger] rows[i]).key() == key
}

pub proof fn lemma_dom(g: Groups, rows: Seq<RowV>, aggs: Seq<AggV>, key: Seq<char>)
    ensures
        grouped(g, rows, aggs).dom().contains(key) <==> g.dom().contains(key) || has_key(rows, key),
    decreases rows.len(),
{
    if rows.len() > 0 {
        lemma_dom(g, rows.drop_last(), aggs, key);
        if has_key(rows, key) {
            let i = choose|i: int| 0 <= i < rows.len() && (#[trigger] rows[i]).key() == key;
            if i < rows.len() - 1 {
                assert(rows.drop_last()[i].key() == key);
            }
        }
        if has_key(rows.drop_last(), key) {
            let i = choose|i: int|
                0 <= i < rows.drop_last().len() && (#[trigger] rows.drop_last()[i]).key() == key;
            assert(rows[i].key() == key);
        }
        if rows.last().key() == key {
            assert(rows[rows.len() - 1].key() == key);
        }
    }
}

pub proof fn lemma_has_append(x: Seq<RowV>, y: Seq<RowV>, key: Seq<char>)
    ensures
        has_key(x + y, key) <==> has_key(x, key) || has_key(y, key),
{
    if has_key(x + y, key) {
        let i = choose|i: int| 0 <= i < (x + y).len() && (#[trigger] (x + y)[i]).key() == key;
        if i < x.len() {
            assert(x[i].key() == key);
        } else {
            assert(y[i - x.len()].key() == key);
        }
    }
    if has_key(x, key) {
        let i = choose|i: int| 0 <= i < x.len() && (#[trigger] x[i]).key() == key;
        assert((x + y)[i].key() == key);
    }
    if has_key(y, key) {
        let i = choose|i: int| 0 <= i < y.len() && (#[trigger] y[i]).key() == key;
        assert((x + y)[x.len() + i].key() == key);
    }
}

/// Can an aggregate of a column of this type be taken over parts of the rows and
/// merged, with the same result to the last bit? A sum or mean only where the
/// sums are exact.
pub open spec fn splits(f: AggFunc, ty: Option<DataType>) -> bool {
    match f {
        AggFunc::Sum => ty matches Some(t) && t is Decimal,
        AggFunc::Avg => ty matches Some(t) && t is Decimal,
        AggFunc::Std => false,
        _ => true,
    }
}

/// Can all aggregates be taken over parts of the rows (see [`splits`])? The
/// types are those of their columns.
pub fn group_parallel_safe(aggs: &Vec<AggSpec>, types: &Vec<Option<DataType>>) -> (r: bool)
    requires
        aggs@.len() == types@.len(),
    ensures
        r == forall|i: int| 0 <= i < aggs@.len() ==> splits((#[trigger] aggs@[i]).func, types@[i]),
{
    for i in 0..aggs.len()
        invariant
            aggs@.len() == types@.len(),
            forall|k: int| 0 <= k < i ==> splits((#[trigger] aggs@[k]).func, types@[k]),
    {
        let ok: bool = match aggs[i].func {
            AggFunc::Sum | AggFunc::Avg => matches!(types[i], Some(DataType::Decimal { .. })),
            AggFunc::Std => false,
            _ => true,
        };
        if !ok {
            assert(!splits(aggs@[i as int].func, types@[i as int]));
            return false;
        }
    }
    true
}

// --------------------------------------------------------------- output

/// A count as a cell.
pub open spec fn count_cell(n: int) -> Datum {
    Datum::I64(
        (if n > i64::MAX {
            i64::MAX as int
        } else {
            n
        }) as i64,
    )
}

/// The double-precision results of the first `n` groups.
pub open spec fn number_cells(gs: Seq<GroupV>, j: int, n: nat, log: Log) -> Result<Seq<Datum>, Query>
    decreases n,
{
    if n == 0 {
        Ok(Seq::empty())
    } else {
        match number_cells(gs, j, (n - 1) as nat, log) {
            Err(q) => Err(q),
            Ok(s) => match gs[n - 1].accs[j].number(log) {
                Err(q) => Err(q),
                Ok(x) => Ok(s.push(Datum::F64(x))),
            },
        }
    }
}

/// Every group has an instant as the exact result.
pub open spec fn all_instants(gs: Seq<GroupV>, j: int) -> bool {
    gs.len() > 0 && forall|i: int|
        0 <= i < gs.len() ==> (#[trigger] gs[i]).accs[j].instant() is Some
}

/// Every group has a decimal as the exact result.
pub open spec fn all_decimals(gs: Seq<GroupV>, j: int) -> bool {
    gs.len() > 0 && forall|i: int|
        0 <= i < gs.len() ==> (#[trigger] gs[i]).accs[j].decimal() is Some
}

/// The column of one aggregate: exact where every group's result is, so that the
/// column has one type, else doubles.
pub open spec fn agg_lane(gs: Seq<GroupV>, f: AggFunc, j: int, log: Log) -> Result<Lane, Query> {
    match f {
        AggFunc::CountDistinct => Ok(
            Lane {
                dtype: DataType::I64,
                cells: Seq::new(
                    gs.len(),
                    |i: int| count_cell(gs[i].accs[j].distinct.len() as int),
                ),
            },
        ),
        AggFunc::First => Ok(
            Lane {
                dtype: DataType::Str,
                cells: Seq::new(gs.len(), |i: int| text_or_empty(gs[i].accs[j].first)),
            },
        ),
        AggFunc::Last => Ok(
            Lane {
                dtype: DataType::Str,
                cells: Seq::new(gs.len(), |i: int| text_or_empty(gs[i].accs[j].last)),
            },
        ),
        _ => if (f is Min || f is Max) && all_instants(gs, j) {
            let unit = gs[0].accs[j].instant()->0.unit;
            Ok(
                Lane {
                    dtype: DataType::DateTime { unit },
                    cells: Seq::new(
                        gs.len(),
                        |i: int|
                            Datum::DateTime(
                                DateTime { ticks: gs[i].accs[j].instant()->0.ticks, unit },
                            ),
                    ),
                },
            )
        } else if (f is Sum || f is Avg || f is Min || f is Max) && all_decimals(gs, j) {
            let scale = gs[0].accs[j].decimal()->0.scale;
            Ok(
                Lane {
                    dtype: DataType::Decimal { scale },
                    cells: Seq::new(
                        gs.len(),
                        |i: int|
                            Datum::Dec(
                                Decimal { unscaled: gs[i].accs[j].decimal()->0.unscaled, scale },
                            ),
                    ),
                },
            )
        } else {
            match number_cells(gs, j, gs.len(), log) {
                Err(q) => Err(q),
                Ok(cells) => Ok(Lane { dtype: DataType::F64, cells }),
            }
        },
    }
}

/// An optional text as a cell; none is the empty text.
pub open spec fn text_or_empty(t: Option<Seq<char>>) -> Datum {
    Datum::Str(
        match t {
            Some(s) => s,
            None => Seq::empty(),
        },
    )
}

/// The columns of the first `n` aggregates.
pub open spec fn agg_lanes(gs: Seq<GroupV>, aggs: Seq<AggV>, n: nat, log: Log) -> Result<Seq<Lane>, Query>
    decreases n,
{
    if n == 0 {
        Ok(Seq::empty())
    } else {
        match agg_lanes(gs, aggs, (n - 1) as nat, log) {
            Err(q) => Err(q),
            Ok(s) => match agg_lane(gs, aggs[n - 1].func, n - 1, log) {
                Err(q) => Err(q),
                Ok(l) => Ok(s.push(l)),
            },
        }
    }
}

/// The output of a group-by: a text column for each key, the count, and a column
/// for each aggregate, named by its label and its column.
pub open spec fn group_chunk(keys: Seq<Seq<char>>, aggs: Seq<AggV>, gs: Seq<GroupV>, ls: Seq<Lane>, id: u64) -> Batch {
    Batch {
        fields: Seq::new(keys.len(), |i: int| flat_field(keys[i], DataType::Str)) + seq![
            flat_field("count"@, DataType::I64),
        ] + Seq::new(
            aggs.len(),
            |j: int| flat_field(aggs[j].label + seq!['_'] + aggs[j].col, ls[j].dtype),
        ),
        columns: Seq::new(
            keys.len(),
            |i: int|
                Lane {
                    dtype: DataType::Str,
                    cells: Seq::new(gs.len(), |g: int| Datum::Str(gs[g].parts[i])),
                },
        ) + seq![
            Lane {
                dtype: DataType::I64,
                cells: Seq::new(gs.len(), |g: int| count_cell(gs[g].count)),
            },
        ] + ls,
        len: gs.len(),
        id,
        mode: Mode::Normal,
        source: None,
    }
}

/// How a group ends where nothing is left to ask: what it puts out, the group after
/// it, and the context after it.
pub open spec fn group_ends(a: GroupBy, c: CtxV, log: Log, out: Option<Batch>, z: GroupBy, d: CtxV) -> bool {
    let gs = group_views(a.table.states@);
    &&& z.emitted
    &&& if a.emitted {
        out is None && d == c
    } else {
        &&& agg_lanes(gs, a.aggs_view(), a.aggs@.len(), log) matches Ok(ls) && out == Some(
            group_chunk(texts(a.keys@), a.aggs_view(), gs, ls, c.next_chunk_id),
        )
        &&& d == c.advanced()
    }
}

/// The views of a list of groups.
pub open spec fn group_views(s: Seq<GroupState>) -> Seq<GroupV> {
    Seq::new(s.len(), |i: int| s[i]@)
}

proof fn lemma_numbers_stop(gs: Seq<GroupV>, j: int, n: nat, m: nat, log: Log)
    requires
        number_cells(gs, j, n, log) is Err,
        n <= m,
    ensures
        number_cells(gs, j, m, log) == number_cells(gs, j, n, log),
    decreases m,
{
    if n < m {
        lemma_numbers_stop(gs, j, n, (m - 1) as nat, log);
    }
}

proof fn lemma_agg_lanes_stop(gs: Seq<GroupV>, aggs: Seq<AggV>, n: nat, m: nat, log: Log)
    requires
        agg_lanes(gs, aggs, n, log) is Err,
        n <= m,
    ensures
        agg_lanes(gs, aggs, m, log) == agg_lanes(gs, aggs, n, log),
    decreases m,
{
    if n < m {
        lemma_agg_lanes_stop(gs, aggs, n, (m - 1) as nat, log);
    }
}

/// Every group has an accumulator `j`.
spec fn have(states: Seq<GroupState>, j: int) -> bool {
    forall|i: int|
        0 <= i < states.len() ==> (#[trigger] states[i]).wf() && 0 <= j < states[i].accs@.len()
}

fn distinct_column(states: &Vec<GroupState>, j: usize, Ghost(gs): Ghost<Seq<GroupV>>) -> (r: Column)
    requires
        have(states@, j as int),
        gs == group_views(states@),
    ensures
        r@ == (Lane {
            dtype: DataType::I64,
            cells: Seq::new(
                gs.len(),
                |i: int| count_cell(gs[i].accs[j as int].distinct.len() as int),
            ),
        }),
        r@.typed(),
{
    let ghost want = Seq::new(
        gs.len(),
        |i: int| count_cell(gs[i].accs[j as int].distinct.len() as int),
    );
    let mut cells: Vec<Value> = Vec::new();
    for i in 0..states.len()
        invariant
            have(states@, j as int),
            gs == group_views(states@),
            want == Seq::new(
                gs.len(),
                |i: int| count_cell(gs[i].accs[j as int].distinct.len() as int),
            ),
            cells@.len() == i,
            forall|k: int| 0 <= k < i ==> (#[trigger] cells@[k])@ == want[k],
    {
        assert(states@[i as int].wf());
        assert(states@[i as int].accs@[j as int].wf());
        let n: usize = states[i].accs[j].distinct_count();
        assert(gs[i as int].accs[j as int] == states@[i as int].accs@[j as int]@);
        let c: i64 = if n as u128 > i64::MAX as u128 {
            i64::MAX
        } else {
            n as i64
        };
        cells.push(Value::I64(c));
    }
    assert(data(cells@) =~= want);
    Column { dtype: DataType::I64, cells }
}

fn text_column(states: &Vec<GroupState>, j: usize, first: bool, Ghost(gs): Ghost<Seq<GroupV>>) -> (r: Column)
    requires
        have(states@, j as int),
        gs == group_views(states@),
    ensures
        r@ == (Lane {
            dtype: DataType::Str,
            cells: Seq::new(
                gs.len(),
                |i: int|
                    text_or_empty(
                        if first {
                            gs[i].accs[j as int].first
                        } else {
                            gs[i].accs[j as int].last
                        },
                    ),
            ),
        }),
        r@.typed(),
{
    let ghost want = Seq::new(
        gs.len(),
        |i: int|
            text_or_empty(
                if first {
                    gs[i].accs[j as int].first
                } else {
                    gs[i].accs[j as int].last
                },
            ),
    );
    let mut cells: Vec<Value> = Vec::new();
    for i in 0..states.len()
        invariant
            have(states@, j as int),
            gs == group_views(states@),
            want == Seq::new(
                gs.len(),
                |i: int|
                    text_or_empty(
                        if first {
                            gs[i].accs[j as int].first
                        } else {
                            gs[i].accs[j as int].last
                        },
                    ),
            ),
            cells@.len() == i,
            forall|k: int| 0 <= k < i ==> (#[trigger] cells@[k])@ == want[k],
    {
        assert(states@[i as int].wf());
        assert(gs[i as int].accs[j as int] == states@[i as int].accs@[j as int]@);
        let t: String = if first {
            states[i].accs[j].first_str()
        } else {
            states[i].accs[j].last_str()
        };
        cells.push(Value::Str(t));
    }
    assert(data(cells@) =~= want);
    Column { dtype: DataType::Str, cells }
}

fn instants(states: &Vec<GroupState>, j: usize, Ghost(gs): Ghost<Seq<GroupV>>) -> (r: Option<Vec<DateTime>>)
    requires
        have(states@, j as int),
        gs == group_views(states@),
    ensures
        match r {
            None => !all_instants(gs, j as int),
            Some(v) => all_instants(gs, j as int) && v@.len() == gs.len() && forall|i: int|
                0 <= i < gs.len() ==> gs[i].accs[j as int].instant() == Some(#[trigger] v@[i]),
        },
{
    if states.len() == 0 {
        return None;
    }
    let mut v: Vec<DateTime> = Vec::new();
    for i in 0..states.len()
        invariant
            have(states@, j as int),
            gs == group_views(states@),
            v@.len() == i,
            forall|k: int|
                0 <= k < i ==> gs[k].accs[j as int].instant() == Some(#[trigger] v@[k]),
    {
        assert(states@[i as int].wf());
        assert(gs[i as int].accs[j as int] == states@[i as int].accs@[j as int]@);
        match states[i].accs[j].dt_value() {
            None => {
                return None;
            },
            Some(d) => {
                v.push(d);
            },
        }
    }
    assert forall|i: int| 0 <= i < gs.len() implies (#[trigger] gs[i]).accs[j as int].instant() is Some by {
        assert(gs[i].accs[j as int].instant() == Some(v@[i]));
    }
    Some(v)
}

fn decimals(states: &Vec<GroupState>, j: usize, Ghost(gs): Ghost<Seq<GroupV>>) -> (r: Option<Vec<Decimal>>)
    requires
        have(states@, j as int),
        gs == group_views(states@),
    ensures
        match r {
            None => !all_decimals(gs, j as int),
            Some(v) => all_decimals(gs, j as int) && v@.len() == gs.len() && forall|i: int|
                0 <= i < gs.len() ==> gs[i].accs[j as int].decimal() == Some(#[trigger] v@[i]),
        },
{
    if states.len() == 0 {
        return None;
    }
    let mut v: Vec<Decimal> = Vec::new();
    for i in 0..states.len()
        invariant
            have(states@, j as int),
            gs == group_views(states@),
            v@.len() == i,
            forall|k: int|
                0 <= k < i ==> gs[k].accs[j as int].decimal() == Some(#[trigger] v@[k]),
    {
        assert(states@[i as int].wf());
        assert(states@[i as int].accs@[j as int].wf());
        assert(gs[i as int].accs[j as int] == states@[i as int].accs@[j as int]@);
        match states[i].accs[j].dec_value() {
            None => {
                return None;
            },
            Some(d) => {
                v.push(d);
            },
        }
    }
    assert forall|i: int| 0 <= i < gs.len() implies (#[trigger] gs[i]).accs[j as int].decimal() is Some by {
        assert(gs[i].accs[j as int].decimal() == Some(v@[i]));
    }
    Some(v)
}

fn number_column(states: &Vec<GroupState>, j: usize, Ghost(gs): Ghost<Seq<GroupV>>, host: &Answers) -> (r: Result<
    Column,
    Ask,
>)
    requires
        have(states@, j as int),
        gs == group_views(states@),
    ensures
        match (r, number_cells(gs, j as int, gs.len(), host@)) {
            (Ok(c), Ok(cells)) => c@ == (Lane { dtype: DataType::F64, cells }) && c@.typed()
                && cells.len() == gs.len(),
            (Err(a), Err(q)) => a@ == q,
            _ => false,
        },
{
    let mut cells: Vec<Value> = Vec::new();
    assert(data(cells@) =~= Seq::empty());
    for i in 0..states.len()
        invariant
            have(states@, j as int),
            gs == group_views(states@),
            cells@.len() == i,
            number_cells(gs, j as int, i as nat, host@) == Ok::<Seq<Datum>, Query>(data(cells@)),
            forall|k: int| 0 <= k < i ==> (#[trigger] cells@[k])@ is F64,
    {
        assert(states@[i as int].wf());
        assert(gs[i as int].accs[j as int] == states@[i as int].accs@[j as int]@);
        let ghost before = data(cells@);
        match states[i].accs[j].num_value(host) {
            Err(a) => {
                proof {
                    lemma_numbers_stop(gs, j as int, (i + 1) as nat, gs.len(), host@);
                }
                return Err(a);
            },
            Ok(x) => {
                cells.push(Value::F64(x));
                assert(data(cells@) =~= before.push(Datum::F64(x)));
            },
        }
    }
    Ok(Column { dtype: DataType::F64, cells })
}

fn agg_column(states: &Vec<GroupState>, f: AggFunc, j: usize, host: &Answers) -> (r: Result<Column, Ask>)
    requires
        have(states@, j as int),
    ensures
        match (r, agg_lane(group_views(states@), f, j as int, host@)) {
            (Ok(c), Ok(l)) => c@ == l && c@.typed() && c@.cells.len() == states@.len(),
            (Err(a), Err(q)) => a@ == q,
            _ => false,
        },
{
    let ghost gs = group_views(states@);
    match f {
        AggFunc::CountDistinct => {
            return Ok(distinct_column(states, j, Ghost(gs)));
        },
        AggFunc::First => {
            let c = text_column(states, j, true, Ghost(gs));
            assert(c@.cells =~= agg_lane(gs, f, j as int, host@)->Ok_0.cells);
            return Ok(c);
        },
        AggFunc::Last => {
            let c = text_column(states, j, false, Ghost(gs));
            assert(c@.cells =~= agg_lane(gs, f, j as int, host@)->Ok_0.cells);
            return Ok(c);
        },
        _ => {},
    }
    if matches!(f, AggFunc::Min | AggFunc::Max) {
        match instants(states, j, Ghost(gs)) {
            Some(v) => {
                let unit = v[0].unit;
                let ghost want = agg_lane(gs, f, j as int, host@)->Ok_0;
                let mut cells: Vec<Value> = Vec::new();
                for i in 0..v.len()
                    invariant
                        cells@.len() == i,
                        forall|k: int|
                            0 <= k < i ==> (#[trigger] cells@[k])@ == Datum::DateTime(
                                DateTime { ticks: v@[k].ticks, unit },
                            ),
                {
                    cells.push(Value::DateTime(DateTime { ticks: v[i].ticks, unit }));
                }
                proof {
                    assert(gs[0].accs[j as int].instant() == Some(v@[0]));
                    assert forall|i: int| 0 <= i < gs.len() implies data(cells@)[i]
                        == want.cells[i] by {
                        assert(gs[i].accs[j as int].instant() == Some(v@[i]));
                    }
                    assert(data(cells@) =~= want.cells);
                }
                return Ok(Column { dtype: DataType::DateTime { unit }, cells });
            },
            None => {},
        }
    }
    if matches!(f, AggFunc::Sum | AggFunc::Avg | AggFunc::Min | AggFunc::Max) {
        match decimals(states, j, Ghost(gs)) {
            Some(v) => {
                let scale: u8 = v[0].scale;
                let ghost want = agg_lane(gs, f, j as int, host@)->Ok_0;
                let mut cells: Vec<Value> = Vec::new();
                for i in 0..v.len()
                    invariant
                        cells@.len() == i,
                        forall|k: int|
                            0 <= k < i ==> (#[trigger] cells@[k])@ == Datum::Dec(
                                Decimal { unscaled: v@[k].unscaled, scale },
                            ),
                {
                    cells.push(Value::Dec(Decimal { unscaled: v[i].unscaled, scale }));
                }
                proof {
                    assert(gs[0].accs[j as int].decimal() == Some(v@[0]));
                    assert forall|i: int| 0 <= i < gs.len() implies data(cells@)[i]
                        == want.cells[i] by {
                        assert(gs[i].accs[j as int].decimal() == Some(v@[i]));
                    }
                    assert(data(cells@) =~= want.cells);
                }
                return Ok(Column { dtype: DataType::Decimal { scale }, cells });
            },
            None => {},
        }
    }
    number_column(states, j, Ghost(gs), host)
}

impl GroupBy {
    fn agg_columns(&self, host: &Answers) -> (r: Result<Vec<Column>, Ask>)
        requires
            self.wf(),
        ensures
            match (
                r,
                agg_lanes(
                    group_views(self.table.states@),
                    self.aggs_view(),
                    self.aggs@.len(),
                    host@,
                ),
            ) {
                (Ok(v), Ok(ls)) => lanes(v@) == ls && ls.len() == self.aggs@.len() && forall|j: int|
                    0 <= j < ls.len() ==> (#[trigger] ls[j]).typed() && ls[j].cells.len()
                        == self.table.states@.len(),
                (Err(a), Err(q)) => a@ == q,
                _ => false,
            },
    {
        let ghost gs = group_views(self.table.states@);
        let ghost av = self.aggs_view();
        let mut out: Vec<Column> = Vec::new();
        assert(lanes(out@) =~= Seq::empty());
        for n in 0..self.aggs.len()
            invariant
                self.wf(),
                gs == group_views(self.table.states@),
                av == self.aggs_view(),
                out@.len() == n,
                agg_lanes(gs, av, n as nat, host@) == Ok::<Seq<Lane>, Query>(lanes(out@)),
                forall|j: int|
                    0 <= j < n ==> (#[trigger] lanes(out@)[j]).typed() && lanes(
                        out@,
                    )[j].cells.len() == self.table.states@.len(),
        {
            let ghost before = lanes(out@);
            match agg_column(&self.table.states, self.aggs[n].func, n, host) {
                Err(a) => {
                    proof {
                        lemma_agg_lanes_stop(gs, av, (n + 1) as nat, self.aggs@.len(), host@);
                    }
                    return Err(a);
                },
                Ok(c) => {
                    let ghost l = c@;
                    out.push(c);
                    assert(lanes(out@) =~= before.push(l));
                },
            }
        }
        Ok(out)
    }

    /// Puts out a row for each group, once. A question leaves everything as it
    /// was.
    pub fn finish(&mut self, ctx: &mut OpCtx, host: &Answers) -> (r: Result<Option<Chunk>, Ask>)
        requires
            old(self).wf(),
        ensures
            final(self).wf(),
            final(self).keys == old(self).keys,
            final(self).aggs == old(self).aggs,
            final(self).groups() == old(self).groups(),
            if old(self).emitted {
                r matches Ok(None) && final(ctx)@ == old(ctx)@ && final(self).emitted
            } else {
                let gs = group_views(old(self).table.states@);
                match (r, agg_lanes(gs, old(self).aggs_view(), old(self).aggs@.len(), host@)) {
                    (Ok(Some(c)), Ok(ls)) => {
                        &&& c@ == group_chunk(
                            texts(old(self).keys@),
                            old(self).aggs_view(),
                            gs,
                            ls,
                            old(ctx)@.next_chunk_id,
                        )
                        &&& c@.wf()
                        &&& final(ctx)@ == old(ctx)@.advanced()
                        &&& final(self).emitted
                    },
                    (Err(a), Err(q)) => a@ == q && final(ctx)@ == old(ctx)@
                        && !final(self).emitted,
                    _ => false,
                }
            },
            r matches Ok(o) ==> group_ends(
                *old(self),
                old(ctx)@,
                host@,
                match o {
                    Some(c) => Some(c@),
                    None => None,
                },
                *final(self),
                final(ctx)@,
            ),
    {
        if self.emitted {
            return Ok(None);
        }
        let made: Vec<Column> = match self.agg_columns(host) {
            Err(a) => {
                return Err(a);
            },
            Ok(v) => v,
        };
        self.emitted = true;
        let id: u64 = ctx.fresh_id();
        Ok(Some(self.build(made, id)))
    }

    fn key_column(&self, ki: usize, Ghost(gs): Ghost<Seq<GroupV>>) -> (r: Column)
        requires
            self.wf(),
            ki < self.keys@.len(),
            gs == group_views(self.table.states@),
        ensures
            r@ == (Lane {
                dtype: DataType::Str,
                cells: Seq::new(gs.len(), |g: int| Datum::Str(gs[g].parts[ki as int])),
            }),
            r@.typed(),
    {
        let ghost want = Seq::new(gs.len(), |g: int| Datum::Str(gs[g].parts[ki as int]));
        let mut cells: Vec<Value> = Vec::new();
        for g in 0..self.table.states.len()
            invariant
                self.wf(),
                ki < self.keys@.len(),
                gs == group_views(self.table.states@),
                want == Seq::new(gs.len(), |g: int| Datum::Str(gs[g].parts[ki as int])),
                cells@.len() == g,
                forall|k: int| 0 <= k < g ==> (#[trigger] cells@[k])@ == want[k],
        {
            assert(self.table.states@[g as int].key_parts@.len() == self.keys@.len());
            assert(gs[g as int].parts[ki as int]
                == self.table.states@[g as int].key_parts@[ki as int]@);
            cells.push(Value::Str(self.table.states[g].key_parts[ki].clone()));
        }
        assert(data(cells@) =~= want);
        Column { dtype: DataType::Str, cells }
    }

    fn build(&self, made: Vec<Column>, id: u64) -> (r: Chunk)
        requires
            self.wf(),
            made@.len() == self.aggs@.len(),
            forall|j: int|
                0 <= j < made@.len() ==> (#[trigger] lanes(made@)[j]).typed() && lanes(
                    made@,
                )[j].cells.len() == self.table.states@.len(),
        ensures
            r@ == group_chunk(
                texts(self.keys@),
                self.aggs_view(),
                group_views(self.table.states@),
                lanes(made@),
                id,
            ),
            r@.wf(),
    {
        let ghost gs = group_views(self.table.states@);
        let ghost want = group_chunk(
            texts(self.keys@),
            self.aggs_view(),
            gs,
            lanes(made@),
            id,
        );
        let mut fields: Vec<Field> = Vec::new();
        let mut columns: Vec<Column> = Vec::new();
        for ki in 0..self.keys.len()
            invariant
                self.wf(),
                gs == group_views(self.table.states@),
                want == group_chunk(
                    texts(self.keys@),
                    self.aggs_view(),
                    gs,
                    lanes(made@),
                    id,
                ),
                fields@.len() == ki,
                columns@.len() == ki,
                forall|k: int| 0 <= k < ki ==> (#[trigger] fields@[k])@ == want.fields[k],
                forall|k: int|
                    0 <= k < ki ==> (#[trigger] columns@[k])@ == want.columns[k]
                        && columns@[k]@.typed(),
        {
            fields.push(Field::flat(self.keys[ki].clone(), DataType::Str));
            columns.push(self.key_column(ki, Ghost(gs)));
        }
        let mut counts: Vec<Value> = Vec::new();
        for g in 0..self.table.states.len()
            invariant
                self.wf(),
                gs == group_views(self.table.states@),
                counts@.len() == g,
                forall|k: int| 0 <= k < g ==> (#[trigger] counts@[k])@ == count_cell(gs[k].count),
        {
            assert(self.table.states@[g as int].wf());
            counts.push(Value::I64(self.table.states[g].count));
        }
        assert(data(counts@) =~= Seq::new(gs.len(), |g: int| count_cell(gs[g].count)));
        let ghost nk = self.keys@.len() as int;
        fields.push(Field::flat(owned("count"), DataType::I64));
        columns.push(Column { dtype: DataType::I64, cells: counts });
        for j in 0..self.aggs.len()
            invariant
                self.wf(),
                made@.len() == self.aggs@.len(),
                nk == self.keys@.len(),
                want == group_chunk(
                    texts(self.keys@),
                    self.aggs_view(),
                    gs,
                    lanes(made@),
                    id,
                ),
                fields@.len() == nk + 1 + j,
                columns@.len() == nk + 1 + j,
                forall|k: int| 0 <= k < nk + 1 + j ==> (#[trigger] fields@[k])@ == want.fields[k],
                forall|k: int|
                    0 <= k < nk + 1 + j ==> (#[trigger] columns@[k])@ == want.columns[k]
                        && columns@[k]@.typed(),
                forall|j: int|
                    0 <= j < made@.len() ==> (#[trigger] lanes(made@)[j]).typed() && lanes(
                        made@,
                    )[j].cells.len() == self.table.states@.len(),
        {
            let mut name: String = self.aggs[j].label.clone();
            name.push('_');
            name.push_str(self.aggs[j].col.as_str());
            proof {
                assert(name@ =~= self.aggs@[j as int].label@ + seq!['_'] + self.aggs@[j as int].col@);
                assert(lanes(made@)[j as int] == made@[j as int]@);
                assert(lanes(made@)[j as int].typed());
            }
            fields.push(Field::flat(name, made[j].dtype));
            columns.push(made[j].dup());
        }
        proof {
            assert(fields_view(fields@) =~= want.fields);
            assert(lanes(columns@) =~= want.columns);
        }
        let len: usize = self.table.states.len();
        let r = Chunk { fields, columns, len, id, mode: Mode::Normal, source: None };
        proof {
            let b = r@;
            assert forall|i: int| 0 <= i < b.columns.len() implies {
                &&& (#[trigger] b.columns[i]).cells.len() == b.len
                &&& b.columns[i].typed()
            } by {
                assert(columns@[i]@.typed());
                if i > nk {
                    assert(lanes(made@)[i - nk - 1].cells.len() == self.table.states@.len());
                }
            }
            assert forall|i: int| 0 <= i < b.fields.len() implies (#[trigger] b.columns[i]).dtype
                == b.fields[i].dtype by {}
        }
        r
    }
}

} // verus!
