//! What type a column of JSON values has: found value by value, and put together
//! from runs of rows that are looked at apart.
use vstd::prelude::*;
use crate::text::same_text;
use crate::value::{data, dup_texts, texts, DataType, Datum, Value};
use crate::json::{member_views, lemma_list_view, lemma_struct_view};

verus! {

// ---------------------------------------------------------------- scalars

/// What is known of the scalars of a column.
#[derive(Clone, Copy, Debug, PartialEq, Eq, Structural)]
pub struct Flags {
    pub any: bool,
    pub all_int: bool,
    pub all_num: bool,
    pub all_bool: bool,
}

impl Flags {
    /// Nothing seen.
    pub open spec fn none() -> Flags {
        Flags { any: false, all_int: true, all_num: true, all_bool: true }
    }

    /// After one value.
    pub open spec fn seen(self, d: Datum) -> Flags {
        match d {
            Datum::Null => self,
            Datum::I64(_) => Flags { any: true, all_bool: false, ..self },
            Datum::F64(_) => Flags { any: true, all_int: false, all_bool: false, ..self },
            Datum::Bool(_) => Flags { any: true, all_int: false, all_num: false, ..self },
            _ => Flags { any: true, all_int: false, all_num: false, all_bool: false },
        }
    }

    /// The two together.
    pub open spec fn joined(self, o: Flags) -> Flags {
        Flags {
            any: self.any || o.any,
            all_int: self.all_int && o.all_int,
            all_num: self.all_num && o.all_num,
            all_bool: self.all_bool && o.all_bool,
        }
    }

    /// The narrowest lane that fits.
    pub open spec fn lane(self) -> DataType {
        if !self.any {
            DataType::Str
        } else if self.all_int {
            DataType::I64
        } else if self.all_num {
            DataType::F64
        } else if self.all_bool {
            DataType::Bool
        } else {
            DataType::Str
        }
    }

    /// Nothing seen.
    pub fn new() -> (r: Flags)
        ensures
            r == Flags::none(),
    {
        Flags { any: false, all_int: true, all_num: true, all_bool: true }
    }

    /// Looks at one value.
    pub fn observe(&mut self, v: &Value)
        ensures
            *final(self) == old(self).seen(v@),
    {
        match v {
            Value::Null => {},
            Value::I64(_) => {
                self.any = true;
                self.all_bool = false;
            },
            Value::F64(_) => {
                self.any = true;
                self.all_int = false;
                self.all_bool = false;
            },
            Value::Bool(_) => {
                self.any = true;
                self.all_int = false;
                self.all_num = false;
            },
            _ => {
                self.any = true;
                self.all_int = false;
                self.all_num = false;
                self.all_bool = false;
            },
        }
    }

    /// The narrowest lane that fits.
    pub fn resolve(&self) -> (r: DataType)
        ensures
            r == self.lane(),
    {
        if !self.any {
            DataType::Str
        } else if self.all_int {
            DataType::I64
        } else if self.all_num {
            DataType::F64
        } else if self.all_bool {
            DataType::Bool
        } else {
            DataType::Str
        }
    }

    /// Puts the flags of other values to these.
    pub fn merge(&mut self, o: &Flags)
        ensures
            *final(self) == old(self).joined(*o),
    {
        self.any = self.any || o.any;
        self.all_int = self.all_int && o.all_int;
        self.all_num = self.all_num && o.all_num;
        self.all_bool = self.all_bool && o.all_bool;
    }
}

/// The flags of values, one after the other.
pub open spec fn flags_of(s: Seq<Datum>) -> Flags
    decreases s.len(),
{
    if s.len() == 0 {
        Flags::none()
    } else {
        flags_of(s.drop_last()).seen(s.last())
    }
}

/// Flags of runs of values, put together in any order, are the flags of all the
/// values in one go.
pub proof fn lemma_flags_merge(x: Seq<Datum>, y: Seq<Datum>)
    ensures
        flags_of(x).joined(flags_of(y)) == flags_of(x + y),
        flags_of(y).joined(flags_of(x)) == flags_of(x + y),
    decreases y.len(),
{
    if y.len() == 0 {
        assert(x + y =~= x);
    } else {
        assert((x + y).drop_last() =~= x + y.drop_last());
        lemma_flags_merge(x, y.drop_last());
    }
}

// ------------------------------------------------------------------- types

/// The type of a column: a lane, or nested.
#[derive(Debug)]
pub enum JType {
    Scalar(DataType),
    Struct { names: Vec<String>, children: Vec<JType> },
    List(Box<JType>),
}

/// What a [`JType`] is.
pub enum JTypeV {
    Scalar(DataType),
    Struct { names: Seq<Seq<char>>, children: Seq<JTypeV> },
    List(Box<JTypeV>),
}

impl JType {
    /// The type.
    pub open spec fn view(&self) -> JTypeV
        decreases *self,
    {
        match *self {
            JType::Scalar(d) => JTypeV::Scalar(d),
            JType::Struct { names, children } => JTypeV::Struct {
                names: texts(names@),
                children: Seq::new(
                    children@.len(),
                    |i: int|
                        if 0 <= i < children@.len() {
                            children@[i].view()
                        } else {
                            arbitrary()
                        },
                ),
            },
            JType::List(e) => JTypeV::List(Box::new(e.view())),
        }
    }
}

/// The views of a list of types.
pub open spec fn type_views(s: Seq<JType>) -> Seq<JTypeV> {
    Seq::new(s.len(), |i: int| s[i]@)
}

// --------------------------------------------------------------- inference

/// What is known of the values of a column.
#[derive(Debug)]
pub struct Infer {
    pub scalar: Flags,
    pub saw_scalar: bool,
    pub structs: Option<StructInfer>,
    pub list: Option<Box<Infer>>,
}

/// What is known of the objects of a column. Every name is kept, since a run of
/// rows that is put behind another one may share it; the names that the type
/// shows are those of the first object, which come first.
#[derive(Debug)]
pub struct StructInfer {
    pub names: Vec<String>,
    pub children: Vec<Infer>,
    /// How many names the first object has.
    pub shown: usize,
}

/// What an [`Infer`] is.
pub struct InferV {
    pub scalar: Flags,
    pub saw_scalar: bool,
    pub structs: Option<StructV>,
    pub list: Option<Box<InferV>>,
}

/// What a [`StructInfer`] is.
#[verifier::ext_equal]
pub struct StructV {
    pub names: Seq<Seq<char>>,
    pub children: Seq<InferV>,
    pub shown: nat,
}

impl Infer {
    /// What is known.
    pub open spec fn view(&self) -> InferV
        decreases *self,
    {
        InferV {
            scalar: self.scalar,
            saw_scalar: self.saw_scalar,
            structs: match self.structs {
                None => None,
                Some(s) => Some(s.view()),
            },
            list: match self.list {
                None => None,
                Some(e) => Some(Box::new(e.view())),
            },
        }
    }
}

impl StructInfer {
    /// What is known.
    pub open spec fn view(&self) -> StructV
        decreases *self,
    {
        StructV {
            names: texts(self.names@),
            children: Seq::new(
                self.children@.len(),
                |i: int|
                    if 0 <= i < self.children@.len() {
                        self.children@[i].view()
                    } else {
                        arbitrary()
                    },
            ),
            shown: self.shown as nat,
        }
    }
}

/// The views of a list.
pub open spec fn infer_views(s: Seq<Infer>) -> Seq<InferV> {
    Seq::new(s.len(), |i: int| s[i]@)
}

proof fn lemma_struct_infer_view(s: StructInfer)
    ensures
        s@.children == infer_views(s.children@),
        s@.names == texts(s.names@),
        s@.shown == s.shown,
{
    assert(s@.children =~= infer_views(s.children@));
}

/// Nothing is known.
pub open spec fn nothing() -> InferV {
    InferV { scalar: Flags::none(), saw_scalar: false, structs: None, list: None }
}

/// The first place of a name.
pub open spec fn name_place(names: Seq<Seq<char>>, k: Seq<char>) -> Option<int>
    decreases names.len(),
{
    if names.len() == 0 {
        None
    } else {
        match name_place(names.drop_last(), k) {
            Some(i) => Some(i),
            None => if names.last() == k {
                Some(names.len() - 1)
            } else {
                None
            },
        }
    }
}

pub proof fn lemma_name_place(names: Seq<Seq<char>>, k: Seq<char>)
    ensures
        match name_place(names, k) {
            Some(i) => 0 <= i < names.len() && names[i] == k,
            None => !names.contains(k),
        },
    decreases names.len(),
{
    if names.len() > 0 {
        lemma_name_place(names.drop_last(), k);
        if names.contains(k) && name_place(names.drop_last(), k) is None {
            let i = choose|i: int| 0 <= i < names.len() && names[i] == k;
            if i < names.len() - 1 {
                assert(names.drop_last()[i] == k);
            }
        }
    }
}

proof fn lemma_place_take(names: Seq<Seq<char>>, k: Seq<char>, n: int)
    requires
        0 <= n <= names.len(),
        name_place(names.take(n), k) is Some,
    ensures
        name_place(names, k) == name_place(names.take(n), k),
    decreases names.len() - n,
{
    if n == names.len() {
        assert(names.take(n) =~= names);
    } else {
        assert(names.take(n + 1).drop_last() =~= names.take(n));
        lemma_place_take(names, k, n + 1);
    }
}

/// The first place of a name.
pub fn find_name(names: &Vec<String>, k: &str) -> (r: Option<usize>)
    ensures
        match r {
            Some(i) => name_place(texts(names@), k@) == Some(i as int) && i < names@.len(),
            None => name_place(texts(names@), k@) is None,
        },
{
    let ghost t = texts(names@);
    assert(t.take(0) =~= Seq::empty());
    for i in 0..names.len()
        invariant
            t == texts(names@),
            name_place(t.take(i as int), k@) is None,
    {
        assert(t.take(i + 1).drop_last() =~= t.take(i as int));
        assert(t[i as int] == names@[i as int]@);
        if same_text(names[i].as_str(), k) {
            proof {
                lemma_place_take(t, k@, i + 1);
            }
            return Some(i);
        }
    }
    assert(t.take(names@.len() as int) =~= t);
    None
}

/// The names of members.
pub open spec fn keys_of(m: Seq<(Seq<char>, Datum)>) -> Seq<Seq<char>> {
    Seq::new(m.len(), |i: int| m[i].0)
}

/// What is known of objects before the first: its names, and nothing of each.
pub open spec fn opened(m: Seq<(Seq<char>, Datum)>) -> StructV {
    StructV {
        names: keys_of(m),
        children: Seq::new(m.len(), |i: int| nothing()),
        shown: m.len(),
    }
}

/// What is known of objects with something more known of one name.
pub open spec fn with_child(s: StructV, k: Seq<char>, a: InferV) -> StructV {
    match name_place(s.names, k) {
        Some(i) => StructV { children: s.children.update(i, a), ..s },
        None => StructV { names: s.names.push(k), children: s.children.push(a), ..s },
    }
}

/// What is known of a name: nothing where it was not seen.
pub open spec fn child(s: StructV, k: Seq<char>) -> InferV {
    match name_place(s.names, k) {
        Some(i) => s.children[i],
        None => nothing(),
    }
}

/// What is known after one value.
pub open spec fn seen(a: InferV, d: Datum) -> InferV
    decreases d, 1nat, 0nat,
{
    match d {
        Datum::Null => a,
        Datum::Struct(m) => InferV {
            structs: Some(
                seen_members(
                    match a.structs {
                        Some(s) => s,
                        None => opened(m),
                    },
                    d,
                    m.len(),
                ),
            ),
            ..a
        },
        Datum::List(v) => InferV {
            list: Some(
                Box::new(
                    seen_elements(
                        match a.list {
                            Some(e) => *e,
                            None => nothing(),
                        },
                        d,
                        v.len(),
                    ),
                ),
            ),
            ..a
        },
        _ => InferV { saw_scalar: true, scalar: a.scalar.seen(d), ..a },
    }
}

/// What is known of objects after the first `n` members of one.
pub open spec fn seen_members(s: StructV, d: Datum, n: nat) -> StructV
    decreases d, 0nat, n,
{
    match d {
        Datum::Struct(m) => if 0 < n <= m.len() {
            let up = seen_members(s, d, (n - 1) as nat);
            with_child(up, m[n - 1].0, seen(child(up, m[n - 1].0), m[n - 1].1))
        } else {
            s
        },
        _ => s,
    }
}

/// What is known of elements after the first `n` of an array.
pub open spec fn seen_elements(a: InferV, d: Datum, n: nat) -> InferV
    decreases d, 0nat, n,
{
    match d {
        Datum::List(v) => if 0 < n <= v.len() {
            seen(seen_elements(a, d, (n - 1) as nat), v[n - 1])
        } else {
            a
        },
        _ => a,
    }
}

/// Every object has something known of each of its names.
pub open spec fn sound(a: InferV) -> bool
    decreases a,
{
    &&& a.structs matches Some(s) ==> {
        &&& s.shown <= s.names.len()
        &&& s.names.len() == s.children.len()
        &&& forall|i: int| 0 <= i < s.children.len() ==> sound(#[trigger] s.children[i])
    }
    &&& a.list matches Some(e) ==> sound(*e)
}

/// The same, of objects.
pub open spec fn sound_struct(s: StructV) -> bool {
    &&& s.shown <= s.names.len()
    &&& s.names.len() == s.children.len()
    &&& forall|i: int| 0 <= i < s.children.len() ==> sound(#[trigger] s.children[i])
}

proof fn lemma_seen_sound(a: InferV, d: Datum)
    requires
        sound(a),
    ensures
        sound(seen(a, d)),
    decreases d, 1nat, 0nat,
{
    match d {
        Datum::Struct(m) => {
            let s = match a.structs {
                Some(s) => s,
                None => opened(m),
            };
            assert(sound(nothing()));
            assert(sound_struct(s));
            lemma_seen_members_sound(s, d, m.len());
        },
        Datum::List(v) => {
            let e = match a.list {
                Some(e) => *e,
                None => nothing(),
            };
            assert(sound(nothing()));
            lemma_seen_elements_sound(e, d, v.len());
        },
        _ => {},
    }
}

proof fn lemma_with_child_sound(s: StructV, k: Seq<char>, a: InferV)
    requires
        sound_struct(s),
        sound(a),
    ensures
        sound_struct(with_child(s, k, a)),
        sound(child(s, k)),
{
    lemma_name_place(s.names, k);
    assert(sound(nothing()));
}

proof fn lemma_seen_members_sound(s: StructV, d: Datum, n: nat)
    requires
        sound_struct(s),
    ensures
        sound_struct(seen_members(s, d, n)),
    decreases d, 0nat, n,
{
    if d is Struct && 0 < n <= d->Struct_0.len() {
        let m = d->Struct_0;
        lemma_seen_members_sound(s, d, (n - 1) as nat);
        let up = seen_members(s, d, (n - 1) as nat);
        let k = m[n - 1].0;
        lemma_name_place(up.names, k);
        assert(sound(nothing()));
        assert(sound(child(up, k)));
        lemma_seen_sound(child(up, k), m[n - 1].1);
        lemma_with_child_sound(up, k, seen(child(up, k), m[n - 1].1));
    }
}

proof fn lemma_seen_elements_sound(a: InferV, d: Datum, n: nat)
    requires
        sound(a),
    ensures
        sound(seen_elements(a, d, n)),
    decreases d, 0nat, n,
{
    if d is List && 0 < n <= d->List_0.len() {
        lemma_seen_elements_sound(a, d, (n - 1) as nat);
        lemma_seen_sound(seen_elements(a, d, (n - 1) as nat), d->List_0[n - 1]);
    }
}

/// The type that is known: a mixture of kinds is text.
pub open spec fn type_of(a: InferV) -> JTypeV
    decreases a,
{
    let structs = a.structs is Some;
    let list = a.list is Some;
    if (structs && list) || (structs && a.saw_scalar) || (list && a.saw_scalar) {
        JTypeV::Scalar(DataType::Str)
    } else {
        match a.structs {
            Some(s) => JTypeV::Struct {
                names: s.names.take(s.shown as int),
                children: Seq::new(
                    s.shown,
                    |i: int|
                        if 0 <= i < s.children.len() {
                            type_of(s.children[i])
                        } else {
                            arbitrary()
                        },
                ),
            },
            None => match a.list {
                Some(e) => JTypeV::List(Box::new(type_of(*e))),
                None => JTypeV::Scalar(a.scalar.lane()),
            },
        }
    }
}

/// What is known of two runs of values together, the second later.
pub open spec fn merged(a: InferV, b: InferV) -> InferV
    decreases b, 1nat, 0nat,
{
    InferV {
        scalar: a.scalar.joined(b.scalar),
        saw_scalar: a.saw_scalar || b.saw_scalar,
        structs: match (a.structs, b.structs) {
            (Some(x), Some(y)) => Some(merged_members(x, b, y.names.len())),
            (None, Some(y)) => Some(y),
            (x, None) => x,
        },
        list: match (a.list, b.list) {
            (Some(x), Some(y)) => Some(Box::new(merged(*x, *y))),
            (None, Some(y)) => Some(y),
            (x, None) => x,
        },
    }
}

/// What is known of objects together with the first `n` names of the later
/// ones.
pub open spec fn merged_members(x: StructV, b: InferV, n: nat) -> StructV
    decreases b, 0nat, n,
{
    match b.structs {
        Some(y) => if 0 < n <= y.names.len() && n <= y.children.len() {
            let up = merged_members(x, b, (n - 1) as nat);
            let k = y.names[n - 1];
            with_child(
                up,
                k,
                if name_place(up.names, k) is Some {
                    merged(child(up, k), y.children[n - 1])
                } else {
                    y.children[n - 1]
                },
            )
        } else {
            x
        },
        None => x,
    }
}

proof fn lemma_merged_sound(a: InferV, b: InferV)
    requires
        sound(a),
        sound(b),
    ensures
        sound(merged(a, b)),
    decreases b, 1nat, 0nat,
{
    if let (Some(x), Some(y)) = (a.structs, b.structs) {
        assert(sound_struct(x));
        lemma_merged_members_sound(x, b, y.names.len());
    }
    if let (Some(x), Some(y)) = (a.list, b.list) {
        lemma_merged_sound(*x, *y);
    }
}

proof fn lemma_merged_members_sound(x: StructV, b: InferV, n: nat)
    requires
        sound_struct(x),
        sound(b),
    ensures
        sound_struct(merged_members(x, b, n)),
    decreases b, 0nat, n,
{
    if b.structs is Some && 0 < n <= b.structs->Some_0.names.len() && n
        <= b.structs->Some_0.children.len() {
        let y = b.structs->Some_0;
        lemma_merged_members_sound(x, b, (n - 1) as nat);
        let up = merged_members(x, b, (n - 1) as nat);
        let k = y.names[n - 1];
        let c = y.children[n - 1];
        lemma_name_place(up.names, k);
        assert(sound(c));
        if name_place(up.names, k) is Some {
            assert(sound(child(up, k)));
            lemma_merged_sound(child(up, k), c);
            lemma_with_child_sound(up, k, merged(child(up, k), c));
        } else {
            lemma_with_child_sound(up, k, c);
        }
    }
}

impl Infer {
    /// Nothing is known.
    pub fn new() -> (r: Infer)
        ensures
            r@ == nothing(),
            sound(r@),
    {
        Infer { scalar: Flags::new(), saw_scalar: false, structs: None, list: None }
    }

    /// Looks at one value (see [`seen`]).
    pub fn observe(&mut self, v: &Value)
        requires
            sound(old(self)@),
        ensures
            final(self)@ == seen(old(self)@, v@),
            sound(final(self)@),
        decreases *v, 1nat,
    {
        let ghost was = self@;
        proof {
            lemma_seen_sound(was, v@);
        }
        match v {
            Value::Null => {},
            Value::Struct(m) => {
                proof {
                    lemma_struct_view(*m);
                    assert(decreases_to!(*v => *m));
                    assert(sound(nothing()));
                }
                if self.structs.is_none() {
                    self.structs = Some(Infer::open(m));
                }
                let mut taken: Option<StructInfer> = None;
                std::mem::swap(&mut taken, &mut self.structs);
                match taken {
                    Some(mut st) => {
                        Infer::observe_members(&mut st, m);
                        self.structs = Some(st);
                    },
                    None => {},
                }
            },
            Value::List(es) => {
                proof {
                    lemma_list_view(*es);
                    assert(sound(nothing()));
                }
                if self.list.is_none() {
                    self.list = Some(Box::new(Infer::new()));
                }
                let mut taken: Option<Box<Infer>> = None;
                std::mem::swap(&mut taken, &mut self.list);
                match taken {
                    Some(e) => {
                        let mut el: Infer = *e;
                        let ghost start = el@;
                        for n in 0..es.len()
                            invariant
                                v@ == Datum::List(data(es@)),
                                sound(el@),
                                el@ == seen_elements(start, v@, n as nat),
                                decreases_to!(*v => *es),
                        {
                            proof {
                                assert(decreases_to!(*es => es@));
                                assert(decreases_to!(es@ => es@[n as int]));
                                assert(data(es@)[n as int] == es@[n as int]@);
                            }
                            el.observe(&es[n]);
                        }
                        self.list = Some(Box::new(el));
                    },
                    None => {},
                }
            },
            _ => {
                self.saw_scalar = true;
                self.scalar.observe(v);
            },
        }
    }

    fn open(m: &Vec<(String, Value)>) -> (r: StructInfer)
        ensures
            r@ == opened(member_views(m@)),
    {
        let mut names: Vec<String> = Vec::new();
        let mut children: Vec<Infer> = Vec::new();
        for i in 0..m.len()
            invariant
                names@.len() == i,
                children@.len() == i,
                forall|k: int| 0 <= k < i ==> (#[trigger] names@[k])@ == m@[k].0@,
                forall|k: int| 0 <= k < i ==> (#[trigger] children@[k])@ == nothing(),
        {
            names.push(m[i].0.clone());
            children.push(Infer::new());
        }
        let r = StructInfer { names, children, shown: m.len() };
        proof {
            lemma_struct_infer_view(r);
            assert(r@.names =~= keys_of(member_views(m@)));
            assert(r@.children =~= opened(member_views(m@)).children);
        }
        r
    }

    fn observe_members(st: &mut StructInfer, m: &Vec<(String, Value)>)
        requires
            sound_struct(old(st)@),
        ensures
            final(st)@ == seen_members(
                old(st)@,
                Datum::Struct(member_views(m@)),
                m@.len(),
            ),
            sound_struct(final(st)@),
        decreases *m, 0nat,
    {
        let ghost d = Datum::Struct(member_views(m@));
        let ghost start = st@;
        for n in 0..m.len()
            invariant
                d == Datum::Struct(member_views(m@)),
                sound_struct(start),
                sound_struct(st@),
                st@ == seen_members(start, d, n as nat),
        {
            proof {
                assert(decreases_to!(*m => m@));
                assert(decreases_to!(m@ => m@[n as int]));
                assert(decreases_to!(m@[n as int] => m@[n as int].1));
                lemma_struct_infer_view(*st);
                assert(d->Struct_0[n as int] == (m@[n as int].0@, m@[n as int].1@));
                lemma_seen_members_sound(start, d, (n + 1) as nat);
            }
            match find_name(&st.names, m[n].0.as_str()) {
                None => {
                    let ghost up = *st;
                    assert(sound(nothing()));
                    let mut one: Infer = Infer::new();
                    one.observe(&m[n].1);
                    st.names.push(m[n].0.clone());
                    st.children.push(one);
                    proof {
                        lemma_struct_infer_view(*st);
                        assert(texts(st.names@) =~= texts(up.names@).push(m@[n as int].0@));
                        assert(infer_views(st.children@) =~= infer_views(up.children@).push(
                            seen(nothing(), m@[n as int].1@),
                        ));
                    }
                },
                Some(i) => {
                    let ghost up = *st;
                    assert(sound(st@.children[i as int]));
                    assert(st.children@[i as int]@ == st@.children[i as int]);
                    st.children[i].observe(&m[n].1);
                    proof {
                        lemma_struct_infer_view(*st);
                        assert(infer_views(st.children@) =~= infer_views(up.children@).update(
                            i as int,
                            st.children@[i as int]@,
                        ));
                    }
                },
            }
        }
    }

    /// The type that is known (see [`type_of`]).
    pub fn resolve(&self) -> (r: JType)
        requires
            sound(self@),
        ensures
            r@ == type_of(self@),
        decreases *self,
    {
        let structs: bool = self.structs.is_some();
        let list: bool = self.list.is_some();
        if (structs && list) || (structs && self.saw_scalar) || (list && self.saw_scalar) {
            return JType::Scalar(DataType::Str);
        }
        match &self.structs {
            Some(s) => {
                let mut children: Vec<JType> = Vec::new();
                proof {
                    lemma_struct_infer_view(*s);
                }
                let mut names: Vec<String> = Vec::new();
                for i in 0..s.shown
                    invariant
                        self.structs == Some(*s),
                        s@.children == infer_views(s.children@),
                        s@.names == texts(s.names@),
                        s@.shown == s.shown,
                        sound_struct(s@),
                        names@.len() == i,
                        forall|k: int| 0 <= k < i ==> (#[trigger] names@[k])@ == s.names@[k]@,
                        children@.len() == i,
                        forall|k: int|
                            0 <= k < i ==> (#[trigger] children@[k])@ == type_of(s@.children[k]),
                {
                    proof {
                        assert(decreases_to!(*self => self.structs));
                        assert(decreases_to!(self.structs => self.structs->Some_0));
                        assert(decreases_to!(*s => s.children));
                        assert(decreases_to!(s.children => s.children@));
                        assert(decreases_to!(s.children@ => s.children@[i as int]));
                    }
                    assert(sound(s@.children[i as int]));
                    assert(s@.children[i as int] == s.children@[i as int]@);
                    let c: JType = s.children[i].resolve();
                    children.push(c);
                    names.push(s.names[i].clone());
                }
                assert(texts(names@) =~= s@.names.take(s.shown as int));
                let r = JType::Struct { names, children };
                proof {
                    assert(r@->children =~= type_of(self@)->children);
                    assert(texts(names@).len() == names@.len());
                }
                r
            },
            None => match &self.list {
                Some(e) => JType::List(Box::new(e.resolve())),
                None => JType::Scalar(self.scalar.resolve()),
            },
        }
    }

    /// A copy.
    pub fn dup(&self) -> (r: Infer)
        ensures
            r@ == self@,
        decreases *self, 1nat,
    {
        Infer {
            scalar: self.scalar,
            saw_scalar: self.saw_scalar,
            structs: match &self.structs {
                Some(s) => Some(s.dup()),
                None => None,
            },
            list: match &self.list {
                Some(e) => Some(Box::new(e.dup())),
                None => None,
            },
        }
    }

    /// Puts what is known of a later run of values to this (see [`merged`]).
    pub fn merge(&mut self, o: &Infer)
        requires
            sound(old(self)@),
            sound(o@),
        ensures
            final(self)@ == merged(old(self)@, o@),
            sound(final(self)@),
        decreases *o, 1nat,
    {
        let ghost was = self@;
        proof {
            lemma_merged_sound(was, o@);
        }
        self.saw_scalar = self.saw_scalar || o.saw_scalar;
        self.scalar.merge(&o.scalar);
        match &o.structs {
            Some(y) => {
                let mut taken: Option<StructInfer> = None;
                std::mem::swap(&mut taken, &mut self.structs);
                match taken {
                    Some(mut x) => {
                        proof {
                            assert(sound_struct(x@));
                            assert(decreases_to!(*o => o.structs));
                            assert(decreases_to!(o.structs => o.structs->Some_0));
                        }
                        Infer::merge_members(&mut x, y, Ghost(o@));
                        self.structs = Some(x);
                    },
                    None => {
                        self.structs = Some(y.dup());
                    },
                }
            },
            None => {},
        }
        match &o.list {
            Some(y) => {
                let mut taken: Option<Box<Infer>> = None;
                std::mem::swap(&mut taken, &mut self.list);
                match taken {
                    Some(x) => {
                        let mut e: Infer = *x;
                        e.merge(y);
                        self.list = Some(Box::new(e));
                    },
                    None => {
                        self.list = Some(Box::new(y.dup()));
                    },
                }
            },
            None => {},
        }
    }

    fn merge_members(x: &mut StructInfer, y: &StructInfer, Ghost(b): Ghost<InferV>)
        requires
            sound_struct(old(x)@),
            sound(b),
            b.structs == Some(y@),
        ensures
            final(x)@ == merged_members(old(x)@, b, y@.names.len()),
            sound_struct(final(x)@),
        decreases *y, 0nat,
    {
        let ghost start = x@;
        proof {
            lemma_struct_infer_view(*y);
        }
        for n in 0..y.names.len()
            invariant
                b.structs == Some(y@),
                sound(b),
                y@.children == infer_views(y.children@),
                y@.names == texts(y.names@),
                sound_struct(start),
                sound_struct(x@),
                x@ == merged_members(start, b, n as nat),
        {
            proof {
                assert(sound_struct(y@));
                assert(decreases_to!(*y => y.children));
                assert(decreases_to!(y.children => y.children@));
                assert(decreases_to!(y.children@ => y.children@[n as int]));
                lemma_struct_infer_view(*x);
                assert(y@.names[n as int] == y.names@[n as int]@);
                assert(y@.children[n as int] == y.children@[n as int]@);
                assert(sound(y@.children[n as int]));
            }
            match find_name(&x.names, y.names[n].as_str()) {
                None => {
                    let ghost up = *x;
                    x.names.push(y.names[n].clone());
                    x.children.push(y.children[n].dup());
                    proof {
                        lemma_struct_infer_view(*x);
                        assert(texts(x.names@) =~= texts(up.names@).push(y.names@[n as int]@));
                        assert(infer_views(x.children@) =~= infer_views(up.children@).push(
                            y.children@[n as int]@,
                        ));
                        lemma_merged_members_sound(start, b, (n + 1) as nat);
                    }
                },
                Some(i) => {
                    let ghost up = *x;
                    assert(sound(x@.children[i as int]));
                    assert(x.children@[i as int]@ == x@.children[i as int]);
                    x.children[i].merge(&y.children[n]);
                    proof {
                        lemma_struct_infer_view(*x);
                        assert(infer_views(x.children@) =~= infer_views(up.children@).update(
                            i as int,
                            x.children@[i as int]@,
                        ));
                        lemma_merged_sound(up@.children[i as int], y@.children[n as int]);
                    }
                },
            }
        }
    }
}

impl StructInfer {
    /// A copy.
    pub fn dup(&self) -> (r: StructInfer)
        ensures
            r@ == self@,
        decreases *self, 0nat,
    {
        let mut children: Vec<Infer> = Vec::new();
        for i in 0..self.children.len()
            invariant
                children@.len() == i,
                forall|k: int| 0 <= k < i ==> (#[trigger] children@[k])@ == self.children@[k]@,
        {
            proof {
                assert(decreases_to!(*self => self.children));
                assert(decreases_to!(self.children => self.children@));
                assert(decreases_to!(self.children@ => self.children@[i as int]));
            }
            let c: Infer = self.children[i].dup();
            children.push(c);
        }
        let r = StructInfer { names: dup_texts(&self.names), children, shown: self.shown };
        proof {
            lemma_struct_infer_view(r);
            lemma_struct_infer_view(*self);
            assert(r@.children =~= self@.children);
        }
        r
    }
}


// ------------------------------------------------------------ runs of rows

/// No name stands twice in an object that is known.
pub open spec fn tidy(a: InferV) -> bool
    decreases a,
{
    &&& a.structs matches Some(s) ==> {
        &&& s.names.len() == s.children.len()
        &&& s.names.no_duplicates()
        &&& forall|i: int| 0 <= i < s.children.len() ==> tidy(#[trigger] s.children[i])
    }
    &&& a.list matches Some(e) ==> tidy(*e)
}

/// The same, of objects.
spec fn tidy_struct(s: StructV) -> bool {
    &&& s.names.len() == s.children.len()
    &&& s.names.no_duplicates()
    &&& forall|i: int| 0 <= i < s.children.len() ==> tidy(#[trigger] s.children[i])
}

/// No name stands twice in an object of a value.
pub open spec fn tidy_value(d: Datum) -> bool
    decreases d,
{
    match d {
        Datum::Struct(m) => {
            &&& keys_of(m).no_duplicates()
            &&& forall|i: int| 0 <= i < m.len() ==> tidy_value((#[trigger] m[i]).1)
        },
        Datum::List(v) => forall|i: int| 0 <= i < v.len() ==> tidy_value(#[trigger] v[i]),
        _ => true,
    }
}

proof fn lemma_seen_tidy(a: InferV, d: Datum)
    requires
        tidy(a),
        tidy_value(d),
    ensures
        tidy(seen(a, d)),
    decreases d, 1nat, 0nat,
{
    match d {
        Datum::Struct(m) => {
            let s = match a.structs {
                Some(s) => s,
                None => opened(m),
            };
            assert(tidy(nothing()));
            assert(tidy_struct(s));
            lemma_seen_members_tidy(s, d, m.len());
        },
        Datum::List(v) => {
            let e = match a.list {
                Some(e) => *e,
                None => nothing(),
            };
            assert(tidy(nothing()));
            lemma_seen_elements_tidy(e, d, v.len());
        },
        _ => {},
    }
}

proof fn lemma_with_child_tidy(s: StructV, k: Seq<char>, a: InferV)
    requires
        tidy_struct(s),
        tidy(a),
    ensures
        tidy_struct(with_child(s, k, a)),
        tidy(child(s, k)),
{
    lemma_name_place(s.names, k);
    assert(tidy(nothing()));
    if name_place(s.names, k) is None {
        let t = s.names.push(k);
        assert forall|i: int, j: int| 0 <= i < t.len() && 0 <= j < t.len() && i != j implies t[i]
            != t[j] by {
            if i == s.names.len() {
                assert(s.names.contains(t[j]));
            } else if j == s.names.len() {
                assert(s.names.contains(t[i]));
            }
        }
    }
}

proof fn lemma_seen_members_tidy(s: StructV, d: Datum, n: nat)
    requires
        tidy_struct(s),
        tidy_value(d),
    ensures
        tidy_struct(seen_members(s, d, n)),
    decreases d, 0nat, n,
{
    if d is Struct && 0 < n <= d->Struct_0.len() {
        let m = d->Struct_0;
        lemma_seen_members_tidy(s, d, (n - 1) as nat);
        let up = seen_members(s, d, (n - 1) as nat);
        let k = m[n - 1].0;
        assert(tidy(nothing()));
        lemma_with_child_tidy(up, k, nothing());
        assert(tidy_value(m[n - 1].1));
        lemma_seen_tidy(child(up, k), m[n - 1].1);
        lemma_with_child_tidy(up, k, seen(child(up, k), m[n - 1].1));
    }
}

proof fn lemma_seen_elements_tidy(a: InferV, d: Datum, n: nat)
    requires
        tidy(a),
        tidy_value(d),
    ensures
        tidy(seen_elements(a, d, n)),
    decreases d, 0nat, n,
{
    if d is List && 0 < n <= d->List_0.len() {
        lemma_seen_elements_tidy(a, d, (n - 1) as nat);
        assert(tidy_value(d->List_0[n - 1]));
        lemma_seen_tidy(seen_elements(a, d, (n - 1) as nat), d->List_0[n - 1]);
    }
}

proof fn lemma_merge_nothing(a: InferV)
    ensures
        merged(a, nothing()) == a,
{
}

/// Only what is known of objects matters for objects, and of them only the first
/// `n` names.
proof fn lemma_same_objects(x: StructV, b: InferV, c: InferV, n: nat)
    requires
        b.structs matches Some(y) && c.structs matches Some(z) && n <= y.names.len() && n
            <= z.names.len() && n <= y.children.len() && n <= z.children.len() && (forall|i: int|
            0 <= i < n ==> (#[trigger] y.names[i]) == z.names[i] && y.children[i] == z.children[i]),
    ensures
        merged_members(x, b, n) == merged_members(x, c, n),
    decreases n,
{
    if n > 0 {
        lemma_same_objects(x, b, c, (n - 1) as nat);
        assert(b.structs->Some_0.names[n - 1] == c.structs->Some_0.names[n - 1]);
    }
}

/// The names of two runs together are those of the first and those of the second,
/// none twice.
proof fn lemma_merged_names(x: StructV, b: InferV, n: nat)
    requires
        x.names.len() == x.children.len(),
        x.names.no_duplicates(),
        b.structs matches Some(y) && y.names.len() == y.children.len() && n <= y.names.len(),
    ensures
        ({
            let r = merged_members(x, b, n);
            &&& r.names.len() == r.children.len()
            &&& r.names.no_duplicates()
            &&& r.shown == x.shown
            &&& forall|k: Seq<char>|
                #[trigger] r.names.contains(k) <==> x.names.contains(k)
                    || b.structs->Some_0.names.take(n as int).contains(k)
        }),
    decreases n,
{
    let y = b.structs->Some_0;
    if n == 0 {
        assert(y.names.take(0) =~= Seq::empty());
    } else {
        lemma_merged_names(x, b, (n - 1) as nat);
        let up = merged_members(x, b, (n - 1) as nat);
        let k = y.names[n - 1];
        let r = merged_members(x, b, n);
        lemma_name_place(up.names, k);
        let less = y.names.take(n - 1);
        let more = y.names.take(n as int);
        assert(more =~= less.push(k));
        assert forall|q: Seq<char>| #[trigger] r.names.contains(q) <==> x.names.contains(q)
            || more.contains(q) by {
            assert(up.names.contains(q) <==> x.names.contains(q) || less.contains(q));
            lemma_push_has(less, k, q);
            if name_place(up.names, k) is None {
                lemma_push_has(up.names, k, q);
            } else {
                assert(up.names.contains(k));
            }
        }
        if name_place(up.names, k) is None {
            let t = up.names.push(k);
            assert forall|i: int, j: int|
                0 <= i < t.len() && 0 <= j < t.len() && i != j implies t[i] != t[j] by {
                if i == up.names.len() {
                    assert(up.names.contains(t[j]));
                } else if j == up.names.len() {
                    assert(up.names.contains(t[i]));
                }
            }
        }
    }
}

proof fn lemma_push_has(s: Seq<Seq<char>>, k: Seq<char>, q: Seq<char>)
    ensures
        s.push(k).contains(q) <==> s.contains(q) || q == k,
{
    if s.push(k).contains(q) {
        let i = choose|i: int| 0 <= i < s.push(k).len() && s.push(k)[i] == q;
        if i < s.len() {
            assert(s[i] == q);
        }
    }
    if s.contains(q) {
        let i = choose|i: int| 0 <= i < s.len() && s[i] == q;
        assert(s.push(k)[i] == q);
    }
    assert(s.push(k)[s.len() as int] == k);
}

/// A name stands at one place only.
proof fn lemma_place_is(names: Seq<Seq<char>>, i: int)
    requires
        names.no_duplicates(),
        0 <= i < names.len(),
    ensures
        name_place(names, names[i]) == Some(i),
{
    lemma_name_place(names, names[i]);
    assert(names.contains(names[i]));
}

/// What is known together of a name that the later run knows at `p`.
proof fn lemma_merged_child(x: StructV, b: InferV, n: nat, p: int)
    requires
        x.names.len() == x.children.len(),
        x.names.no_duplicates(),
        b.structs matches Some(y) && y.names.len() == y.children.len() && y.names.no_duplicates()
            && p < n <= y.names.len(),
        0 <= p,
    ensures
        ({
            let y = b.structs->Some_0;
            let k = y.names[p];
            let r = merged_members(x, b, n);
            &&& name_place(r.names, k) is Some
            &&& child(r, k) == if x.names.contains(k) {
                merged(child(x, k), y.children[p])
            } else {
                y.children[p]
            }
        }),
    decreases n,
{
    let y = b.structs->Some_0;
    let k = y.names[p];
    let up = merged_members(x, b, (n - 1) as nat);
    lemma_merged_names(x, b, (n - 1) as nat);
    lemma_name_place(up.names, k);
    lemma_name_place(x.names, k);
    let r = merged_members(x, b, n);
    lemma_merged_names(x, b, n);
    lemma_name_place(r.names, k);
    if p == n - 1 {
        lemma_unmerged_child(x, b, (n - 1) as nat, k);
        assert(!y.names.take(n - 1).contains(k));
        assert(up.names.contains(k) <==> x.names.contains(k));
        lemma_with_child_at(
            up,
            k,
            if name_place(up.names, k) is Some {
                merged(child(up, k), y.children[p])
            } else {
                y.children[p]
            },
            k,
        );
    } else {
        lemma_merged_child(x, b, (n - 1) as nat, p);
        let q = y.names[n - 1];
        assert(q != k);
        lemma_with_child_at(
            up,
            q,
            if name_place(up.names, q) is Some {
                merged(child(up, q), y.children[n - 1])
            } else {
                y.children[n - 1]
            },
            k,
        );
    }
}

/// What is known together of a name that the later run does not know among its
/// first `n`.
proof fn lemma_unmerged_child(x: StructV, b: InferV, n: nat, k: Seq<char>)
    requires
        x.names.len() == x.children.len(),
        x.names.no_duplicates(),
        b.structs matches Some(y) && y.names.len() == y.children.len() && y.names.no_duplicates()
            && n <= y.names.len() && (forall|i: int|
            0 <= i < n ==> (#[trigger] y.names[i]) != k),
    ensures
        child(merged_members(x, b, n), k) == child(x, k),
        name_place(merged_members(x, b, n).names, k) is Some == name_place(x.names, k) is Some,
    decreases n,
{
    if n > 0 {
        let y = b.structs->Some_0;
        lemma_unmerged_child(x, b, (n - 1) as nat, k);
        lemma_merged_names(x, b, (n - 1) as nat);
        let up = merged_members(x, b, (n - 1) as nat);
        let q = y.names[n - 1];
        assert(q != k);
        lemma_with_child_at(
            up,
            q,
            if name_place(up.names, q) is Some {
                merged(child(up, q), y.children[n - 1])
            } else {
                y.children[n - 1]
            },
            k,
        );
    }
}

/// What is known of a name after something is known of another, or of itself.
proof fn lemma_with_child_at(s: StructV, q: Seq<char>, a: InferV, k: Seq<char>)
    requires
        s.names.len() == s.children.len(),
    ensures
        ({
            let r = with_child(s, q, a);
            &&& child(r, k) == if k == q {
                a
            } else {
                child(s, k)
            }
            &&& name_place(r.names, k) is Some == (k == q || name_place(s.names, k) is Some)
            &&& name_place(s.names, k) is Some ==> name_place(r.names, k) == name_place(s.names, k)
        }),
{
    lemma_name_place(s.names, q);
    lemma_name_place(s.names, k);
    if name_place(s.names, q) is None {
        assert(s.names.push(q).drop_last() =~= s.names);
    }
}

/// Two accounts of objects agree where they have the same names and know the same
/// of each.
proof fn lemma_same_account(s: StructV, t: StructV)
    requires
        s.names == t.names,
        s.names.no_duplicates(),
        s.names.len() == s.children.len(),
        t.names.len() == t.children.len(),
        s.shown == t.shown,
        forall|k: Seq<char>| s.names.contains(k) ==> child(s, k) == #[trigger] child(t, k),
    ensures
        s == t,
{
    assert forall|i: int| 0 <= i < s.children.len() implies s.children[i] == t.children[i] by {
        lemma_place_is(s.names, i);
        assert(s.names.contains(s.names[i]));
        assert(child(s, s.names[i]) == child(t, s.names[i]));
    }
    assert(s.children =~= t.children);
}

/// What is known of objects with the names of other objects put behind its own.
spec fn joined_names(x: Seq<Seq<char>>, y: Seq<Seq<char>>) -> Seq<Seq<char>>
    decreases y.len(),
{
    if y.len() == 0 {
        x
    } else {
        let up = joined_names(x, y.drop_last());
        if up.contains(y.last()) {
            up
        } else {
            up.push(y.last())
        }
    }
}

proof fn lemma_joined_names(x: StructV, b: InferV, n: nat)
    requires
        b.structs matches Some(y) && y.names.len() == y.children.len() && n <= y.names.len(),
    ensures
        merged_members(x, b, n).names == joined_names(
            x.names,
            b.structs->Some_0.names.take(n as int),
        ),
    decreases n,
{
    let y = b.structs->Some_0;
    if n == 0 {
        assert(y.names.take(0) =~= Seq::empty());
    } else {
        lemma_joined_names(x, b, (n - 1) as nat);
        let up = merged_members(x, b, (n - 1) as nat);
        lemma_name_place(up.names, y.names[n - 1]);
        assert(y.names.take(n as int).drop_last() =~= y.names.take(n - 1));
        if name_place(up.names, y.names[n - 1]) is Some {
            assert(up.names.contains(y.names[n - 1]));
        }
    }
}

/// All that is known of the objects of two runs together.
spec fn merged_all(x: StructV, b: InferV) -> StructV {
    merged_members(x, b, b.structs->Some_0.names.len())
}

/// One more member of an object of the later run: it may be looked at before or
/// after the runs are put together.
proof fn lemma_merge_member(x: StructV, b: InferV, b1: InferV, k: Seq<char>, v: Datum)
    requires
        tidy_struct(x),
        b.structs matches Some(y) && tidy_struct(y) && b1.structs == Some(
            with_child(y, k, seen(child(y, k), v)),
        ),
        tidy_value(v),
        ({
            let y = b.structs->Some_0;
            x.names.contains(k) ==> merged(child(x, k), seen(child(y, k), v)) == seen(
                merged(child(x, k), child(y, k)),
                v,
            )
        }),
    ensures
        ({
            let r = merged_all(x, b);
            merged_all(x, b1) == with_child(r, k, seen(child(r, k), v))
        }),
{
    let y = b.structs->Some_0;
    let c = seen(child(y, k), v);
    assert(tidy(nothing()));
    lemma_with_child_tidy(y, k, nothing());
    lemma_seen_tidy(child(y, k), v);
    lemma_with_child_tidy(y, k, c);
    let y1 = with_child(y, k, c);
    let n = y.names.len();
    let r = merged_members(x, b, n);
    let r1 = merged_members(x, b1, y1.names.len());
    let t = with_child(r, k, seen(child(r, k), v));
    lemma_merged_names(x, b, n);
    lemma_merged_names(x, b1, y1.names.len());
    lemma_name_place(y.names, k);
    lemma_name_place(r.names, k);
    lemma_name_place(x.names, k);
    lemma_joined_names(x, b, n);
    lemma_joined_names(x, b1, y1.names.len());
    assert(y.names.take(n as int) =~= y.names);
    assert(y1.names.take(y1.names.len() as int) =~= y1.names);
    lemma_with_child_at(r, k, seen(child(r, k), v), k);
    lemma_merge_nothing(child(x, k));
    // the names
    if name_place(y.names, k) is Some {
        assert(y.names.contains(k));
        assert(r.names.contains(k));
    } else {
        assert(y1.names.drop_last() =~= y.names);
        assert(y1.names.last() == k);
    }
    assert(r1.names == t.names);
    assert(t.names.len() == t.children.len());
    // what is known of each
    assert forall|q: Seq<char>| r1.names.contains(q) implies child(r1, q) == #[trigger] child(t, q) by {
        lemma_with_child_at(r, k, seen(child(r, k), v), q);
        lemma_with_child_at(y, k, c, q);
        lemma_name_place(y1.names, q);
        lemma_name_place(y.names, q);
        lemma_name_place(x.names, q);
        if y1.names.contains(q) {
            let p1 = name_place(y1.names, q)->Some_0;
            lemma_merged_child(x, b1, y1.names.len(), p1);
            assert(y1.children[p1] == child(y1, q));
            if y.names.contains(q) {
                let p = name_place(y.names, q)->Some_0;
                lemma_merged_child(x, b, n, p);
                assert(y.children[p] == child(y, q));
            } else {
                lemma_unmerged_child(x, b, n, q);
                assert(child(y, q) == nothing());
            }
        } else {
            assert forall|i: int| 0 <= i < y1.names.len() implies (#[trigger] y1.names[i]) != q by {}
            assert forall|i: int| 0 <= i < y.names.len() implies (#[trigger] y.names[i]) != q by {
                assert(y.names.contains(y.names[i]));
                assert(y1.names[i] == y.names[i]);
            }
            lemma_unmerged_child(x, b, n, q);
            lemma_unmerged_child(x, b1, y1.names.len(), q);
        }
    }
    lemma_same_account(r1, t);
}

/// An account of objects alone.
spec fn of_objects(s: StructV) -> InferV {
    InferV { structs: Some(s), ..nothing() }
}

proof fn lemma_merge_members(x: StructV, y: StructV, d: Datum, n: nat)
    requires
        tidy_struct(x),
        tidy_struct(y),
        d is Struct,
        tidy_value(d),
        n <= d->Struct_0.len(),
    ensures
        merged_all(x, of_objects(seen_members(y, d, n))) == seen_members(
            merged_all(x, of_objects(y)),
            d,
            n,
        ),
    decreases d, 0nat, n,
{
    if n > 0 {
        let m = d->Struct_0;
        lemma_merge_members(x, y, d, (n - 1) as nat);
        lemma_seen_members_tidy(y, d, (n - 1) as nat);
        let up = seen_members(y, d, (n - 1) as nat);
        let (k, v) = m[n - 1];
        assert(tidy_value(m[n - 1].1));
        if x.names.contains(k) {
            assert(tidy(nothing()));
            lemma_with_child_tidy(x, k, nothing());
            lemma_with_child_tidy(up, k, nothing());
            lemma_merge_step(child(x, k), child(up, k), v);
        }
        lemma_merge_member(
            x,
            of_objects(up),
            of_objects(seen_members(y, d, n)),
            k,
            v,
        );
    }
}

/// The first object of a run: its names may as well come one by one.
proof fn lemma_opened(d: Datum, n: nat)
    requires
        d is Struct,
        tidy_value(d),
        n <= d->Struct_0.len(),
    ensures
        ({
            let m = d->Struct_0;
            let none = StructV { names: Seq::empty(), children: Seq::empty(), shown: m.len() };
            let a = seen_members(opened(m), d, n);
            let b = seen_members(none, d, n);
            &&& a.names == keys_of(m)
            &&& a.shown == m.len() && b.shown == m.len()
            &&& a.children.len() == m.len()
            &&& b.names == keys_of(m).take(n as int)
            &&& b.children == a.children.take(n as int)
            &&& forall|i: int| n <= i < m.len() ==> (#[trigger] a.children[i]) == nothing()
        }),
    decreases n,
{
    let m = d->Struct_0;
    let none = StructV { names: Seq::empty(), children: Seq::empty(), shown: m.len() };
    if n == 0 {
        assert(keys_of(m).take(0) =~= Seq::empty());
        assert(opened(m).children.take(0) =~= Seq::empty());
    } else {
        lemma_opened(d, (n - 1) as nat);
        let a = seen_members(opened(m), d, (n - 1) as nat);
        let b = seen_members(none, d, (n - 1) as nat);
        let k = m[n - 1].0;
        assert(keys_of(m)[n - 1] == k);
        lemma_place_is(keys_of(m), n - 1);
        lemma_name_place(b.names, k);
        if b.names.contains(k) {
            let i = choose|i: int| 0 <= i < b.names.len() && b.names[i] == k;
            assert(keys_of(m)[i] == k);
        }
        let a1 = seen_members(opened(m), d, n);
        let b1 = seen_members(none, d, n);
        assert(a.children[n - 1] == nothing());
        assert(b1.names =~= keys_of(m).take(n as int));
        assert(b1.children =~= a1.children.take(n as int));
    }
}

/// One more value of the later run: it may be looked at before or after the runs
/// are put together.
proof fn lemma_merge_step(a: InferV, b: InferV, d: Datum)
    requires
        tidy(a),
        tidy(b),
        tidy_value(d),
    ensures
        merged(a, seen(b, d)) == seen(merged(a, b), d),
    decreases d, 1nat, 0nat,
{
    if !(d is Struct) && a.structs is Some && b.structs is Some {
        let y = b.structs->Some_0;
        lemma_same_objects(a.structs->Some_0, b, seen(b, d), y.names.len());
    }
    match d {
        Datum::Struct(m) => {
            if a.structs is Some {
                let x = a.structs->Some_0;
                assert(tidy_struct(x));
                let none = StructV { names: Seq::empty(), children: Seq::empty(), shown: m.len() };
                let y = match b.structs {
                    Some(y) => y,
                    None => none,
                };
                assert(tidy_struct(none));
                assert(tidy_struct(y));
                lemma_merge_members(x, y, d, m.len());
                let b1 = seen(b, d);
                let y1 = b1.structs->Some_0;
                if b.structs is None {
                    lemma_opened(d, m.len());
                    let o = seen_members(opened(m), d, m.len());
                    assert(keys_of(m).take(m.len() as int) =~= keys_of(m));
                    assert(o.children.take(m.len() as int) =~= o.children);
                    assert(o == seen_members(none, d, m.len()));
                } else {
                    lemma_same_objects(x, b, of_objects(y), y.names.len());
                }
                assert(y1 == seen_members(y, d, m.len()));
                lemma_seen_members_tidy(y, d, m.len());
                lemma_same_objects(x, b1, of_objects(y1), y1.names.len());
            }
        },
        Datum::List(v) => {
            if a.list is Some {
                let la = *a.list->Some_0;
                let lb = match b.list {
                    Some(l) => *l,
                    None => nothing(),
                };
                assert(tidy(nothing()));
                lemma_merge_elements(la, lb, d, v.len());
                lemma_merge_nothing(la);
            }
        },
        _ => {},
    }
}

proof fn lemma_merge_elements(la: InferV, lb: InferV, d: Datum, n: nat)
    requires
        tidy(la),
        tidy(lb),
        d is List,
        tidy_value(d),
        n <= d->List_0.len(),
    ensures
        merged(la, seen_elements(lb, d, n)) == seen_elements(merged(la, lb), d, n),
    decreases d, 0nat, n,
{
    if n > 0 {
        let v = d->List_0;
        lemma_merge_elements(la, lb, d, (n - 1) as nat);
        let up = seen_elements(lb, d, (n - 1) as nat);
        lemma_seen_elements_tidy(lb, d, (n - 1) as nat);
        assert(tidy_value(v[n - 1]));
        lemma_merge_step(la, up, v[n - 1]);
    }
}

/// What is known after values, one after the other.
pub open spec fn seen_all(a: InferV, s: Seq<Datum>) -> InferV
    decreases s.len(),
{
    if s.len() == 0 {
        a
    } else {
        seen(seen_all(a, s.drop_last()), s.last())
    }
}

proof fn lemma_seen_all_tidy(s: Seq<Datum>)
    requires
        forall|i: int| 0 <= i < s.len() ==> tidy_value(#[trigger] s[i]),
    ensures
        tidy(seen_all(nothing(), s)),
    decreases s.len(),
{
    if s.len() > 0 {
        assert forall|i: int| 0 <= i < s.drop_last().len() implies tidy_value(
            #[trigger] s.drop_last()[i],
        ) by {
            assert(tidy_value(s[i]));
        }
        lemma_seen_all_tidy(s.drop_last());
        assert(tidy_value(s[s.len() - 1]));
        lemma_seen_tidy(seen_all(nothing(), s.drop_last()), s.last());
    }
}

/// Looking at two runs of rows apart and putting together what is known, in
/// order, gives what one pass over all rows gives. No object holds a name twice.
pub proof fn lemma_runs_infer_the_same(x: Seq<Datum>, y: Seq<Datum>)
    requires
        forall|i: int| 0 <= i < x.len() ==> tidy_value(#[trigger] x[i]),
        forall|i: int| 0 <= i < y.len() ==> tidy_value(#[trigger] y[i]),
    ensures
        merged(seen_all(nothing(), x), seen_all(nothing(), y)) == seen_all(nothing(), x + y),
    decreases y.len(),
{
    if y.len() == 0 {
        assert(x + y =~= x);
        lemma_merge_nothing(seen_all(nothing(), x));
    } else {
        let less = y.drop_last();
        assert forall|i: int| 0 <= i < less.len() implies tidy_value(#[trigger] less[i]) by {
            assert(tidy_value(y[i]));
        }
        lemma_runs_infer_the_same(x, less);
        assert((x + y).drop_last() =~= x + less);
        lemma_seen_all_tidy(x);
        lemma_seen_all_tidy(less);
        assert(tidy_value(y[y.len() - 1]));
        lemma_merge_step(seen_all(nothing(), x), seen_all(nothing(), less), y.last());
    }
}

} // verus!
