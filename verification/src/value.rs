//! Scalar and nested values, and the types they belong to.
use vstd::prelude::*;
use crate::float::{rank_i128, rank_int, F64, Rank};
use crate::text::same_text;

verus! {

// ---------------------------------------------------------------- temporal and decimal scalars

/// The resolution of a tick count.
#[derive(Clone, Copy, Debug, PartialEq, Eq, Structural)]
pub enum TimeUnit {
    Sec,
    Milli,
    Micro,
    Nano,
}

impl TimeUnit {
    /// Ticks per second.
    pub open spec fn per_sec_spec(self) -> i64 {
        match self {
            TimeUnit::Sec => 1,
            TimeUnit::Milli => 1_000,
            TimeUnit::Micro => 1_000_000,
            TimeUnit::Nano => 1_000_000_000,
        }
    }

    /// Ticks per second.
    #[verifier::when_used_as_spec(per_sec_spec)]
    pub fn per_sec(self) -> (r: i64)
        ensures
            r == self.per_sec_spec(),
            1 <= r <= 1_000_000_000,
    {
        match self {
            TimeUnit::Sec => 1,
            TimeUnit::Milli => 1_000,
            TimeUnit::Micro => 1_000_000,
            TimeUnit::Nano => 1_000_000_000,
        }
    }
}

/// An exact decimal: `unscaled / 10^scale`.
#[derive(Clone, Copy, Debug, PartialEq, Eq, Structural)]
pub struct Decimal {
    pub unscaled: i128,
    pub scale: u8,
}

/// An instant: ticks since the epoch.
#[derive(Clone, Copy, Debug, PartialEq, Eq, Structural)]
pub struct DateTime {
    pub ticks: i64,
    pub unit: TimeUnit,
}

/// A span of time in ticks.
#[derive(Clone, Copy, Debug, PartialEq, Eq, Structural)]
pub struct Duration {
    pub ticks: i64,
    pub unit: TimeUnit,
}

/// A calendar date: days since the epoch.
#[derive(Clone, Copy, Debug, PartialEq, Eq, Structural)]
pub struct Date {
    pub epoch_day: i32,
}

/// A time of day: ticks since midnight.
#[derive(Clone, Copy, Debug, PartialEq, Eq, Structural)]
pub struct TimeOfDay {
    pub ticks: i64,
    pub unit: TimeUnit,
}

impl Decimal {
    /// A decimal from its parts.
    pub fn new(unscaled: i128, scale: u8) -> (r: Decimal)
        ensures
            r == (Decimal { unscaled, scale }),
    {
        Decimal { unscaled, scale }
    }
}

impl DateTime {
    /// An instant from its parts.
    pub fn new(ticks: i64, unit: TimeUnit) -> (r: DateTime)
        ensures
            r == (DateTime { ticks, unit }),
    {
        DateTime { ticks, unit }
    }
}

impl Duration {
    /// A span from its parts.
    pub fn new(ticks: i64, unit: TimeUnit) -> (r: Duration)
        ensures
            r == (Duration { ticks, unit }),
    {
        Duration { ticks, unit }
    }
}

/// The type of a column lane.
#[derive(Clone, Copy, Debug, PartialEq, Eq, Structural)]
pub enum DataType {
    Null,
    Bool,
    I64,
    F64,
    Decimal { scale: u8 },
    DateTime { unit: TimeUnit },
    Duration { unit: TimeUnit },
    Date,
    Time,
    Str,
    Resource,
    Struct,
    List,
}

// ---------------------------------------------------------------- values

/// A value: one cell of a column, or a literal.
#[derive(Debug)]
pub enum Value {
    Null,
    Bool(bool),
    I64(i64),
    F64(F64),
    Dec(Decimal),
    DateTime(DateTime),
    Duration(Duration),
    Date(Date),
    Time(TimeOfDay),
    Str(String),
    Resource(String),
    Struct(Vec<(String, Value)>),
    List(Vec<Value>),
}

/// What a [`Value`] is, with texts and lists as mathematical sequences.
pub enum Datum {
    Null,
    Bool(bool),
    I64(i64),
    F64(F64),
    Dec(Decimal),
    DateTime(DateTime),
    Duration(Duration),
    Date(Date),
    Time(TimeOfDay),
    Str(Seq<char>),
    Resource(Seq<char>),
    Struct(Seq<(Seq<char>, Datum)>),
    List(Seq<Datum>),
}

impl Value {
    /// The mathematical value.
    pub open spec fn view(&self) -> Datum
        decreases *self,
    {
        match *self {
            Value::Null => Datum::Null,
            Value::Bool(b) => Datum::Bool(b),
            Value::I64(n) => Datum::I64(n),
            Value::F64(x) => Datum::F64(x),
            Value::Dec(d) => Datum::Dec(d),
            Value::DateTime(t) => Datum::DateTime(t),
            Value::Duration(d) => Datum::Duration(d),
            Value::Date(d) => Datum::Date(d),
            Value::Time(t) => Datum::Time(t),
            Value::Str(s) => Datum::Str(s@),
            Value::Resource(s) => Datum::Resource(s@),
            Value::Struct(v) => Datum::Struct(
                Seq::new(
                    v@.len(),
                    |i: int|
                        if 0 <= i < v@.len() {
                            (v@[i].0@, v@[i].1.view())
                        } else {
                            arbitrary()
                        },
                ),
            ),
            Value::List(v) => Datum::List(
                Seq::new(
                    v@.len(),
                    |i: int|
                        if 0 <= i < v@.len() {
                            v@[i].view()
                        } else {
                            arbitrary()
                        },
                ),
            ),
        }
    }

    /// A copy of the value.
    pub fn dup(&self) -> (r: Value)
        ensures
            r@ == self@,
        decreases *self,
    {
        match self {
            Value::Null => Value::Null,
            Value::Bool(b) => Value::Bool(*b),
            Value::I64(n) => Value::I64(*n),
            Value::F64(x) => Value::F64(*x),
            Value::Dec(d) => Value::Dec(*d),
            Value::DateTime(t) => Value::DateTime(*t),
            Value::Duration(d) => Value::Duration(*d),
            Value::Date(d) => Value::Date(*d),
            Value::Time(t) => Value::Time(*t),
            Value::Str(s) => Value::Str(s.clone()),
            Value::Resource(s) => Value::Resource(s.clone()),
            Value::Struct(v) => {
                let mut out: Vec<(String, Value)> = Vec::new();
                for i in 0..v.len()
                    invariant
                        *self == Value::Struct(*v),
                        out@.len() == i,
                        forall|k: int|
                            0 <= k < i ==> (#[trigger] out@[k]).0@ == v@[k].0@ && out@[k].1@
                                == v@[k].1@,
                {
                    proof {
                        assert(decreases_to!(*self => self->Struct_0));
                        assert(decreases_to!(self->Struct_0 => self->Struct_0@));
                        assert(decreases_to!(v@ => v@[i as int]));
                        assert(decreases_to!(v@[i as int] => v@[i as int].1));
                    }
                    let item: (String, Value) = (v[i].0.clone(), v[i].1.dup());
                    out.push(item);
                }
                let r = Value::Struct(out);
                assert(r@->Struct_0 =~= self@->Struct_0);
                r
            },
            Value::List(v) => {
                let mut out: Vec<Value> = Vec::new();
                for i in 0..v.len()
                    invariant
                        *self == Value::List(*v),
                        out@.len() == i,
                        forall|k: int| 0 <= k < i ==> (#[trigger] out@[k])@ == v@[k]@,
                {
                    proof {
                        assert(decreases_to!(*self => self->List_0));
                        assert(decreases_to!(self->List_0 => self->List_0@));
                        assert(decreases_to!(v@ => v@[i as int]));
                    }
                    let item: Value = v[i].dup();
                    out.push(item);
                }
                let r = Value::List(out);
                assert(r@->List_0 =~= self@->List_0);
                r
            },
        }
    }

    /// Are the two values identical (doubles by their bits)?
    pub fn same(&self, other: &Value) -> (r: bool)
        ensures
            r == (self@ == other@),
        decreases *self,
    {
        match (self, other) {
            (Value::Null, Value::Null) => true,
            (Value::Bool(a), Value::Bool(b)) => *a == *b,
            (Value::I64(a), Value::I64(b)) => *a == *b,
            (Value::F64(a), Value::F64(b)) => *a == *b,
            (Value::Dec(a), Value::Dec(b)) => *a == *b,
            (Value::DateTime(a), Value::DateTime(b)) => *a == *b,
            (Value::Duration(a), Value::Duration(b)) => *a == *b,
            (Value::Date(a), Value::Date(b)) => *a == *b,
            (Value::Time(a), Value::Time(b)) => *a == *b,
            (Value::Str(a), Value::Str(b)) => same_text(a.as_str(), b.as_str()),
            (Value::Resource(a), Value::Resource(b)) => same_text(a.as_str(), b.as_str()),
            (Value::Struct(a), Value::Struct(b)) => {
                if a.len() != b.len() {
                    assert(self@->Struct_0.len() != other@->Struct_0.len());
                    return false;
                }
                for i in 0..a.len()
                    invariant
                        *self == Value::Struct(*a),
                        *other == Value::Struct(*b),
                        a@.len() == b@.len(),
                        forall|k: int|
                            0 <= k < i ==> (#[trigger] a@[k]).0@ == b@[k].0@ && a@[k].1@
                                == b@[k].1@,
                {
                    proof {
                        assert(decreases_to!(*self => self->Struct_0));
                        assert(decreases_to!(self->Struct_0 => self->Struct_0@));
                        assert(decreases_to!(a@ => a@[i as int]));
                        assert(decreases_to!(a@[i as int] => a@[i as int].1));
                    }
                    if !same_text(a[i].0.as_str(), b[i].0.as_str()) || !a[i].1.same(&b[i].1) {
                        assert(self@->Struct_0[i as int] != other@->Struct_0[i as int]);
                        return false;
                    }
                }
                assert(self@->Struct_0 =~= other@->Struct_0);
                true
            },
            (Value::List(a), Value::List(b)) => {
                if a.len() != b.len() {
                    assert(self@->List_0.len() != other@->List_0.len());
                    return false;
                }
                for i in 0..a.len()
                    invariant
                        *self == Value::List(*a),
                        *other == Value::List(*b),
                        a@.len() == b@.len(),
                        forall|k: int| 0 <= k < i ==> (#[trigger] a@[k])@ == b@[k]@,
                {
                    proof {
                        assert(decreases_to!(*self => self->List_0));
                        assert(decreases_to!(self->List_0 => self->List_0@));
                        assert(decreases_to!(a@ => a@[i as int]));
                    }
                    if !a[i].same(&b[i]) {
                        assert(self@->List_0[i as int] != other@->List_0[i as int]);
                        return false;
                    }
                }
                assert(self@->List_0 =~= other@->List_0);
                true
            },
            _ => false,
        }
    }

    /// Is this the missing value?
    pub fn is_null(&self) -> (r: bool)
        ensures
            r == (self@ is Null),
    {
        match self {
            Value::Null => true,
            _ => false,
        }
    }
}

/// The views of a sequence of values.
pub open spec fn data(s: Seq<Value>) -> Seq<Datum> {
    Seq::new(s.len(), |i: int| s[i]@)
}

/// The views of a sequence of strings.
pub open spec fn texts(s: Seq<String>) -> Seq<Seq<char>> {
    Seq::new(s.len(), |i: int| s[i]@)
}

/// A copy of a list of values.
pub fn dup_values(v: &Vec<Value>) -> (r: Vec<Value>)
    ensures
        data(r@) == data(v@),
{
    let mut r: Vec<Value> = Vec::new();
    for i in 0..v.len()
        invariant
            r@.len() == i,
            forall|k: int| 0 <= k < i ==> (#[trigger] r@[k])@ == v@[k]@,
    {
        r.push(v[i].dup());
    }
    assert(data(r@) =~= data(v@));
    r
}

/// A copy of a list of strings.
pub fn dup_texts(v: &Vec<String>) -> (r: Vec<String>)
    ensures
        texts(r@) == texts(v@),
{
    let mut r: Vec<String> = Vec::new();
    for i in 0..v.len()
        invariant
            r@.len() == i,
            forall|k: int| 0 <= k < i ==> (#[trigger] r@[k])@ == v@[k]@,
    {
        r.push(v[i].clone());
    }
    assert(texts(r@) =~= texts(v@));
    r
}

// ---------------------------------------------------------------- lanes

/// May a column of type `ty` hold `d`? Every column may hold a missing value.
pub open spec fn fits(d: Datum, ty: DataType) -> bool {
    match d {
        Datum::Null => true,
        Datum::Bool(_) => ty is Bool,
        Datum::I64(_) => ty is I64,
        Datum::F64(_) => ty is F64,
        Datum::Dec(x) => ty == DataType::Decimal { scale: x.scale },
        Datum::DateTime(x) => ty == DataType::DateTime { unit: x.unit },
        Datum::Duration(x) => ty == DataType::Duration { unit: x.unit },
        Datum::Date(_) => ty is Date,
        Datum::Time(_) => ty is Time,
        Datum::Str(_) => ty is Str,
        Datum::Resource(_) => ty is Resource,
        Datum::Struct(_) => ty is Struct,
        Datum::List(_) => ty is List,
    }
}

// ---------------------------------------------------------------- decimals

/// `10^n`.
pub open spec fn ten_to(n: nat) -> int
    decreases n,
{
    if n == 0 {
        1
    } else {
        10 * ten_to((n - 1) as nat)
    }
}

pub proof fn lemma_ten_to_pos(n: nat)
    ensures
        ten_to(n) >= 1,
    decreases n,
{
    if n > 0 {
        lemma_ten_to_pos((n - 1) as nat);
    }
}

pub proof fn lemma_ten_to_mono(a: nat, b: nat)
    requires
        a <= b,
    ensures
        ten_to(a) <= ten_to(b),
    decreases b - a,
{
    if a < b {
        lemma_ten_to_mono(a, (b - 1) as nat);
        lemma_ten_to_pos((b - 1) as nat);
    }
}

pub proof fn lemma_ten_to_adds(a: nat, b: nat)
    ensures
        ten_to(a + b) == ten_to(a) * ten_to(b),
    decreases a,
{
    if a == 0 {
    } else {
        lemma_ten_to_adds((a - 1) as nat, b);
        assert(((a - 1) as nat) + b == (a + b - 1) as nat);
        assert(10 * (ten_to((a - 1) as nat) * ten_to(b)) == (10 * ten_to((a - 1) as nat)) * ten_to(
            b,
        )) by (nonlinear_arith);
    }
}

/// `10^n` as `i128`, or `None` where it does not fit (`n > 38`).
pub fn pow10_i128(n: u8) -> (r: Option<i128>)
    ensures
        match r {
            Some(p) => p == ten_to(n as nat),
            None => ten_to(n as nat) > i128::MAX,
        },
        r is Some <==> n <= 38,
{
    let mut p: i128 = 1;
    let mut i: u8 = 0;
    proof {
        reveal_with_fuel(ten_to, 40);
    }
    while i < n
        invariant
            i <= n,
            p == ten_to(i as nat),
            i <= 38,
            ten_to(38) == 100_000_000_000_000_000_000_000_000_000_000_000_000,
        decreases n - i,
    {
        proof {
            lemma_ten_to_pos(i as nat);
            lemma_ten_to_mono((i + 1) as nat, n as nat);
            if i < 38 {
                lemma_ten_to_mono((i + 1) as nat, 38);
            } else {
                assert(ten_to(39) == 10 * ten_to(38));
            }
        }
        match p.checked_mul(10) {
            Some(q) => {
                p = q;
                i += 1;
            },
            None => {
                return None;
            },
        }
    }
    Some(p)
}

/// The unscaled value of `d` at the scale `to >= d.scale`.
pub open spec fn rescaled(d: Decimal, to: nat) -> int {
    d.unscaled * ten_to((to - d.scale) as nat)
}

/// The larger of two scales.
pub open spec fn common_scale(a: Decimal, b: Decimal) -> nat {
    if a.scale >= b.scale {
        a.scale as nat
    } else {
        b.scale as nat
    }
}

/// Does the integer fit in `i128`?
pub open spec fn fits_i128(x: int) -> bool {
    i128::MIN <= x <= i128::MAX
}

/// Can the two decimals be brought to a common scale within `i128`? The power
/// of ten has to fit as well as the product.
pub open spec fn comparable(a: Decimal, b: Decimal) -> bool {
    let s = common_scale(a, b);
    &&& s - a.scale <= 38
    &&& s - b.scale <= 38
    &&& fits_i128(rescaled(a, s))
    &&& fits_i128(rescaled(b, s))
}

/// How two decimals rank, never rounding either: both are brought to the larger
/// scale.
pub open spec fn decimal_order(a: Decimal, b: Decimal) -> Rank {
    let s = common_scale(a, b);
    rank_int(rescaled(a, s), rescaled(b, s))
}

/// A decimal's unscaled value at a larger scale, where that fits.
pub fn rescale_up(d: Decimal, to: u8) -> (r: Option<i128>)
    requires
        to >= d.scale,
    ensures
        match r {
            Some(u) => u == rescaled(d, to as nat) && to - d.scale <= 38,
            None => to - d.scale > 38 || !fits_i128(rescaled(d, to as nat)),
        },
{
    match pow10_i128(to - d.scale) {
        Some(p) => d.unscaled.checked_mul(p),
        None => None,
    }
}

/// How two decimals rank, or `None` where no common scale fits in `i128`.
pub fn rank_decimals(a: Decimal, b: Decimal) -> (r: Option<Rank>)
    ensures
        match r {
            Some(o) => comparable(a, b) && o == decimal_order(a, b),
            None => !comparable(a, b),
        },
{
    let s: u8 = if a.scale >= b.scale {
        a.scale
    } else {
        b.scale
    };
    match (rescale_up(a, s), rescale_up(b, s)) {
        (Some(x), Some(y)) => Some(rank_i128(x, y)),
        _ => None,
    }
}

} // verus!
