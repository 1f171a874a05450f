//! Expressions over the columns of a chunk.
use vstd::prelude::*;
use crate::value::{DataType, Value};

verus! {

/// An arithmetic operator.
#[derive(Clone, Copy, Debug, PartialEq, Eq, Structural)]
pub enum ArithOp {
    Add,
    Sub,
    Mul,
    Div,
    Mod,
}

/// A comparison operator.
#[derive(Clone, Copy, Debug, PartialEq, Eq, Structural)]
pub enum CmpOp {
    Eq,
    Ne,
    Lt,
    Le,
    Gt,
    Ge,
}

/// How a field reference finds its value.
#[derive(Clone, Copy, Debug, PartialEq, Eq, Structural)]
pub enum Access {
    /// A column of the flat schema.
    Fast,
    /// A nested field, found by descending into the structs.
    Deep,
    /// A column named at run time.
    Dynamic,
    /// A property of the chunk's origin, not a column.
    Source,
}

impl Access {
    /// Does the reference name a column?
    pub open spec fn column(self) -> bool {
        !(self is Source)
    }

    /// Does the reference name a column?
    pub fn is_column(self) -> (r: bool)
        ensures
            r == self.column(),
    {
        match self {
            Access::Source => false,
            _ => true,
        }
    }

    /// Does the reference name a column of the flat schema, by its own name?
    pub open spec fn flat(self) -> bool {
        self is Fast || self is Dynamic
    }

    /// Does the reference name a column of the flat schema, by its own name?
    pub fn is_flat(self) -> (r: bool)
        ensures
            r == self.flat(),
    {
        match self {
            Access::Fast | Access::Dynamic => true,
            _ => false,
        }
    }
}

/// A scalar function.
#[derive(Clone, Copy, Debug, PartialEq, Eq, Structural)]
pub enum Func {
    Upper,
    Lower,
    Trim,
    Len,
    Contains,
    StartsWith,
    EndsWith,
    Substr,
    Like,
    Glob,
    Regexp,
    Replace,
    SplitPart,
    Basename,
    Stem,
    Dirname,
    Concat,
    Abs,
    Round,
    Floor,
    Ceil,
    Coalesce,
    Year,
    Month,
    Day,
    Hour,
    Minute,
    Second,
    Trunc,
    Bucket,
    Hops,
    Format,
    Weekday,
    IsWeekend,
    Date,
    Time,
}

/// One step of a nested path.
#[derive(Debug)]
pub enum PathSeg {
    Field(String),
    Index(u32),
}

/// A path into nested columns: a root column and the steps below it.
#[derive(Debug)]
pub struct PathExpr {
    pub root: String,
    pub segs: Vec<PathSeg>,
}

impl PathExpr {
    /// Does the path name a plain column?
    pub open spec fn bare(&self) -> bool {
        self.segs@.len() == 0
    }

    /// Does the path name a plain column?
    pub fn is_bare(&self) -> (r: bool)
        ensures
            r == self.bare(),
    {
        self.segs.len() == 0
    }
}

/// An expression.
#[allow(inconsistent_fields)]
#[derive(Debug)]
pub enum Expr {
    Field { name: String, access: Access },
    FieldAt(u32),
    SubView { base: String, name: String, start: u32, end: u32 },
    Path(PathExpr),
    Literal(Value),
    Hole(String),
    Compare { left: Box<Expr>, op: CmpOp, right: Box<Expr> },
    Arith { left: Box<Expr>, op: ArithOp, right: Box<Expr> },
    And(Box<Expr>, Box<Expr>),
    Or(Box<Expr>, Box<Expr>),
    Cast { expr: Box<Expr>, ty: DataType },
    Func { func: Func, args: Vec<Expr> },
    Case { branches: Vec<(Expr, Expr)>, default: Option<Box<Expr>> },
}

} // verus!
