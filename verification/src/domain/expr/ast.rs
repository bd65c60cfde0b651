//! The syntax trees of the expression language.
use vstd::prelude::*;

verus! {

/// One segment of an attribute path. `#name` is resolved through the
/// expression attribute names when evaluated.
#[derive(Debug, PartialEq, Eq)]
pub enum PathSeg {
    /// A plain attribute name (`a`).
    Name(String),
    /// A name placeholder (`#a` keeps "a").
    Placeholder(String),
    /// A list index (`[0]`).
    Index(usize),
}

/// An attribute path (`a.b[0].c`); it starts with a Name or a Placeholder.
#[derive(Debug, PartialEq, Eq)]
pub struct Path(pub Vec<PathSeg>);

/// A term of a comparison.
#[derive(Debug, PartialEq, Eq)]
pub enum Operand {
    Path(Path),
    /// A value placeholder (`:v` keeps "v").
    Value(String),
    /// `size(path)`.
    Size(Path),
}

#[derive(Debug, Clone, Copy, PartialEq, Eq)]
pub enum CmpOp {
    Eq,
    Ne,
    Lt,
    Le,
    Gt,
    Ge,
}

/// A key condition: equality on the partition key, an optional range
/// condition on the sort key.
#[derive(Debug, PartialEq, Eq)]
pub struct KeyCondition {
    pub pk_name: PathSeg,
    pub pk_value: String,
    pub sk: Option<(PathSeg, SkCond)>,
}

/// A sort key condition (no `<>`).
#[derive(Debug, PartialEq, Eq)]
pub enum SkCond {
    Cmp(CmpOp, String),
    Between(String, String),
    BeginsWith(String),
}

/// An update expression: its actions, clause by clause.
#[derive(Debug, PartialEq, Eq)]
pub struct UpdateExpr {
    pub sets: Vec<(Path, SetValue)>,
    pub removes: Vec<Path>,
    pub adds: Vec<(Path, String)>,
    pub deletes: Vec<(Path, String)>,
}

/// A term of the right-hand side of SET.
#[derive(Debug, PartialEq, Eq)]
pub enum SetOperand {
    Path(Path),
    Value(String),
    IfNotExists(Path, Box<SetOperand>),
    ListAppend(Box<SetOperand>, Box<SetOperand>),
}

/// The right-hand side of SET: a term, or a sum or difference of two.
#[derive(Debug, PartialEq, Eq)]
pub enum SetValue {
    Single(SetOperand),
    Plus(SetOperand, SetOperand),
    Minus(SetOperand, SetOperand),
}

/// A condition or filter expression.
#[derive(Debug, PartialEq, Eq)]
pub enum Expr {
    And(Box<Expr>, Box<Expr>),
    Or(Box<Expr>, Box<Expr>),
    Not(Box<Expr>),
    Cmp { op: CmpOp, left: Operand, right: Operand },
    Between { target: Operand, lo: Operand, hi: Operand },
    In { target: Operand, list: Vec<Operand> },
    AttributeExists(Path),
    AttributeNotExists(Path),
    /// `attribute_type(path, :t)`: `:t` holds an S type descriptor.
    AttributeType(Path, String),
    BeginsWith(Path, Operand),
    Contains(Path, Operand),
}

} // verus!
