//! The terms and sorts of the Alethe proof format, kept in a pool that stores each distinct term
//! once.

pub mod advanced;
pub mod polyeq;
pub mod pool;
pub mod sort;

use vstd::prelude::*;

use crate::automata::Automaton;

verus! {

/// The sort of a term.
#[derive(Debug)]
pub enum Sort {
    /// A function sort: the sorts of the parameters, then the return sort.
    Function(Vec<Sort>),
    /// A user-declared sort, with its name and sort arguments.
    Atom(String, Vec<Sort>),
    /// A sort variable.
    Var(String),
    /// The `Bool` primitive sort.
    Bool,
    /// The `Int` primitive sort.
    Int,
    /// The `Real` primitive sort.
    Real,
    /// The `String` primitive sort.
    String,
    /// The `RegLan` primitive sort.
    RegLan,
    /// An `Array` sort, from its index sort to its element sort.
    Array(Box<Sort>, Box<Sort>),
    /// A `BitVec` sort with a constant width.
    BitVec(usize),
    /// A `BitVec` sort whose width is not statically known.
    ParamBitVec,
    /// A datatype sort, given by its name and sort arguments.
    Datatype { name: String, args: Vec<Sort> },
    /// A parametric sort, with the sort variables that may appear in its body.
    Par(Vec<String>, Box<Sort>),
    /// The sort of sorts.
    Type,
    /// The `Set` sort.
    SetOf(Box<Sort>),
    /// The `Tuple` sort.
    Tuple(Vec<Sort>),
}

/// Whether two lists of names are equal, name by name.
pub open spec fn names_eq(a: Seq<String>, b: Seq<String>) -> bool {
    a.len() == b.len() && forall|i: int| 0 <= i < a.len() ==> #[trigger] a[i]@ == b[i]@
}

/// Whether two sorts are equal: the same constructor, with equal names and equal arguments.
pub open spec fn sort_eq(a: Sort, b: Sort) -> bool
    decreases a,
{
    match (a, b) {
        (Sort::Function(x), Sort::Function(y)) => x.len() == y.len() && forall|i: int|
            0 <= i < x.len() ==> sort_eq(#[trigger] x[i], y[i]),
        (Sort::Atom(n, x), Sort::Atom(m, y)) => n@ == m@ && x.len() == y.len() && forall|i: int|
            0 <= i < x.len() ==> sort_eq(#[trigger] x[i], y[i]),
        (Sort::Var(n), Sort::Var(m)) => n@ == m@,
        (Sort::Bool, Sort::Bool) => true,
        (Sort::Int, Sort::Int) => true,
        (Sort::Real, Sort::Real) => true,
        (Sort::String, Sort::String) => true,
        (Sort::RegLan, Sort::RegLan) => true,
        (Sort::Array(x1, y1), Sort::Array(x2, y2)) => sort_eq(*x1, *x2) && sort_eq(*y1, *y2),
        (Sort::BitVec(n), Sort::BitVec(m)) => n == m,
        (Sort::ParamBitVec, Sort::ParamBitVec) => true,
        (Sort::Datatype { name: n, args: x }, Sort::Datatype { name: m, args: y }) => n@ == m@ && x.len() == y.len()
            && forall|i: int| 0 <= i < x.len() ==> sort_eq(#[trigger] x[i], y[i]),
        (Sort::Par(n, x), Sort::Par(m, y)) => names_eq(n@, m@) && sort_eq(*x, *y),
        (Sort::Type, Sort::Type) => true,
        (Sort::SetOf(x), Sort::SetOf(y)) => sort_eq(*x, *y),
        (Sort::Tuple(x), Sort::Tuple(y)) => x.len() == y.len() && forall|i: int|
            0 <= i < x.len() ==> sort_eq(#[trigger] x[i], y[i]),
        _ => false,
    }
}

/// A constant value.
#[derive(Debug, Clone)]
pub enum Constant {
    /// An integer.
    Integer(i64),
    /// A string.
    String(String),
    /// A regular language, given by an automaton that recognizes it.
    RegLan(Automaton),
}

/// The operators of the theories that the terms use.
#[derive(Debug, Clone, Copy, PartialEq, Eq, Structural, Hash)]
pub enum Operator {
    True,
    False,
    Not,
    Implies,
    And,
    Or,
    Xor,
    Equals,
    Distinct,
    Ite,
    Add,
    Sub,
    Mult,
    IntDiv,
    RealDiv,
    Mod,
    Abs,
    LessThan,
    GreaterThan,
    LessEq,
    GreaterEq,
    ToReal,
    ToInt,
    IsInt,
    Select,
    Store,
    StrConcat,
    StrLen,
    StrLessThan,
    StrLessEq,
    CharAt,
    Substring,
    PrefixOf,
    SuffixOf,
    Contains,
    IndexOf,
    Replace,
    ReplaceAll,
    StrToCode,
    StrFromCode,
    StrToInt,
    StrFromInt,
    StrToRe,
    StrInRe,
    ReNone,
    ReAll,
    ReAllChar,
    ReConcat,
    ReUnion,
    ReIntersection,
    ReKleeneClosure,
    ReComplement,
    ReDiff,
    ReKleeneCross,
    ReOption,
    ReRange,
}

/// The operators that take constant parameters besides their arguments.
#[derive(Debug, Clone, Copy, PartialEq, Eq, Structural, Hash)]
pub enum ParamOperator {
    BvExtract,
    ZeroExtend,
    SignExtend,
    RotateLeft,
    RotateRight,
    Repeat,
    BvConst,
    ReLoop,
    ReExp,
}

/// The binders.
#[derive(Debug, Clone, Copy, PartialEq, Eq, Structural, Hash)]
pub enum Binder {
    Forall,
    Exists,
    Choice,
    Lambda,
}

/// The index of a term in its pool.
pub type TermId = usize;

/// A term, whose subterms are given by their indices in the pool that holds it.
#[derive(Debug)]
pub enum Term {
    /// A constant.
    Const(Constant),
    /// A variable, with its name and sort.
    Var(String, Sort),
    /// The application of a function to arguments.
    App(TermId, Vec<TermId>),
    /// The application of an operator to arguments.
    Op(Operator, Vec<TermId>),
    /// The application of a parameterized operator, with its parameters and arguments.
    ParamOp { op: ParamOperator, op_args: Vec<TermId>, args: Vec<TermId> },
    /// The application of an operator qualified by the sort of its result.
    AsOp(Operator, Sort, Vec<TermId>),
    /// A binder term, with its bound variables and body.
    Binder(Binder, Vec<(String, Sort)>, TermId),
    /// A `let` term, with its bindings and body.
    Let(Vec<(String, TermId)>, TermId),
    /// A `match` term, with the matched term and its cases, each a pattern and a body.
    Match(TermId, Vec<(TermId, TermId)>),
}


/// A step of a proof: its id, depth, conclusion clause, rule, premises (as positions of earlier
/// steps) and arguments.
pub struct StepNode {
    pub id: String,
    pub depth: usize,
    pub clause: Vec<TermId>,
    pub rule: String,
    pub premises: Vec<usize>,
    pub args: Vec<TermId>,
}

} // verus!
