//! The lowered program: functions and modules of statements over slots,
//! with the identifiers and places the analyses refer to.

use vstd::prelude::*;

use crate::builtins::Builtin;
use crate::diag::Span;
use crate::intern::{Interner, Symbol};

verus! {

pub type FuncId = u32;

pub type GlobalId = u32;

pub type LocalId = u32;

pub type ModuleId = u32;

/// What a call calls: a function of the program, or a built-in operation.
#[derive(Clone, Copy, Debug, PartialEq, Eq, Structural)]
pub enum Callee {
    User(FuncId),
    Op(Builtin),
}

/// Where a value is kept: a slot of the running function, or a global.
#[derive(Clone, Copy, Debug, PartialEq, Eq, Structural)]
pub enum Place {
    Local(LocalId),
    Global(GlobalId),
}

/// A function that acts (a verb) or one that names a property (a noun).
#[derive(Clone, Copy, Debug, PartialEq, Eq, Structural)]
pub enum Kind {
    Verb,
    Noun,
}

/// A lowered expression. A real constant keeps its decimal text.
pub enum Expr {
    Int(i64),
    Float(String),
    Str(String),
    Bool(bool),
    Nothing,
    Local(LocalId),
    Global(GlobalId),
    /// A table: its items, then its named entries.
    Table(Vec<Expr>, Vec<(Symbol, Expr)>),
    /// The pieces of a string template, each shown as text and joined.
    Template(Vec<Expr>),
    Field { owner: Box<Expr>, field: Symbol, span: Span },
    /// An item by its place.
    Index { owner: Box<Expr>, place: Box<Expr>, span: Span },
    /// An entry by a computed key.
    Pick { owner: Box<Expr>, key: Box<Expr>, span: Span },
    Call { callee: Callee, args: Vec<Expr>, span: Span },
    Not(Box<Expr>),
    /// Whether a value answers to a predicate verb.
    Ask { value: Box<Expr>, verb: Symbol, span: Span },
    And(Box<Expr>, Box<Expr>),
    Or(Box<Expr>, Box<Expr>),
}

/// A lowered statement.
pub enum Stmt {
    /// Stores a value in a place.
    Assign { place: Place, value: Expr },
    SetField { owner: Expr, field: Symbol, value: Expr, span: Span },
    /// Stores an item at a place.
    SetAt { owner: Expr, place: Expr, value: Expr, span: Span },
    /// Stores an entry under a computed key.
    SetPick { owner: Expr, key: Expr, value: Expr, span: Span },
    Eval(Expr),
    If { branches: Vec<(Expr, Vec<Stmt>)>, otherwise: Option<Vec<Stmt>> },
    Range { place: Place, start: Expr, stop: Expr, step: Option<Expr>, body: Vec<Stmt>, span: Span },
    /// Runs the body once for each item of a table.
    Each { place: Place, over: Expr, body: Vec<Stmt>, span: Span },
    While { test: Expr, body: Vec<Stmt> },
    Break,
    Continue,
    Return { value: Expr, span: Span },
}

/// A lowered function: a verb, or a noun that names a property.
pub struct Function {
    pub name: String,
    pub kind: Kind,
    pub module: ModuleId,
    pub params: Vec<LocalId>,
    pub locals: u32,
    pub body: Vec<Stmt>,
    pub span: Span,
}

/// A lowered module: what it runs when loaded, and the nouns it defines
/// (each field name with the function that computes it).
pub struct Module {
    pub name: String,
    pub path: String,
    pub source: String,
    pub init: Vec<Stmt>,
    pub nouns: Vec<(Symbol, FuncId)>,
}

/// A whole lowered program: its modules in load order, its functions, the
/// names its symbols stand for, and how many globals it keeps.
pub struct Program {
    pub modules: Vec<Module>,
    pub functions: Vec<Function>,
    pub names: Interner,
    pub globals: u32,
    pub order: Vec<ModuleId>,
    pub root: ModuleId,
}

} // verus!
