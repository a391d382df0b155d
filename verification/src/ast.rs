//! The syntax tree that statements are parsed into.

use vstd::prelude::*;

use crate::diag::Span;
use crate::sig::Marker;

verus! {

/// A literal value. A real literal keeps its decimal text, as its token
/// does.
pub enum Literal {
    Nothing,
    Int(i64),
    Float(String),
    Str(String),
    Bool(bool),
}

/// A piece of a string template.
pub enum TemplatePart {
    Text(String),
    Expr(Expr),
}

/// An argument with the marker it is given with.
pub struct Slot {
    pub marker: Marker,
    pub expr: Expr,
}

/// A call of a verb: its slots, whether it is negated or asks a question,
/// and the name its result is taken by (값, 나머지, 몫).
pub struct CallExpr {
    pub verb: String,
    pub slots: Vec<Slot>,
    pub negated: bool,
    pub asks: bool,
    pub tail: Option<String>,
    pub span: Span,
}

/// A passive verb applied to a head.
pub struct PassiveExpr {
    pub verb: String,
    pub head: Expr,
    pub slots: Vec<Slot>,
    pub span: Span,
}


pub enum Expr {
    Literal { value: Literal, span: Span },
    Name { name: String, span: Span },
    /// A table: its items in order, then its named entries.
    Table { items: Vec<Expr>, entries: Vec<(String, Expr)>, span: Span },
    Template { parts: Vec<TemplatePart>, span: Span },
    Field { owner: Box<Expr>, name: String, span: Span },
    /// An entry picked by a computed key: `묶음의 (열쇠)`.
    Pick { owner: Box<Expr>, key: Box<Expr>, span: Span },
    /// An item picked by its place: `묶음의 (자리)번째`.
    Spot { owner: Box<Expr>, place: Box<Expr>, span: Span },
    Call(Box<CallExpr>),
    Passive(Box<PassiveExpr>),
    And { left: Box<Expr>, right: Box<Expr>, span: Span },
    Or { left: Box<Expr>, right: Box<Expr>, span: Span },
}

/// Where an expression stands.
pub open spec fn expr_span(expr: Expr) -> Span {
    match expr {
        Expr::Literal { span, .. } => span,
        Expr::Name { span, .. } => span,
        Expr::Table { span, .. } => span,
        Expr::Template { span, .. } => span,
        Expr::Field { span, .. } => span,
        Expr::Pick { span, .. } => span,
        Expr::Spot { span, .. } => span,
        Expr::And { span, .. } => span,
        Expr::Or { span, .. } => span,
        Expr::Call(call) => call.span,
        Expr::Passive(passive) => passive.span,
    }
}

impl Expr {
    pub fn span(&self) -> (found: Span)
        ensures
            found == expr_span(*self),
    {
        match self {
            Expr::Literal { span, .. } => *span,
            Expr::Name { span, .. } => *span,
            Expr::Table { span, .. } => *span,
            Expr::Template { span, .. } => *span,
            Expr::Field { span, .. } => *span,
            Expr::Pick { span, .. } => *span,
            Expr::Spot { span, .. } => *span,
            Expr::And { span, .. } => *span,
            Expr::Or { span, .. } => *span,
            Expr::Call(call) => call.span,
            Expr::Passive(passive) => passive.span,
        }
    }

    /// The name an expression is, if it is a bare name.
    pub fn as_name(&self) -> (found: Option<&str>)
        ensures
            match found {
                Some(name) => self matches Expr::Name { name: held, .. } && name@ == held@,
                None => !(self is Name),
            },
    {
        match self {
            Expr::Name { name, .. } => Some(name.as_str()),
            _ => None,
        }
    }
}

/// One step from a declared name down to what is assigned: a named
/// field, an entry by a computed key, or an item by its place.
pub enum Selector {
    Name(String),
    Pick(Expr),
    Spot(Expr),
}

/// What a declaration assigns to: a name and the steps under it.
pub struct Target {
    pub root: String,
    pub fields: Vec<Selector>,
    pub span: Span,
}

pub type Block = Vec<Stmt>;

/// A defined verb acts; a predicate answers yes or no.
#[derive(Clone, Copy, Debug, PartialEq, Eq, Structural)]
pub enum DefKind {
    Verb,
    Predicate,
}

pub enum LoopKind {
    Range { variable: String, start: Expr, stop: Expr, step: Option<Expr> },
    Each { variable: String, over: Expr },
    While { test: Expr },
}

pub enum Stmt {
    /// One or more assignments made by one sentence.
    Declare { assigns: Vec<(Target, Expr)>, span: Span },
    Exec { calls: Vec<CallExpr>, span: Span },
    Value { expr: Expr, span: Span },
    If { branches: Vec<(Expr, Block)>, otherwise: Option<Block>, span: Span },
    Loop { kind: LoopKind, body: Block, span: Span },
    Break { span: Span },
    Continue { span: Span },
    Return { value: Expr, span: Span },
    Define { name: String, kind: DefKind, params: Vec<(Marker, String)>, body: Block, span: Span },
    Noun { name: String, owner: String, body: Block, span: Span },
    Import { module: String, names: Option<Vec<String>>, path: String, span: Span },
}

/// Where a statement stands.
pub open spec fn stmt_span(statement: Stmt) -> Span {
    match statement {
        Stmt::Declare { span, .. } => span,
        Stmt::Exec { span, .. } => span,
        Stmt::Value { span, .. } => span,
        Stmt::If { span, .. } => span,
        Stmt::Loop { span, .. } => span,
        Stmt::Break { span } => span,
        Stmt::Continue { span } => span,
        Stmt::Return { span, .. } => span,
        Stmt::Define { span, .. } => span,
        Stmt::Noun { span, .. } => span,
        Stmt::Import { span, .. } => span,
    }
}

impl Stmt {
    pub fn span(&self) -> (found: Span)
        ensures
            found == stmt_span(*self),
    {
        match self {
            Stmt::Declare { span, .. } => *span,
            Stmt::Exec { span, .. } => *span,
            Stmt::Value { span, .. } => *span,
            Stmt::If { span, .. } => *span,
            Stmt::Loop { span, .. } => *span,
            Stmt::Break { span } => *span,
            Stmt::Continue { span } => *span,
            Stmt::Return { span, .. } => *span,
            Stmt::Define { span, .. } => *span,
            Stmt::Noun { span, .. } => *span,
            Stmt::Import { span, .. } => *span,
        }
    }
}

} // verus!
