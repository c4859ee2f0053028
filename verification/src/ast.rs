//! The syntax tree the extractor reads: one variant per expression and
//! statement shape, each holding the sub-trees and names of that shape.

use vstd::prelude::*;

verus! {

/// One `for ... in ... if ...` clause of a comprehension.
#[derive(Debug)]
pub struct Comprehension {
    pub target: Expr,
    pub iter: Expr,
    pub ifs: Vec<Expr>,
}

/// An expression.
#[derive(Debug)]
#[allow(inconsistent_fields)]
pub enum Expr {
    BoolOp { values: Vec<Expr> },
    NamedExpr { target: Box<Expr>, value: Box<Expr> },
    BinOp { left: Box<Expr>, right: Box<Expr> },
    UnaryOp { operand: Box<Expr> },
    Lambda { body: Box<Expr> },
    IfExp { test: Box<Expr>, body: Box<Expr>, orelse: Box<Expr> },
    /// A mapping literal; a key is absent for an unpacking entry.
    Dict { keys: Vec<Option<Expr>>, values: Vec<Expr> },
    SetDisplay { elts: Vec<Expr> },
    ListComp { elt: Box<Expr>, generators: Vec<Comprehension> },
    SetComp { elt: Box<Expr>, generators: Vec<Comprehension> },
    DictComp { key: Box<Expr>, value: Box<Expr>, generators: Vec<Comprehension> },
    GeneratorExp { elt: Box<Expr>, generators: Vec<Comprehension> },
    Await { value: Box<Expr> },
    Yield { value: Option<Box<Expr>> },
    YieldFrom { value: Box<Expr> },
    Compare { left: Box<Expr>, comparators: Vec<Expr> },
    /// A call; `keywords` holds the values of the keyword arguments.
    Call { func: Box<Expr>, args: Vec<Expr>, keywords: Vec<Expr> },
    FormattedValue { value: Box<Expr>, format_spec: Option<Box<Expr>> },
    JoinedStr { values: Vec<Expr> },
    Constant,
    Attribute { value: Box<Expr>, attr: String },
    Subscript { value: Box<Expr>, slice: Box<Expr> },
    Starred { value: Box<Expr> },
    Name { id: String },
    List { elts: Vec<Expr> },
    Tuple { elts: Vec<Expr> },
    Slice { lower: Option<Box<Expr>>, upper: Option<Box<Expr>>, step: Option<Box<Expr>> },
}

/// One item of a context-manager block: the managed expression and the
/// target it is bound to, if any.
#[derive(Debug)]
pub struct WithItem {
    pub context_expr: Expr,
    pub optional_vars: Option<Expr>,
}

/// A statement.
#[derive(Debug)]
#[allow(inconsistent_fields)]
pub enum Stmt {
    FunctionDef { name: String, body: Vec<Stmt> },
    AsyncFunctionDef { name: String, body: Vec<Stmt> },
    ClassDef { name: String, body: Vec<Stmt> },
    Return { value: Option<Expr> },
    Delete { targets: Vec<Expr> },
    Assign { targets: Vec<Expr>, value: Expr },
    TypeAlias,
    AugAssign { target: Expr, value: Expr },
    AnnAssign { target: Expr, value: Option<Expr> },
    For { target: Expr, iter: Expr, body: Vec<Stmt> },
    AsyncFor,
    While { test: Expr, body: Vec<Stmt> },
    If { test: Expr, body: Vec<Stmt>, orelse: Vec<Stmt> },
    With { items: Vec<WithItem>, body: Vec<Stmt> },
    AsyncWith,
    Match,
    Raise { exc: Option<Expr> },
    Try { body: Vec<Stmt>, orelse: Vec<Stmt>, finalbody: Vec<Stmt> },
    TryStar,
    Assert { test: Expr, msg: Option<Expr> },
    Import,
    ImportFrom,
    Global,
    Nonlocal,
    Expr { value: Expr },
    Pass,
    Break,
    Continue,
}

/// A module: its top-level statements in source order.
#[derive(Debug)]
pub struct Module {
    pub body: Vec<Stmt>,
}

} // verus!
