//! The parts of a Python module's syntax tree that scope collection reads.

use vstd::prelude::*;

verus! {

/// An expression, as far as name binding is concerned.
pub enum Expr {
    /// A bare name, such as `x`.
    Name(String),
    /// A tuple display, such as `(a, b)`.
    Tuple(Vec<Expr>),
    /// A list display, such as `[a, b]`.
    List(Vec<Expr>),
    /// A starred expression, such as `*rest`.
    Starred(Box<Expr>),
    /// A string literal.
    StringLiteral(String),
    /// Any other expression.
    Other,
}

/// One name of an `import` statement, with its optional `as` name.
pub struct Alias {
    pub name: String,
    pub asname: Option<String>,
}

/// The parameter names of a function definition.
pub struct Parameters {
    pub posonlyargs: Vec<String>,
    pub args: Vec<String>,
    pub kwonlyargs: Vec<String>,
    pub vararg: Option<String>,
    pub kwarg: Option<String>,
}

/// One `except` clause of a `try` statement.
pub struct ExceptHandler {
    pub name: Option<String>,
    pub body: Vec<Stmt>,
}

/// One item of a `with` statement: the target after `as`, if any.
pub struct WithItem {
    pub optional_vars: Option<Expr>,
}

/// An `elif` or `else` clause of an `if` statement.
pub struct ElifElseClause {
    pub body: Vec<Stmt>,
}

/// A statement.
pub enum Stmt {
    FunctionDef { name: String, parameters: Parameters, body: Vec<Stmt> },
    ClassDef { name: String, body: Vec<Stmt> },
    Import { names: Vec<Alias> },
    ImportFrom { names: Vec<Alias> },
    Assign { targets: Vec<Expr>, value: Expr },
    AugAssign { target: Expr },
    AnnAssign { target: Expr },
    For { target: Expr, body: Vec<Stmt>, orelse: Vec<Stmt> },
    With { items: Vec<WithItem>, body: Vec<Stmt> },
    Try {
        body: Vec<Stmt>,
        handlers: Vec<ExceptHandler>,
        orelse: Vec<Stmt>,
        finalbody: Vec<Stmt>,
    },
    If { body: Vec<Stmt>, elif_else_clauses: Vec<ElifElseClause> },
    While { body: Vec<Stmt>, orelse: Vec<Stmt> },
    /// Any other statement.
    Other,
}

/// A parsed module.
pub struct ModModule {
    pub body: Vec<Stmt>,
}

} // verus!
