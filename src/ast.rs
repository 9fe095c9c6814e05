use vstd::prelude::*;

verus! {

/// `PROGRAM name ; block .`
pub struct Program(pub Var, pub Block);

/// Declarations followed by the statement block.
pub struct Block(pub Vec<Decl>, pub StmtBlock);

/// One declaration section.
pub enum Decl {
    ProcDecl(Vec<ProcDecl>),
    FnDecl(Vec<FnDecl>),
    VarDecl(Vec<VarDecl>),
    Epsilon,
}

/// A procedure: name, parameters and body.
pub struct ProcDecl(pub String, pub ParameterList, pub Block);

/// A function: name, parameters, body and result type.
pub struct FnDecl(pub String, pub ParameterList, pub Block, pub Type);

/// The parameters of a procedure or function.
pub struct ParameterList(pub Vec<Parameter>);

/// Names that share one parameter type.
pub struct Parameter(pub Vec<String>, pub Type);

/// Names that share one variable type.
pub struct VarDecl(pub Vec<String>, pub Type);

/// The two value types of the language.
#[derive(Debug, Clone, Copy, PartialEq, Eq, Structural)]
pub enum Type {
    Integer,
    Boolean,
}

/// A sequence of statements.
pub struct StmtBlock(pub Vec<Stmt>);

/// A statement.
pub enum Stmt {
    Nested(StmtBlock),
    Assignment(Assignment),
    IfStatement(IfStmt),
    FunctionCall(FnCall),
}

/// A conditional, with or without an else branch.
pub enum IfStmt {
    If(Expr, StmtBlock),
    IfElse(Expr, StmtBlock, StmtBlock),
}

/// A variable name.
pub struct Var(pub String);

/// A call of a function by name.
pub struct FnCall(pub Var, pub FnParameters);

/// The arguments of a call.
pub struct FnParameters(pub Vec<Expr>);

/// An expression.
pub enum Expr {
    Group(Group),
    BinOp(BinOpExpr),
    FnCall(FnCall),
    Literal(Literal),
    Var(Var),
}

/// The binary operators.
#[derive(Debug, Clone, Copy, PartialEq, Eq, Structural)]
pub enum BinOpExpr {
    Div,
    Mult,
    Minus,
    Plus,
    And,
    Or,
    Lt,
    LtEq,
    Gt,
    GtEq,
    Eq,
    NotEq,
}

/// A parenthesised expression.
pub struct Group(pub Box<Expr>);

/// `name := expression`.
pub struct Assignment(pub Var, pub Expr);

/// A literal value.
#[derive(Debug, Clone, Copy, PartialEq, Eq, Structural)]
pub enum Literal {
    Int(i32),
    Boolean(bool),
}

} // verus!
