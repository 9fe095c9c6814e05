use vstd::prelude::*;

verus! {

/// `VAR vars+`
pub enum Varpart {
    Varpart(Vec<Vars>),
}

/// `vardef+`
pub enum Vars {
    Vars(Vec<Vardef>),
}

/// `name {, name} : type`
pub enum Vardef {
    Vardef(Vec<String>, Type),
}

/// `BOOLEAN | INTEGER`
#[derive(Debug, Clone, Copy, PartialEq, Eq, Structural)]
pub enum Type {
    Boolean,
    Integer,
}

/// An atom, a parenthesised expression, or an operation on two expressions.
pub enum Expression {
    Atom(Atomic),
    SubExpr(Box<Expression>),
    Operation(Op, Box<Expression>, Box<Expression>),
}

/// A statement of the language.
pub enum Statement {
    /// `IF expr THEN BEGIN statements END ; [else-clause]`
    If(Expression, Option<Vec<Statement>>, Option<Vec<Statement>>),
    /// `FOR name := integer TO integer DO BEGIN statements END ;`
    For(String, i32, i32, Option<Vec<Statement>>),
    /// `WHILE expr DO BEGIN statements END ;`
    While(Expression, Option<Vec<Statement>>),
    /// `name := expr ;`
    Assign(String, Expression),
    /// `PROCEDURE name [params] ; [varpart] BEGIN statements END ;`
    Procedure(String, Option<Vec<Vardef>>, Option<Vec<Vardef>>, Option<Vec<Statement>>),
    /// `WRITELN ( atom ) ;`
    Writeln(Vec<Atomic>),
}

/// `+ | - | = | <> | < | > | <= | >=`
#[derive(Debug, Clone, Copy, PartialEq, Eq, Structural)]
pub enum Op {
    Plus,
    Sub,
    Eq,
    Fish,
    Lt,
    Gt,
    Lte,
    Gte,
}

/// `name | integer | boolean`
pub enum Atomic {
    Name(String),
    Integer(i32),
    Boolean(bool),
}

/// Reads the whole of `stream` as one name, and hands the text back as what is left.
pub fn chomp(stream: &str) -> (r: Option<(Expression, &str)>)
    ensures
        r matches Some((Expression::Atom(Atomic::Name(n)), rest)) && n@ == stream@ && rest@
            == stream@,
{
    Some((Expression::Atom(Atomic::Name(String::from_str(stream))), stream))
}

} // verus!
