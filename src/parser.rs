use vstd::prelude::*;

use crate::ast::{Parameter, Type, Var, VarDecl};
use crate::lexer::Lexer;
use crate::token::{Token, TokenView};

verus! {

/// How tightly operators bind, loosest first.
#[derive(Debug, Clone, Copy, PartialEq, Eq, Structural)]
pub enum Precedence {
    Parens,
    Product,
    Sum,
    Comp,
    Terms,
}

impl Precedence {
    /// The binding strength: parentheses 5, products 4, sums 3, comparisons 2, terms 1.
    pub open spec fn strength(self) -> u8 {
        match self {
            Precedence::Parens => 5,
            Precedence::Product => 4,
            Precedence::Sum => 3,
            Precedence::Comp => 2,
            Precedence::Terms => 1,
        }
    }

    /// Returns `strength`.
    pub fn level(&self) -> (r: u8)
        ensures
            r == self.strength(),
    {
        match self {
            Precedence::Parens => 5,
            Precedence::Product => 4,
            Precedence::Sum => 3,
            Precedence::Comp => 2,
            Precedence::Terms => 1,
        }
    }
}

/// The type that a token names, if any.
pub open spec fn type_of(t: TokenView) -> Option<Type> {
    match t {
        TokenView::IntT => Some(Type::Integer),
        TokenView::BoolT => Some(Type::Boolean),
        _ => None,
    }
}

/// The type named by the first token, if any.
pub open spec fn front_type(ts: Seq<TokenView>) -> Option<Type> {
    if ts.len() > 0 {
        type_of(ts[0])
    } else {
        None
    }
}

/// The identifier that is the first token, if any.
pub open spec fn front_name(ts: Seq<TokenView>) -> Option<Seq<char>> {
    if ts.len() > 0 && ts[0] is ID {
        Some(ts[0]->ID_0)
    } else {
        None
    }
}

/// The texts of a sequence of names.
pub open spec fn texts(v: Seq<String>) -> Seq<Seq<char>> {
    v.map_values(|n: String| n@)
}

/// The comma-separated identifiers starting at `i`, and the position after the
/// last of them; `None` when the list is malformed.
pub open spec fn name_list(ts: Seq<TokenView>, i: int) -> Option<(Seq<Seq<char>>, int)>
    decreases ts.len() - i,
{
    if 0 <= i < ts.len() {
        match ts[i] {
            TokenView::ID(n) => if i + 1 < ts.len() && ts[i + 1] is Comma {
                match name_list(ts, i + 2) {
                    Some((ns, k)) => Some((seq![n] + ns, k)),
                    None => None,
                }
            } else {
                Some((seq![n], i + 1))
            },
            _ => None,
        }
    } else {
        None
    }
}

/// `names : type` at the front of `ts`, with the position after it.
pub open spec fn typed_names(ts: Seq<TokenView>) -> Option<(Seq<Seq<char>>, Type, int)> {
    match name_list(ts, 0) {
        Some((ns, k)) => if 0 <= k && k + 1 < ts.len() && ts[k] is Colon && type_of(
            ts[k + 1],
        ) is Some {
            Some((ns, type_of(ts[k + 1])->Some_0, k + 2))
        } else {
            None
        },
        None => None,
    }
}

/// `names : type ;` at the front of `ts`, with the position after it.
pub open spec fn var_decl_at(ts: Seq<TokenView>) -> Option<(Seq<Seq<char>>, Type, int)> {
    match typed_names(ts) {
        Some((ns, ty, k)) => if k < ts.len() && ts[k] is SemiColon {
            Some((ns, ty, k + 1))
        } else {
            None
        },
        None => None,
    }
}

proof fn lemma_name_list_bounds(ts: Seq<TokenView>, i: int)
    ensures
        name_list(ts, i) matches Some((ns, k)) ==> i < k <= ts.len(),
    decreases ts.len() - i,
{
    if 0 <= i < ts.len() && ts[i] is ID && i + 1 < ts.len() && ts[i + 1] is Comma {
        lemma_name_list_bounds(ts, i + 2);
    }
}

/// Reads the syntax of a program from the tokens of a lexer.
pub struct Parser {
    pub lexer: Lexer,
}

impl Parser {
    /// A parser over the tokens of `lexer`.
    pub fn new(lexer: Lexer) -> (r: Parser)
        ensures
            r.lexer == lexer,
    {
        Parser { lexer }
    }

    /// `INTEGER | BOOLEAN`
    pub fn type_type(&mut self) -> (r: Result<Type, String>)
        ensures
            front_type(old(self).lexer.tokens()) matches Some(ty) ==> r == Ok::<Type, String>(ty)
                && final(self).lexer.tokens() == old(self).lexer.tokens().drop_first(),
            front_type(old(self).lexer.tokens()) is None ==> r is Err,
    {
        match self.lexer.next() {
            Some(Token::IntT) => Ok(Type::Integer),
            Some(Token::BoolT) => Ok(Type::Boolean),
            _ => Err(String::from_str("expected a type")),
        }
    }

    /// A variable name.
    pub fn var(&mut self) -> (r: Result<Var, String>)
        ensures
            front_name(old(self).lexer.tokens()) matches Some(n) ==> r matches Ok(v) && v.0@ == n
                && final(self).lexer.tokens() == old(self).lexer.tokens().drop_first(),
            front_name(old(self).lexer.tokens()) is None ==> r is Err,
    {
        match self.lexer.next() {
            Some(Token::ID(n)) => Ok(Var(n)),
            _ => Err(String::from_str("expected a name")),
        }
    }

    /// `name {, name}`
    fn names(&mut self) -> (r: Result<Vec<String>, String>)
        ensures
            name_list(old(self).lexer.tokens(), 0) matches Some((ns, k)) ==> r matches Ok(v)
                && texts(v@) == ns && final(self).lexer.tokens() == old(
                self,
            ).lexer.tokens().skip(k),
            name_list(old(self).lexer.tokens(), 0) is None ==> r is Err,
    {
        let ghost ts = self.lexer.tokens();
        let mut names: Vec<String> = Vec::new();
        let ghost mut c: int = 0;
        assert(ts.skip(0) =~= ts);
        loop
            invariant
                ts == old(self).lexer.tokens(),
                0 <= c <= ts.len(),
                self.lexer.tokens() == ts.skip(c),
                name_list(ts, 0) == (match name_list(ts, c) {
                    Some((ns, k)) => Some((texts(names@) + ns, k)),
                    None => None,
                }),
            decreases ts.len() - c,
        {
            assert(texts(names@) + Seq::<Seq<char>>::empty() =~= texts(names@));
            let ghost before = names@;
            match self.lexer.next() {
                Some(Token::ID(n)) => {
                    names.push(n);
                    assert(texts(names@) =~= texts(before) + seq![ts[c]->ID_0]);
                },
                _ => {
                    return Err(String::from_str("expected a name"));
                },
            }
            let more = match self.lexer.peek() {
                Some(Token::Comma) => true,
                _ => false,
            };
            if more {
                let _ = self.lexer.next();
                proof {
                    assert(name_list(ts, c) == (match name_list(ts, c + 2) {
                        Some((ns, k)) => Some((seq![ts[c]->ID_0] + ns, k)),
                        None => None,
                    }));
                    if let Some((ns, k)) = name_list(ts, c + 2) {
                        assert(texts(before) + (seq![ts[c]->ID_0] + ns) =~= texts(names@) + ns);
                    }
                    assert(ts.skip(c).drop_first().drop_first() =~= ts.skip(c + 2));
                    c = c + 2;
                }
            } else {
                proof {
                    assert(ts.skip(c).drop_first() =~= ts.skip(c + 1));
                    assert(texts(before) + seq![ts[c]->ID_0] =~= texts(names@));
                }
                return Ok(names);
            }
        }
    }

    /// `name {, name} : type`
    pub fn parameter(&mut self) -> (r: Result<Parameter, String>)
        ensures
            typed_names(old(self).lexer.tokens()) matches Some((ns, ty, k)) ==> r matches Ok(p)
                && texts(p.0@) == ns && p.1 == ty && final(self).lexer.tokens() == old(
                self,
            ).lexer.tokens().skip(k),
            typed_names(old(self).lexer.tokens()) is None ==> r is Err,
    {
        let ghost ts = self.lexer.tokens();
        proof {
            lemma_name_list_bounds(ts, 0);
        }
        let names = self.names()?;
        let ghost k = name_list(ts, 0)->Some_0.1;
        match self.lexer.next() {
            Some(Token::Colon) => {},
            _ => {
                return Err(String::from_str("expected ':'"));
            },
        }
        assert(ts.skip(k).drop_first() =~= ts.skip(k + 1));
        let ty = self.type_type()?;
        assert(ts.skip(k + 1).drop_first() =~= ts.skip(k + 2));
        Ok(Parameter(names, ty))
    }

    /// `name {, name} : type ;`
    pub fn var_decl(&mut self) -> (r: Result<VarDecl, String>)
        ensures
            var_decl_at(old(self).lexer.tokens()) matches Some((ns, ty, k)) ==> r matches Ok(d)
                && texts(d.0@) == ns && d.1 == ty && final(self).lexer.tokens() == old(
                self,
            ).lexer.tokens().skip(k),
            var_decl_at(old(self).lexer.tokens()) is None ==> r is Err,
    {
        let ghost ts = self.lexer.tokens();
        proof {
            lemma_name_list_bounds(ts, 0);
        }
        let p = self.parameter()?;
        let ghost k = typed_names(ts)->Some_0.2;
        match self.lexer.next() {
            Some(Token::SemiColon) => {},
            _ => {
                return Err(String::from_str("expected ';'"));
            },
        }
        assert(ts.skip(k).drop_first() =~= ts.skip(k + 1));
        let Parameter(names, ty) = p;
        Ok(VarDecl(names, ty))
    }
}

} // verus!
