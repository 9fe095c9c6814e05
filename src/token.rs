use vstd::prelude::*;

verus! {

/// A token of the language: keywords, operators and punctuation carry no value;
/// identifiers, string literals, integers and booleans carry one.
#[derive(Debug)]
pub enum Token {
    Program,
    Begin,
    Function,
    End,
    EOF,
    Var,
    Procedure,
    If,
    Then,
    Else,
    And,
    Or,
    For,
    To,
    Do,
    While,
    Div,
    Mult,
    Plus,
    Minus,
    Assign,
    Not,
    Lt,
    LtEq,
    Gt,
    GtEq,
    Eq,
    LParen,
    RParen,
    Comma,
    SemiColon,
    Colon,
    Dot,
    BoolT,
    IntT,
    ID(String),
    String(String),
    Int(i32),
    Bool(bool),
}

/// A token as a mathematical value: text payloads are character sequences.
pub enum TokenView {
    Program,
    Begin,
    Function,
    End,
    EOF,
    Var,
    Procedure,
    If,
    Then,
    Else,
    And,
    Or,
    For,
    To,
    Do,
    While,
    Div,
    Mult,
    Plus,
    Minus,
    Assign,
    Not,
    Lt,
    LtEq,
    Gt,
    GtEq,
    Eq,
    LParen,
    RParen,
    Comma,
    SemiColon,
    Colon,
    Dot,
    BoolT,
    IntT,
    ID(Seq<char>),
    String(Seq<char>),
    Int(i32),
    Bool(bool),
}

impl View for Token {
    type V = TokenView;

    open spec fn view(&self) -> TokenView {
        match self {
            Token::Program => TokenView::Program,
            Token::Begin => TokenView::Begin,
            Token::Function => TokenView::Function,
            Token::End => TokenView::End,
            Token::EOF => TokenView::EOF,
            Token::Var => TokenView::Var,
            Token::Procedure => TokenView::Procedure,
            Token::If => TokenView::If,
            Token::Then => TokenView::Then,
            Token::Else => TokenView::Else,
            Token::And => TokenView::And,
            Token::Or => TokenView::Or,
            Token::For => TokenView::For,
            Token::To => TokenView::To,
            Token::Do => TokenView::Do,
            Token::While => TokenView::While,
            Token::Div => TokenView::Div,
            Token::Mult => TokenView::Mult,
            Token::Plus => TokenView::Plus,
            Token::Minus => TokenView::Minus,
            Token::Assign => TokenView::Assign,
            Token::Not => TokenView::Not,
            Token::Lt => TokenView::Lt,
            Token::LtEq => TokenView::LtEq,
            Token::Gt => TokenView::Gt,
            Token::GtEq => TokenView::GtEq,
            Token::Eq => TokenView::Eq,
            Token::LParen => TokenView::LParen,
            Token::RParen => TokenView::RParen,
            Token::Comma => TokenView::Comma,
            Token::SemiColon => TokenView::SemiColon,
            Token::Colon => TokenView::Colon,
            Token::Dot => TokenView::Dot,
            Token::BoolT => TokenView::BoolT,
            Token::IntT => TokenView::IntT,
            Token::ID(s) => TokenView::ID(s@),
            Token::String(s) => TokenView::String(s@),
            Token::Int(i) => TokenView::Int(*i),
            Token::Bool(b) => TokenView::Bool(*b),
        }
    }
}

impl PartialEq for Token {
    fn eq(&self, other: &Token) -> (r: bool) {
        match (self, other) {
            (Token::Program, Token::Program) => true,
            (Token::Begin, Token::Begin) => true,
            (Token::Function, Token::Function) => true,
            (Token::End, Token::End) => true,
            (Token::EOF, Token::EOF) => true,
            (Token::Var, Token::Var) => true,
            (Token::Procedure, Token::Procedure) => true,
            (Token::If, Token::If) => true,
            (Token::Then, Token::Then) => true,
            (Token::Else, Token::Else) => true,
            (Token::And, Token::And) => true,
            (Token::Or, Token::Or) => true,
            (Token::For, Token::For) => true,
            (Token::To, Token::To) => true,
            (Token::Do, Token::Do) => true,
            (Token::While, Token::While) => true,
            (Token::Div, Token::Div) => true,
            (Token::Mult, Token::Mult) => true,
            (Token::Plus, Token::Plus) => true,
            (Token::Minus, Token::Minus) => true,
            (Token::Assign, Token::Assign) => true,
            (Token::Not, Token::Not) => true,
            (Token::Lt, Token::Lt) => true,
            (Token::LtEq, Token::LtEq) => true,
            (Token::Gt, Token::Gt) => true,
            (Token::GtEq, Token::GtEq) => true,
            (Token::Eq, Token::Eq) => true,
            (Token::LParen, Token::LParen) => true,
            (Token::RParen, Token::RParen) => true,
            (Token::Comma, Token::Comma) => true,
            (Token::SemiColon, Token::SemiColon) => true,
            (Token::Colon, Token::Colon) => true,
            (Token::Dot, Token::Dot) => true,
            (Token::BoolT, Token::BoolT) => true,
            (Token::IntT, Token::IntT) => true,
            (Token::ID(a), Token::ID(b)) => a.eq(b),
            (Token::String(a), Token::String(b)) => a.eq(b),
            (Token::Int(a), Token::Int(b)) => *a == *b,
            (Token::Bool(a), Token::Bool(b)) => *a == *b,
            _ => false,
        }
    }
}

impl vstd::std_specs::cmp::PartialEqSpecImpl for Token {
    open spec fn obeys_eq_spec() -> bool {
        true
    }

    open spec fn eq_spec(&self, other: &Token) -> bool {
        self@ == other@
    }
}

/// An ordered buffer of tokens, read from the front.
pub struct Store {
    tokens: Vec<Token>,
}

impl View for Store {
    type V = Seq<TokenView>;

    closed spec fn view(&self) -> Seq<TokenView> {
        self.tokens@.map_values(|t: Token| t@)
    }
}

impl Store {
    /// An empty store.
    pub fn new() -> (r: Store)
        ensures
            r@ == Seq::<TokenView>::empty(),
    {
        let r = Store { tokens: Vec::new() };
        assert(r@ =~= Seq::<TokenView>::empty());
        r
    }

    /// The next unread token, without consuming it.
    pub fn peek(&self) -> (r: Option<&Token>)
        ensures
            self@.len() > 0 ==> r is Some && r.unwrap()@ == self@[0],
            self@.len() == 0 ==> r is None,
    {
        self.peek_ahead(0)
    }

    /// Appends a token after all the others.
    pub fn push(&mut self, item: Token)
        ensures
            final(self)@ == old(self)@.push(item@),
    {
        self.tokens.push(item);
        assert(final(self)@ =~= old(self)@.push(item@));
    }

    /// The unread token at offset `n` (0 is the next one), without consuming anything.
    pub fn peek_ahead(&self, n: usize) -> (r: Option<&Token>)
        ensures
            n < self@.len() ==> r is Some && r.unwrap()@ == self@[n as int],
            n >= self@.len() ==> r is None,
    {
        if n < self.tokens.len() {
            Some(&self.tokens[n])
        } else {
            None
        }
    }

    /// Removes and returns the next unread token; `None` once all are read.
    pub fn next(&mut self) -> (r: Option<Token>)
        ensures
            old(self)@.len() > 0 ==> {
                &&& r is Some
                &&& r.unwrap()@ == old(self)@[0]
                &&& final(self)@ == old(self)@.drop_first()
            },
            old(self)@.len() == 0 ==> r is None && final(self)@ == old(self)@,
    {
        if self.tokens.len() == 0 {
            None
        } else {
            let t = self.tokens.remove(0);
            assert(final(self)@ =~= old(self)@.drop_first());
            Some(t)
        }
    }

    /// How many tokens are unread.
    pub fn len(&self) -> (r: usize)
        ensures
            r == self@.len(),
    {
        self.tokens.len()
    }
}

} // verus!
