use vstd::prelude::*;

use crate::chars::{
    alphabetic, digit_value, in_run, is_alphabetic, is_digit_char, lemma_scan_end_bounds,
    scan_end, string_of, to_upper, upper_of, whitespace, Run,
};
use crate::source::Source;
use crate::token::{Store, Token, TokenView};

verus! {

/// The three ways in which tokenization fails.
#[derive(Debug, Clone, Copy, PartialEq, Eq, Structural)]
pub enum LexError {
    /// A character that starts no token.
    UnknownCharacter(char),
    /// A run of digits whose value does not fit in an `i32`.
    MalformedInteger,
    /// The text ends before the closing single quote of a string.
    UnterminatedString,
}

/// The value of a sequence of decimal digits.
pub open spec fn digits_value(d: Seq<char>) -> int
    decreases d.len(),
{
    if d.len() == 0 {
        0
    } else {
        digits_value(d.drop_last()) * 10 + digit_value(d.last())
    }
}

/// The reserved word whose upper-case spelling is `u`, if any.
pub open spec fn keyword(u: Seq<char>) -> Option<TokenView> {
    if u == "PROGRAM"@ {
        Some(TokenView::Program)
    } else if u == "BEGIN"@ {
        Some(TokenView::Begin)
    } else if u == "FUNCTION"@ {
        Some(TokenView::Function)
    } else if u == "END"@ {
        Some(TokenView::End)
    } else if u == "VAR"@ {
        Some(TokenView::Var)
    } else if u == "PROCEDURE"@ {
        Some(TokenView::Procedure)
    } else if u == "IF"@ {
        Some(TokenView::If)
    } else if u == "THEN"@ {
        Some(TokenView::Then)
    } else if u == "ELSE"@ {
        Some(TokenView::Else)
    } else if u == "AND"@ {
        Some(TokenView::And)
    } else if u == "OR"@ {
        Some(TokenView::Or)
    } else if u == "FOR"@ {
        Some(TokenView::For)
    } else if u == "TO"@ {
        Some(TokenView::To)
    } else if u == "DO"@ {
        Some(TokenView::Do)
    } else if u == "WHILE"@ {
        Some(TokenView::While)
    } else if u == "INTEGER"@ {
        Some(TokenView::IntT)
    } else if u == "BOOLEAN"@ {
        Some(TokenView::BoolT)
    } else if u == "TRUE"@ {
        Some(TokenView::Bool(true))
    } else if u == "FALSE"@ {
        Some(TokenView::Bool(false))
    } else {
        None
    }
}

/// The token of an identifier-shaped lexeme `w`: the keyword its upper-case form
/// spells, else an identifier with `w` as written.
pub open spec fn word_token(w: Seq<char>) -> TokenView {
    match keyword(upper_of(w)) {
        Some(t) => t,
        None => TokenView::ID(w),
    }
}

/// The token of a one-character operator or punctuation mark.
pub open spec fn punctuation(c: char) -> Option<TokenView> {
    if c == '=' {
        Some(TokenView::Eq)
    } else if c == '+' {
        Some(TokenView::Plus)
    } else if c == '-' {
        Some(TokenView::Minus)
    } else if c == '*' {
        Some(TokenView::Mult)
    } else if c == '/' {
        Some(TokenView::Div)
    } else if c == ',' {
        Some(TokenView::Comma)
    } else if c == '.' {
        Some(TokenView::Dot)
    } else if c == ';' {
        Some(TokenView::SemiColon)
    } else if c == '(' {
        Some(TokenView::LParen)
    } else if c == ')' {
        Some(TokenView::RParen)
    } else {
        None
    }
}

/// Whether the character at `i` exists and is `c`.
pub open spec fn char_at_is(s: Seq<char>, i: int, c: char) -> bool {
    0 <= i < s.len() && s[i] == c
}

/// The token whose lexeme starts at `j` (not whitespace), with the position just
/// after the lexeme; or the error found there.
pub open spec fn scan_token(s: Seq<char>, j: int) -> Result<(TokenView, int), LexError> {
    let c = s[j];
    if is_digit_char(c) {
        let e = scan_end(s, Run::Digits, j + 1);
        let v = digits_value(s.subrange(j, e));
        if v <= i32::MAX {
            Ok((TokenView::Int(v as i32), e))
        } else {
            Err(LexError::MalformedInteger)
        }
    } else if c == '\'' {
        let e = scan_end(s, Run::Quoted, j + 1);
        if e < s.len() {
            Ok((TokenView::String(s.subrange(j + 1, e)), e + 1))
        } else {
            Err(LexError::UnterminatedString)
        }
    } else if c == ':' {
        if char_at_is(s, j + 1, '=') {
            Ok((TokenView::Assign, j + 2))
        } else {
            Ok((TokenView::Colon, j + 1))
        }
    } else if c == '<' {
        if char_at_is(s, j + 1, '=') {
            Ok((TokenView::LtEq, j + 2))
        } else if char_at_is(s, j + 1, '>') {
            Ok((TokenView::Not, j + 2))
        } else {
            Ok((TokenView::Lt, j + 1))
        }
    } else if c == '>' {
        if char_at_is(s, j + 1, '=') {
            Ok((TokenView::GtEq, j + 2))
        } else {
            Ok((TokenView::Gt, j + 1))
        }
    } else if punctuation(c) is Some {
        Ok((punctuation(c)->Some_0, j + 1))
    } else if alphabetic(c) {
        let e = scan_end(s, Run::Word, j + 1);
        Ok((word_token(s.subrange(j, e)), e))
    } else {
        Err(LexError::UnknownCharacter(c))
    }
}

/// The next token at or after position `i`, skipping whitespace: the end-of-input
/// token once only whitespace is left.
pub open spec fn next_lexeme(s: Seq<char>, i: int) -> Result<(TokenView, int), LexError> {
    let j = scan_end(s, Run::Blank, i);
    if j >= s.len() {
        Ok((TokenView::EOF, j))
    } else {
        scan_token(s, j)
    }
}

/// `r` with the tokens `ts` put in front.
pub open spec fn after(ts: Seq<TokenView>, r: Result<Seq<TokenView>, LexError>) -> Result<
    Seq<TokenView>,
    LexError,
> {
    match r {
        Ok(rest) => Ok(ts + rest),
        Err(e) => Err(e),
    }
}

/// All tokens of `s` from position `i` up to and including the end-of-input token,
/// or the first error.
pub open spec fn tokens_from(s: Seq<char>, i: int) -> Result<Seq<TokenView>, LexError>
    decreases s.len() - i via tokens_from_decreases
{
    match next_lexeme(s, i) {
        Err(e) => Err(e),
        Ok((t, k)) => if t is EOF {
            Ok(seq![t])
        } else {
            after(seq![t], tokens_from(s, k))
        },
    }
}

/// The tokens of a whole text, or its first error.
pub open spec fn tokenize(s: Seq<char>) -> Result<Seq<TokenView>, LexError> {
    tokens_from(s, 0)
}

proof fn lemma_scan_end_ge(s: Seq<char>, k: Run, i: int)
    ensures
        scan_end(s, k, i) >= i,
        i <= s.len() ==> scan_end(s, k, i) <= s.len(),
    decreases s.len() - i,
{
    if 0 <= i < s.len() && in_run(k, s[i]) {
        lemma_scan_end_ge(s, k, i + 1);
    }
}

/// A lexeme is never empty and is never read as the end-of-input token.
pub proof fn lemma_scan_token_advances(s: Seq<char>, j: int)
    ensures
        scan_token(s, j) matches Ok((t, k)) ==> k > j && !(t is EOF) && (j < s.len() ==> k
            <= s.len()),
{
    lemma_scan_end_ge(s, Run::Digits, j + 1);
    lemma_scan_end_ge(s, Run::Word, j + 1);
    lemma_scan_end_ge(s, Run::Quoted, j + 1);
}

/// Before the end of input, every token moves past position `i`.
pub proof fn lemma_next_lexeme_advances(s: Seq<char>, i: int)
    ensures
        next_lexeme(s, i) matches Ok((t, k)) ==> (t is EOF || i < k <= s.len()),
{
    let j = scan_end(s, Run::Blank, i);
    lemma_scan_end_ge(s, Run::Blank, i);
    lemma_scan_token_advances(s, j);
}

/// The value of `first` followed by `tail`, if it fits in an `i32`.
fn decimal_value(first: char, tail: &Vec<char>) -> (r: Option<i32>)
    requires
        is_digit_char(first),
        forall|i: int| 0 <= i < tail@.len() ==> is_digit_char(#[trigger] tail@[i]),
    ensures
        digits_value(seq![first] + tail@) <= i32::MAX ==> r == Some(
            digits_value(seq![first] + tail@) as i32,
        ),
        digits_value(seq![first] + tail@) > i32::MAX ==> r is None,
{
    let ghost d = seq![first] + tail@;
    let mut acc: i64 = (first as u32 - '0' as u32) as i64;
    assert(seq![first].drop_last() =~= Seq::<char>::empty());
    assert(d.subrange(0, 1) =~= seq![first]);
    assert(digits_value(Seq::<char>::empty()) == 0);
    assert(seq![first].last() == first);
    assert(digits_value(seq![first]) == digit_value(first));
    assert forall|j: int| 0 <= j < d.len() implies is_digit_char(#[trigger] d[j]) by {
        if j > 0 {
            assert(d[j] == tail@[j - 1]);
        }
    }
    let mut i: usize = 0;
    while i < tail.len()
        invariant
            0 <= i <= tail@.len(),
            d == seq![first] + tail@,
            forall|j: int| 0 <= j < d.len() ==> is_digit_char(#[trigger] d[j]),
            forall|j: int| 0 <= j < tail@.len() ==> is_digit_char(#[trigger] tail@[j]),
            0 <= acc <= i32::MAX,
            acc == digits_value(d.subrange(0, i + 1)),
        decreases tail@.len() - i,
    {
        let c = tail[i];
        let next: i64 = acc * 10 + (c as u32 - '0' as u32) as i64;
        assert(d.subrange(0, i + 2).drop_last() =~= d.subrange(0, i + 1));
        assert(d.subrange(0, i + 2).last() == c);
        if next > i32::MAX as i64 {
            proof {
                lemma_digits_prefix(d, i + 2);
            }
            return None;
        }
        acc = next;
        i = i + 1;
    }
    assert(d.subrange(0, i + 1) =~= d);
    Some(acc as i32)
}

/// A longer run of digits is worth at least as much as any of its prefixes.
proof fn lemma_digits_prefix(d: Seq<char>, n: int)
    requires
        0 <= n <= d.len(),
        forall|j: int| 0 <= j < d.len() ==> is_digit_char(#[trigger] d[j]),
    ensures
        digits_value(d.subrange(0, n)) <= digits_value(d),
    decreases d.len(),
{
    if n < d.len() {
        let e = d.drop_last();
        assert(e.subrange(0, n) =~= d.subrange(0, n));
        assert forall|j: int| 0 <= j < e.len() implies is_digit_char(#[trigger] e[j]) by {
            assert(e[j] == d[j]);
        }
        lemma_digits_prefix(e, n);
        lemma_digits_nonneg(e);
    } else {
        assert(d.subrange(0, n) =~= d);
    }
}

proof fn lemma_digits_nonneg(d: Seq<char>)
    requires
        forall|j: int| 0 <= j < d.len() ==> is_digit_char(#[trigger] d[j]),
    ensures
        digits_value(d) >= 0,
    decreases d.len(),
{
    if d.len() > 0 {
        let e = d.drop_last();
        assert forall|j: int| 0 <= j < e.len() implies is_digit_char(#[trigger] e[j]) by {
            assert(e[j] == d[j]);
        }
        lemma_digits_nonneg(e);
    }
}

/// `first` followed by `tail`.
fn prepend(first: char, tail: &Vec<char>) -> (r: Vec<char>)
    ensures
        r@ == seq![first] + tail@,
{
    let mut r: Vec<char> = Vec::new();
    r.push(first);
    let mut i: usize = 0;
    while i < tail.len()
        invariant
            0 <= i <= tail@.len(),
            r@ == seq![first] + tail@.subrange(0, i as int),
        decreases tail@.len() - i,
    {
        r.push(tail[i]);
        i = i + 1;
        assert(r@ =~= seq![first] + tail@.subrange(0, i as int));
    }
    assert(tail@.subrange(0, i as int) =~= tail@);
    r
}

/// Whether `u` spells `w`.
fn spells(u: &String, w: &str) -> (r: bool)
    ensures
        r == (u@ == w@),
{
    u.eq(&String::from_str(w))
}

/// The reserved word that `u` spells, if any.
fn keyword_token(u: &String) -> (r: Option<Token>)
    ensures
        keyword(u@) matches Some(k) ==> r matches Some(t) && t@ == k,
        keyword(u@) is None ==> r is None,
{
    if spells(u, "PROGRAM") {
        Some(Token::Program)
    } else if spells(u, "BEGIN") {
        Some(Token::Begin)
    } else if spells(u, "FUNCTION") {
        Some(Token::Function)
    } else if spells(u, "END") {
        Some(Token::End)
    } else if spells(u, "VAR") {
        Some(Token::Var)
    } else if spells(u, "PROCEDURE") {
        Some(Token::Procedure)
    } else if spells(u, "IF") {
        Some(Token::If)
    } else if spells(u, "THEN") {
        Some(Token::Then)
    } else if spells(u, "ELSE") {
        Some(Token::Else)
    } else if spells(u, "AND") {
        Some(Token::And)
    } else if spells(u, "OR") {
        Some(Token::Or)
    } else if spells(u, "FOR") {
        Some(Token::For)
    } else if spells(u, "TO") {
        Some(Token::To)
    } else if spells(u, "DO") {
        Some(Token::Do)
    } else if spells(u, "WHILE") {
        Some(Token::While)
    } else if spells(u, "INTEGER") {
        Some(Token::IntT)
    } else if spells(u, "BOOLEAN") {
        Some(Token::BoolT)
    } else if spells(u, "TRUE") {
        Some(Token::Bool(true))
    } else if spells(u, "FALSE") {
        Some(Token::Bool(false))
    } else {
        None
    }
}

/// The token of a one-character operator or punctuation mark.
fn punctuation_token(c: char) -> (r: Option<Token>)
    ensures
        punctuation(c) matches Some(k) ==> r matches Some(t) && t@ == k,
        punctuation(c) is None ==> r is None,
{
    match c {
        '=' => Some(Token::Eq),
        '+' => Some(Token::Plus),
        '-' => Some(Token::Minus),
        '*' => Some(Token::Mult),
        '/' => Some(Token::Div),
        ',' => Some(Token::Comma),
        '.' => Some(Token::Dot),
        ';' => Some(Token::SemiColon),
        '(' => Some(Token::LParen),
        ')' => Some(Token::RParen),
        _ => None,
    }
}

/// What one step of the lexer produced, as a token and the position after it.
pub open spec fn lexed(r: Result<Token, LexError>, p: int) -> Result<(TokenView, int), LexError> {
    match r {
        Ok(t) => Ok((t@, p)),
        Err(e) => Err(e),
    }
}

/// Turns a text into tokens; all of it is read when the lexer is made.
pub struct Lexer {
    source: Source,
    store: Store,
}

impl Lexer {
    /// The text being read.
    pub closed spec fn text(&self) -> Seq<char> {
        self.source.text()
    }

    /// How much of the text has been read.
    pub closed spec fn position(&self) -> int {
        self.source.pos()
    }

    /// The tokens produced and not yet consumed.
    pub closed spec fn tokens(&self) -> Seq<TokenView> {
        self.store@
    }

    pub closed spec fn wf(&self) -> bool {
        self.source.wf()
    }

    /// Tokenizes the rest of `source`; fails with the first lexical error.
    pub fn new(source: Source) -> (r: Result<Lexer, LexError>)
        requires
            source.wf(),
        ensures
            r matches Ok(l) ==> l.wf() && tokens_from(source.text(), source.pos()) == Ok::<
                Seq<TokenView>,
                LexError,
            >(l.tokens()),
            r matches Ok(l) ==> l.text() == source.text() && l.position() == l.text().len(),
            r matches Err(e) ==> tokens_from(source.text(), source.pos()) == Err::<
                Seq<TokenView>,
                LexError,
            >(e),
    {
        let mut lexer = Lexer { source: source, store: Store::new() };
        match lexer.run() {
            Ok(()) => Ok(lexer),
            Err(e) => Err(e),
        }
    }

    fn run(&mut self) -> (r: Result<(), LexError>)
        requires
            old(self).wf(),
            old(self).tokens() == Seq::<TokenView>::empty(),
        ensures
            final(self).wf(),
            final(self).text() == old(self).text(),
            r matches Ok(_) ==> final(self).position() == final(self).text().len(),
            r matches Ok(_) ==> tokens_from(old(self).text(), old(self).position()) == Ok::<
                Seq<TokenView>,
                LexError,
            >(final(self).tokens()),
            r matches Err(e) ==> tokens_from(old(self).text(), old(self).position()) == Err::<
                Seq<TokenView>,
                LexError,
            >(e),
    {
        let ghost s = self.text();
        let ghost p0 = self.position();
        proof {
            lemma_after_empty(tokens_from(s, p0));
        }
        loop
            invariant
                self.wf(),
                self.text() == s,
                s == old(self).text(),
                p0 == old(self).position(),
                tokens_from(s, p0) == after(self.tokens(), tokens_from(s, self.position())),
            decreases s.len() - self.position(),
        {
            let ghost p = self.position();
            let ghost before = self.tokens();
            proof {
                lemma_next_lexeme_advances(s, p);
                lemma_scan_token_advances(s, scan_end(s, Run::Blank, p));
            }
            match self.lex() {
                Ok(Token::EOF) => {
                    self.store.push(Token::EOF);
                    assert(before + seq![TokenView::EOF] =~= before.push(TokenView::EOF));
                    return Ok(());
                },
                Ok(t) => {
                    let ghost tv = t@;
                    self.store.push(t);
                    proof {
                        lemma_after_push(before, tv, tokens_from(s, self.position()));
                    }
                },
                Err(e) => {
                    return Err(e);
                },
            }
        }
    }

    /// Reads the next token from the text, skipping whitespace before it.
    pub fn lex(&mut self) -> (r: Result<Token, LexError>)
        requires
            old(self).wf(),
        ensures
            final(self).wf(),
            final(self).text() == old(self).text(),
            final(self).tokens() == old(self).tokens(),
            lexed(r, final(self).position()) == next_lexeme(old(self).text(), old(self).position()),
    {
        let ghost s = self.text();
        let ghost i = self.position();
        let _ = self.source.take_while(Run::Blank);
        proof {
            lemma_scan_end_bounds(s, Run::Blank, i);
        }
        let c = match self.source.next() {
            None => {
                return Ok(Token::EOF);
            },
            Some(c) => c,
        };
        if '0' <= c && c <= '9' {
            self.integer(c)
        } else if c == '\'' {
            self.string()
        } else if c == ':' {
            if self.peek_is('=') {
                let _ = self.source.next();
                Ok(Token::Assign)
            } else {
                Ok(Token::Colon)
            }
        } else if c == '<' {
            if self.peek_is('=') {
                let _ = self.source.next();
                Ok(Token::LtEq)
            } else if self.peek_is('>') {
                let _ = self.source.next();
                Ok(Token::Not)
            } else {
                Ok(Token::Lt)
            }
        } else if c == '>' {
            if self.peek_is('=') {
                let _ = self.source.next();
                Ok(Token::GtEq)
            } else {
                Ok(Token::Gt)
            }
        } else {
            match punctuation_token(c) {
                Some(t) => Ok(t),
                None => if is_alphabetic(c) {
                    self.id(c)
                } else {
                    Err(LexError::UnknownCharacter(c))
                },
            }
        }
    }

    fn peek_is(&self, d: char) -> (r: bool)
        requires
            self.wf(),
        ensures
            r == char_at_is(self.text(), self.position(), d),
    {
        match self.source.peek() {
            Some(x) => *x == d,
            None => false,
        }
    }

    fn integer(&mut self, c: char) -> (r: Result<Token, LexError>)
        requires
            old(self).wf(),
            1 <= old(self).position() <= old(self).text().len(),
            old(self).text()[old(self).position() - 1] == c,
            is_digit_char(c),
        ensures
            final(self).wf(),
            final(self).text() == old(self).text(),
            final(self).tokens() == old(self).tokens(),
            lexed(r, final(self).position()) == scan_token(
                old(self).text(),
                old(self).position() - 1,
            ),
    {
        let ghost s = self.text();
        let ghost j = self.position() - 1;
        let tail = self.source.take_while(Run::Digits);
        proof {
            lemma_scan_end_bounds(s, Run::Digits, j + 1);
            assert(seq![c] + tail@ =~= s.subrange(j, self.position()));
            assert forall|k: int| 0 <= k < tail@.len() implies is_digit_char(
                #[trigger] tail@[k],
            ) by {
                assert(tail@[k] == s[j + 1 + k]);
            }
        }
        match decimal_value(c, &tail) {
            Some(v) => Ok(Token::Int(v)),
            None => Err(LexError::MalformedInteger),
        }
    }

    fn string(&mut self) -> (r: Result<Token, LexError>)
        requires
            old(self).wf(),
            1 <= old(self).position() <= old(self).text().len(),
            old(self).text()[old(self).position() - 1] == '\'',
        ensures
            final(self).wf(),
            final(self).text() == old(self).text(),
            final(self).tokens() == old(self).tokens(),
            lexed(r, final(self).position()) == scan_token(
                old(self).text(),
                old(self).position() - 1,
            ),
    {
        let ghost s = self.text();
        let ghost j = self.position() - 1;
        let body = self.source.take_while(Run::Quoted);
        proof {
            lemma_scan_end_bounds(s, Run::Quoted, j + 1);
        }
        match self.source.next() {
            Some(_) => Ok(Token::String(string_of(&body))),
            None => Err(LexError::UnterminatedString),
        }
    }

    fn id(&mut self, c: char) -> (r: Result<Token, LexError>)
        requires
            old(self).wf(),
            1 <= old(self).position() <= old(self).text().len(),
            old(self).text()[old(self).position() - 1] == c,
            alphabetic(c),
            !is_digit_char(c),
            c != '\'' && c != ':' && c != '<' && c != '>',
            punctuation(c) is None,
        ensures
            final(self).wf(),
            final(self).text() == old(self).text(),
            final(self).tokens() == old(self).tokens(),
            lexed(r, final(self).position()) == scan_token(
                old(self).text(),
                old(self).position() - 1,
            ),
    {
        let ghost s = self.text();
        let ghost j = self.position() - 1;
        let tail = self.source.take_while(Run::Word);
        let chars = prepend(c, &tail);
        proof {
            lemma_scan_end_bounds(s, Run::Word, j + 1);
            assert(chars@ =~= s.subrange(j, self.position()));
        }
        let word = string_of(&chars);
        let upper = to_upper(word.as_str());
        match keyword_token(&upper) {
            Some(t) => Ok(t),
            None => Ok(Token::ID(word)),
        }
    }

    /// Removes and returns the next token; `None` once all are consumed.
    pub fn next(&mut self) -> (r: Option<Token>)
        ensures
            final(self).wf() == old(self).wf(),
            final(self).text() == old(self).text(),
            final(self).position() == old(self).position(),
            old(self).tokens().len() > 0 ==> {
                &&& r is Some
                &&& r.unwrap()@ == old(self).tokens()[0]
                &&& final(self).tokens() == old(self).tokens().drop_first()
            },
            old(self).tokens().len() == 0 ==> r is None && final(self).tokens() == old(
                self,
            ).tokens(),
    {
        self.store.next()
    }

    /// The next token, without consuming it.
    pub fn peek(&self) -> (r: Option<&Token>)
        ensures
            self.tokens().len() > 0 ==> r is Some && r.unwrap()@ == self.tokens()[0],
            self.tokens().len() == 0 ==> r is None,
    {
        self.store.peek()
    }

    /// The token at offset `n` among those not consumed, without consuming anything.
    pub fn peek_ahead(&self, n: usize) -> (r: Option<&Token>)
        ensures
            n < self.tokens().len() ==> r is Some && r.unwrap()@ == self.tokens()[n as int],
            n >= self.tokens().len() ==> r is None,
    {
        self.store.peek_ahead(n)
    }

    /// The token store, for consumers that read it directly.
    pub fn into_store(self) -> (r: Store)
        ensures
            r@ == self.tokens(),
    {
        self.store
    }
}

proof fn lemma_after_empty(r: Result<Seq<TokenView>, LexError>)
    ensures
        after(Seq::<TokenView>::empty(), r) == r,
{
    if let Ok(ts) = r {
        assert(Seq::<TokenView>::empty() + ts =~= ts);
    }
}

proof fn lemma_after_push(ts: Seq<TokenView>, t: TokenView, r: Result<Seq<TokenView>, LexError>)
    ensures
        after(ts, after(seq![t], r)) == after(ts.push(t), r),
{
    if let Ok(rest) = r {
        assert(ts + (seq![t] + rest) =~= ts.push(t) + rest);
    }
}

/// A successful tokenization ends with the end-of-input token, and has it nowhere else.
pub proof fn lemma_ends_with_eof(s: Seq<char>, i: int)
    ensures
        tokens_from(s, i) matches Ok(ts) ==> {
            &&& ts.len() > 0
            &&& ts.last() is EOF
            &&& forall|k: int| 0 <= k < ts.len() - 1 ==> !(#[trigger] ts[k] is EOF)
        },
    decreases s.len() - i,
{
    lemma_next_lexeme_advances(s, i);
    if let Ok((t, k)) = next_lexeme(s, i) {
        if !(t is EOF) {
            lemma_ends_with_eof(s, k);
            if let Ok(rest) = tokens_from(s, k) {
                let ts = seq![t] + rest;
                assert forall|m: int| 0 <= m < ts.len() - 1 implies !(#[trigger] ts[m] is EOF) by {
                    if m > 0 {
                        assert(ts[m] == rest[m - 1]);
                    }
                }
            }
        }
    }
}

/// Tokenization fails only where a lexeme starts that is itself in error: an
/// unknown character, an integer too large for `i32`, or an unclosed string.
/// So it succeeds on every text whose lexemes are all well formed.
pub proof fn lemma_error_at_lexeme(s: Seq<char>, i: int)
    ensures
        tokens_from(s, i) matches Err(e) ==> exists|j: int|
            i <= j < s.len() && #[trigger] scan_token(s, j) == Err::<(TokenView, int), LexError>(e),
    decreases s.len() - i,
{
    lemma_next_lexeme_advances(s, i);
    lemma_scan_end_ge(s, Run::Blank, i);
    let j = scan_end(s, Run::Blank, i);
    match next_lexeme(s, i) {
        Err(e) => {
            assert(scan_token(s, j) == Err::<(TokenView, int), LexError>(e));
        },
        Ok((t, k)) => {
            if !(t is EOF) {
                lemma_error_at_lexeme(s, k);
            }
        },
    }
}

/// An identifier-shaped lexeme is read by its upper-case form alone: texts with
/// the same upper-case form that spells a keyword give that keyword; one whose
/// upper-case form is no keyword gives an identifier with the text as written.
pub proof fn lemma_word_kind(w1: Seq<char>, w2: Seq<char>)
    ensures
        upper_of(w1) == upper_of(w2) && keyword(upper_of(w1)) is Some ==> word_token(w1)
            == word_token(w2) && word_token(w1) == keyword(upper_of(w1))->Some_0,
        keyword(upper_of(w1)) is None ==> word_token(w1) == TokenView::ID(w1),
{
}

/// No identifier token's upper-case form is a keyword.
pub proof fn lemma_identifiers_are_not_keywords(s: Seq<char>, i: int)
    ensures
        tokens_from(s, i) matches Ok(ts) ==> forall|k: int|
            0 <= k < ts.len() && #[trigger] ts[k] is ID ==> keyword(upper_of(ts[k]->ID_0)) is None,
    decreases s.len() - i,
{
    lemma_next_lexeme_advances(s, i);
    if let Ok((t, k)) = next_lexeme(s, i) {
        if !(t is EOF) {
            lemma_identifiers_are_not_keywords(s, k);
            let j = scan_end(s, Run::Blank, i);
            if t is ID {
                let c = s[j];
                assert(!is_digit_char(c) && alphabetic(c));
                assert(keyword(upper_of(t->ID_0)) is None);
            }
            if let Ok(rest) = tokens_from(s, k) {
                let ts = seq![t] + rest;
                assert forall|m: int| 0 <= m < ts.len() && #[trigger] ts[m] is ID implies keyword(
                    upper_of(ts[m]->ID_0),
                ) is None by {
                    if m > 0 {
                        assert(ts[m] == rest[m - 1]);
                    }
                }
            }
        }
    }
}

/// The two-character operators `:=`, `<=`, `<>` and `>=` are read whole, never as
/// their first character followed by the second.
pub proof fn lemma_maximal_munch(s: Seq<char>, j: int)
    requires
        0 <= j,
        j + 1 < s.len(),
    ensures
        s[j] == ':' && s[j + 1] == '=' ==> scan_token(s, j) == Ok::<(TokenView, int), LexError>(
            (TokenView::Assign, j + 2),
        ),
        s[j] == '<' && s[j + 1] == '=' ==> scan_token(s, j) == Ok::<(TokenView, int), LexError>(
            (TokenView::LtEq, j + 2),
        ),
        s[j] == '<' && s[j + 1] == '>' ==> scan_token(s, j) == Ok::<(TokenView, int), LexError>(
            (TokenView::Not, j + 2),
        ),
        s[j] == '>' && s[j + 1] == '=' ==> scan_token(s, j) == Ok::<(TokenView, int), LexError>(
            (TokenView::GtEq, j + 2),
        ),
{
}

/// The position just after the lexeme that starts at `j`, by its shape alone.
pub open spec fn lexeme_end(s: Seq<char>, j: int) -> int {
    let c = s[j];
    if is_digit_char(c) {
        scan_end(s, Run::Digits, j + 1)
    } else if c == '\'' {
        scan_end(s, Run::Quoted, j + 1) + 1
    } else if (c == ':' || c == '>') && char_at_is(s, j + 1, '=') {
        j + 2
    } else if c == '<' && (char_at_is(s, j + 1, '=') || char_at_is(s, j + 1, '>')) {
        j + 2
    } else if c != ':' && c != '<' && c != '>' && punctuation(c) is None && alphabetic(c) {
        scan_end(s, Run::Word, j + 1)
    } else {
        j + 1
    }
}

/// How many lexemes the text holds from position `i` on.
pub open spec fn lexeme_count(s: Seq<char>, i: int) -> nat
    decreases s.len() - i via lexeme_count_decreases
{
    let j = scan_end(s, Run::Blank, i);
    if j >= s.len() {
        0
    } else if lexeme_end(s, j) <= s.len() {
        1 + lexeme_count(s, lexeme_end(s, j))
    } else {
        1
    }
}

#[via_fn]
proof fn lexeme_count_decreases(s: Seq<char>, i: int) {
    let j = scan_end(s, Run::Blank, i);
    lemma_scan_end_ge(s, Run::Blank, i);
    lemma_scan_end_ge(s, Run::Digits, j + 1);
    lemma_scan_end_ge(s, Run::Word, j + 1);
    lemma_scan_end_ge(s, Run::Quoted, j + 1);
}

/// A successful tokenization yields one token per lexeme, and the end-of-input token.
pub proof fn lemma_one_token_per_lexeme(s: Seq<char>, i: int)
    ensures
        tokens_from(s, i) matches Ok(ts) ==> ts.len() == lexeme_count(s, i) + 1,
    decreases s.len() - i,
{
    lemma_next_lexeme_advances(s, i);
    let j = scan_end(s, Run::Blank, i);
    lemma_scan_end_ge(s, Run::Blank, i);
    if j < s.len() {
        lemma_scan_end_ge(s, Run::Digits, j + 1);
        lemma_scan_end_ge(s, Run::Word, j + 1);
        lemma_scan_end_ge(s, Run::Quoted, j + 1);
        if let Ok((t, k)) = scan_token(s, j) {
            assert(k == lexeme_end(s, j));
            lemma_one_token_per_lexeme(s, k);
        }
    }
}

/// `s` with `w` put in at position `k`.
pub open spec fn insert_at(s: Seq<char>, k: int, w: Seq<char>) -> Seq<char> {
    s.subrange(0, k) + w + s.subrange(k, s.len() as int)
}

/// A character that the lexer skips as whitespace and that no lexeme can take in.
pub open spec fn separator(c: char) -> bool {
    whitespace(c) && !in_run(Run::Word, c) && c != '=' && c != '>'
}

/// Whether, reading `s` from `i`, some lexeme ends exactly at `k`.
pub open spec fn token_boundary(s: Seq<char>, i: int, k: int) -> bool
    decreases s.len() - i,
{
    match next_lexeme(s, i) {
        Ok((t, e)) => !(t is EOF) && i < e <= s.len() && (e == k || (e < k && token_boundary(
            s,
            e,
            k,
        ))),
        Err(_) => false,
    }
}

proof fn lemma_scan_end_shift(x: Seq<char>, y: Seq<char>, d: int, k: Run, p: int)
    requires
        0 <= p <= x.len(),
        0 <= d,
        y.len() == x.len() + d,
        forall|q: int| p <= q < x.len() ==> y[q + d] == #[trigger] x[q],
    ensures
        scan_end(y, k, p + d) == scan_end(x, k, p) + d,
    decreases x.len() - p,
{
    if p < x.len() {
        assert(y[p + d] == x[p]);
        lemma_scan_end_shift(x, y, d, k, p + 1);
    }
}

proof fn lemma_scan_token_shift(x: Seq<char>, y: Seq<char>, d: int, j: int)
    requires
        0 <= j < x.len(),
        0 <= d,
        y.len() == x.len() + d,
        forall|q: int| j <= q < x.len() ==> y[q + d] == #[trigger] x[q],
    ensures
        scan_token(y, j + d) == (match scan_token(x, j) {
            Ok((t, e)) => Ok((t, e + d)),
            Err(err) => Err(err),
        }),
{
    assert(y[j + d] == x[j]);
    if j + 1 < x.len() {
        assert(y[j + 1 + d] == x[j + 1]);
    }
    lemma_scan_end_shift(x, y, d, Run::Digits, j + 1);
    lemma_scan_end_shift(x, y, d, Run::Word, j + 1);
    lemma_scan_end_shift(x, y, d, Run::Quoted, j + 1);
    lemma_scan_end_bounds(x, Run::Digits, j + 1);
    lemma_scan_end_bounds(x, Run::Word, j + 1);
    lemma_scan_end_bounds(x, Run::Quoted, j + 1);
    let ed = scan_end(x, Run::Digits, j + 1);
    let ew = scan_end(x, Run::Word, j + 1);
    let eq = scan_end(x, Run::Quoted, j + 1);
    assert(y.subrange(j + d, ed + d) =~= x.subrange(j, ed));
    assert(y.subrange(j + d, ew + d) =~= x.subrange(j, ew));
    assert(y.subrange(j + 1 + d, eq + d) =~= x.subrange(j + 1, eq));
}

proof fn lemma_tokens_from_shift(x: Seq<char>, y: Seq<char>, d: int, p: int)
    requires
        0 <= p <= x.len(),
        0 <= d,
        y.len() == x.len() + d,
        forall|q: int| p <= q < x.len() ==> y[q + d] == #[trigger] x[q],
    ensures
        tokens_from(y, p + d) == tokens_from(x, p),
    decreases x.len() - p,
{
    lemma_scan_end_shift(x, y, d, Run::Blank, p);
    lemma_scan_end_bounds(x, Run::Blank, p);
    let j = scan_end(x, Run::Blank, p);
    lemma_next_lexeme_advances(x, p);
    if j < x.len() {
        lemma_scan_token_shift(x, y, d, j);
        if let Ok((t, e)) = scan_token(x, j) {
            if !(t is EOF) {
                lemma_tokens_from_shift(x, y, d, e);
            }
        }
    }
}

proof fn lemma_scan_end_agree(s: Seq<char>, s2: Seq<char>, k: Run, p: int)
    requires
        0 <= p <= s.len(),
        scan_end(s, k, p) < s2.len(),
        forall|q: int| p <= q < scan_end(s, k, p) ==> s2[q] == #[trigger] s[q],
        (scan_end(s, k, p) < s.len() && s2[scan_end(s, k, p)] == s[scan_end(s, k, p)]) || !in_run(
            k,
            s2[scan_end(s, k, p)],
        ),
    ensures
        scan_end(s2, k, p) == scan_end(s, k, p),
    decreases s.len() - p,
{
    if p < s.len() && in_run(k, s[p]) {
        lemma_scan_end_bounds(s, k, p + 1);
        assert(s2[p] == s[p]);
        lemma_scan_end_agree(s, s2, k, p + 1);
    } else {
        lemma_scan_end_bounds(s, k, p);
    }
}

proof fn lemma_same_lexeme(s: Seq<char>, s2: Seq<char>, i: int, e: int)
    requires
        0 <= i <= s.len(),
        next_lexeme(s, i) matches Ok((t, e2)) && e2 == e && !(t is EOF),
        e < s2.len(),
        forall|q: int| 0 <= q < e ==> s2[q] == #[trigger] s[q],
        (e < s.len() && s2[e] == s[e]) || separator(s2[e]),
    ensures
        next_lexeme(s2, i) == next_lexeme(s, i),
{
    lemma_scan_end_bounds(s, Run::Blank, i);
    let j = scan_end(s, Run::Blank, i);
    lemma_scan_token_advances(s, j);
    lemma_scan_end_agree(s, s2, Run::Blank, i);
    lemma_scan_end_bounds(s, Run::Digits, j + 1);
    lemma_scan_end_bounds(s, Run::Word, j + 1);
    lemma_scan_end_bounds(s, Run::Quoted, j + 1);
    let c = s[j];
    assert(s2[j] == c);
    if j + 1 < e {
        assert(s2[j + 1] == s[j + 1]);
    }
    if is_digit_char(c) {
        lemma_scan_end_agree(s, s2, Run::Digits, j + 1);
        assert(s2.subrange(j, e) =~= s.subrange(j, e));
    } else if c == '\'' {
        lemma_scan_end_agree(s, s2, Run::Quoted, j + 1);
        let eq = scan_end(s, Run::Quoted, j + 1);
        assert(s2.subrange(j + 1, eq) =~= s.subrange(j + 1, eq));
    } else if c == ':' || c == '<' || c == '>' || punctuation(c) is Some {
    } else {
        lemma_scan_end_agree(s, s2, Run::Word, j + 1);
        assert(s2.subrange(j, e) =~= s.subrange(j, e));
    }
}

proof fn lemma_boundary_bounds(s: Seq<char>, i: int, k: int)
    ensures
        token_boundary(s, i, k) ==> i < k <= s.len(),
    decreases s.len() - i,
{
    if let Ok((t, e)) = next_lexeme(s, i) {
        if !(t is EOF) && i < e <= s.len() && e < k {
            lemma_boundary_bounds(s, e, k);
        }
    }
}

proof fn lemma_skip_blanks(x: Seq<char>, p: int, n: int)
    requires
        0 <= p,
        0 <= n,
        p + n <= x.len(),
        forall|q: int| p <= q < p + n ==> whitespace(#[trigger] x[q]),
    ensures
        scan_end(x, Run::Blank, p) == scan_end(x, Run::Blank, p + n),
    decreases n,
{
    if n > 0 {
        assert(whitespace(x[p]));
        lemma_skip_blanks(x, p + 1, n - 1);
    }
}

/// Putting whitespace between two tokens leaves the tokens unchanged. The
/// characters put in must be ones that no lexeme can take in (no letter, digit,
/// underscore, `=` or `>`), which holds of every whitespace character there is.
pub proof fn lemma_whitespace_between_tokens(s: Seq<char>, i: int, k: int, w: Seq<char>)
    requires
        0 <= i,
        token_boundary(s, i, k),
        forall|q: int| 0 <= q < w.len() ==> separator(#[trigger] w[q]),
    ensures
        tokens_from(insert_at(s, k, w), i) == tokens_from(s, i),
    decreases s.len() - i,
{
    let s2 = insert_at(s, k, w);
    lemma_boundary_bounds(s, i, k);
    if w.len() == 0 {
        assert(s2 =~= s);
    } else {
        let e = next_lexeme(s, i)->Ok_0.1;
        assert forall|q: int| 0 <= q < e implies s2[q] == #[trigger] s[q] by {}
        if e < k {
            assert(s2[e] == s[e]);
        } else {
            assert(s2[k] == w[0]);
        }
        lemma_same_lexeme(s, s2, i, e);
        if e == k {
            let n = w.len() as int;
            assert forall|q: int| k <= q < k + n implies whitespace(#[trigger] s2[q]) by {
                assert(s2[q] == w[q - k]);
                assert(separator(w[q - k]));
            }
            lemma_skip_blanks(s2, k, n);
            assert forall|q: int| k <= q < s.len() implies s2[q + n] == #[trigger] s[q] by {}
            lemma_tokens_from_shift(s, s2, n, k);
            assert(next_lexeme(s2, k) == next_lexeme(s2, k + n));
            lemma_next_lexeme_advances(s2, k);
            lemma_next_lexeme_advances(s2, k + n);
            assert(tokens_from(s2, k) == tokens_from(s2, k + n));
        } else {
            lemma_whitespace_between_tokens(s, e, k, w);
        }
    }
}

#[via_fn]
proof fn tokens_from_decreases(s: Seq<char>, i: int) {
    lemma_next_lexeme_advances(s, i);
}

} // verus!
