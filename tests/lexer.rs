use rascal::ast::Type;
use rascal::parser::{Parser, Precedence};
use rascal::{LexError, Lexer, Source, Token};

fn lex_all(input: &str) -> Result<Vec<Token>, LexError> {
    let mut lexer = Lexer::new(Source::new(input))?;
    let mut out = Vec::new();
    while let Some(t) = lexer.next() {
        out.push(t);
    }
    Ok(out)
}

fn ident(s: &str) -> Token {
    Token::ID(String::from(s))
}

#[test]
fn test_assign() {
    let source = Source::new("this := true");
    let mut lexer = Lexer::new(source).unwrap();

    assert_eq!(lexer.next(), Some(Token::ID(String::from("this"))));
    assert_eq!(lexer.next(), Some(Token::Assign));
    assert_eq!(lexer.next(), Some(Token::Bool(true)));
}

#[test]
fn test_while() {
    let source = Source::new("while j<b do");
    let mut lexer = Lexer::new(source).unwrap();

    assert_eq!(lexer.next(), Some(Token::While));
    assert_eq!(lexer.next(), Some(Token::ID(String::from("j"))));
    assert_eq!(lexer.next(), Some(Token::Lt));
    assert_eq!(lexer.next(), Some(Token::ID(String::from("b"))));
    assert_eq!(lexer.next(), Some(Token::Do));
}

#[test]
fn test_string() {
    let source = Source::new("'test'");
    let mut lexer = Lexer::new(source).unwrap();

    assert_eq!(lexer.next(), Some(Token::String(String::from("test"))));
}

#[test]
fn test_eq() {
    let source = Source::new("'test' = 'test'");
    let mut lexer = Lexer::new(source).unwrap();

    assert_eq!(lexer.next(), Some(Token::String(String::from("test"))));
    assert_eq!(lexer.next(), Some(Token::Eq));
    assert_eq!(lexer.next(), Some(Token::String(String::from("test"))));
}

#[test]
fn whole_streams_end_with_eof() {
    assert_eq!(
        lex_all("this := true").unwrap(),
        vec![ident("this"), Token::Assign, Token::Bool(true), Token::EOF]
    );
    assert_eq!(
        lex_all("while j<b do").unwrap(),
        vec![Token::While, ident("j"), Token::Lt, ident("b"), Token::Do, Token::EOF]
    );
    assert_eq!(lex_all("").unwrap(), vec![Token::EOF]);
    assert_eq!(lex_all(" \t\n ").unwrap(), vec![Token::EOF]);
}

#[test]
fn keywords_ignore_case() {
    assert_eq!(
        lex_all("IF x<=10 THEN").unwrap(),
        vec![Token::If, ident("x"), Token::LtEq, Token::Int(10), Token::Then, Token::EOF]
    );
    assert_eq!(
        lex_all("Program bEgIn end VAR integer Boolean false").unwrap(),
        vec![
            Token::Program,
            Token::Begin,
            Token::End,
            Token::Var,
            Token::IntT,
            Token::BoolT,
            Token::Bool(false),
            Token::EOF
        ]
    );
}

#[test]
fn identifiers_keep_their_case() {
    assert_eq!(lex_all("FooBar").unwrap(), vec![ident("FooBar"), Token::EOF]);
    assert_eq!(lex_all("x_1 y2").unwrap(), vec![ident("x_1"), ident("y2"), Token::EOF]);
    assert_eq!(lex_all("eof").unwrap(), vec![ident("eof"), Token::EOF]);
    assert_eq!(lex_all("iffy").unwrap(), vec![ident("iffy"), Token::EOF]);
}

#[test]
fn two_character_operators() {
    assert_eq!(lex_all(":=").unwrap(), vec![Token::Assign, Token::EOF]);
    assert_eq!(lex_all("<=").unwrap(), vec![Token::LtEq, Token::EOF]);
    assert_eq!(lex_all("<>").unwrap(), vec![Token::Not, Token::EOF]);
    assert_eq!(lex_all(">=").unwrap(), vec![Token::GtEq, Token::EOF]);
    assert_eq!(lex_all(": =").unwrap(), vec![Token::Colon, Token::Eq, Token::EOF]);
    assert_eq!(lex_all("> <").unwrap(), vec![Token::Gt, Token::Lt, Token::EOF]);
    assert_eq!(
        lex_all("a<>b").unwrap(),
        vec![ident("a"), Token::Not, ident("b"), Token::EOF]
    );
}

#[test]
fn punctuation_marks() {
    assert_eq!(
        lex_all("+-*/,.;()").unwrap(),
        vec![
            Token::Plus,
            Token::Minus,
            Token::Mult,
            Token::Div,
            Token::Comma,
            Token::Dot,
            Token::SemiColon,
            Token::LParen,
            Token::RParen,
            Token::EOF
        ]
    );
}

#[test]
fn integers() {
    assert_eq!(lex_all("007").unwrap(), vec![Token::Int(7), Token::EOF]);
    assert_eq!(lex_all("2147483647").unwrap(), vec![Token::Int(2147483647), Token::EOF]);
    assert_eq!(lex_all("12ab").unwrap(), vec![Token::Int(12), ident("ab"), Token::EOF]);
}

#[test]
fn whitespace_does_not_change_tokens() {
    assert_eq!(lex_all("a:=b;").unwrap(), lex_all("a  :=\n b\t ;").unwrap());
}

#[test]
fn peeking_does_not_consume() {
    let lexer = Lexer::new(Source::new("a b")).unwrap();
    assert_eq!(lexer.peek(), Some(&ident("a")));
    assert_eq!(lexer.peek(), Some(&ident("a")));
    assert_eq!(lexer.peek_ahead(1), Some(&ident("b")));
    assert_eq!(lexer.peek_ahead(2), Some(&Token::EOF));
    assert_eq!(lexer.peek_ahead(3), None);
    let mut store = lexer.into_store();
    assert_eq!(store.len(), 3);
    assert_eq!(store.peek(), Some(&ident("a")));
    assert_eq!(store.next(), Some(ident("a")));
    assert_eq!(store.next(), Some(ident("b")));
    assert_eq!(store.next(), Some(Token::EOF));
    assert_eq!(store.next(), None);
    assert_eq!(store.peek(), None);
}

#[test]
fn unterminated_string() {
    assert_eq!(lex_all("'oops").unwrap_err(), LexError::UnterminatedString);
}

#[test]
fn malformed_integer() {
    assert_eq!(lex_all("9999999999").unwrap_err(), LexError::MalformedInteger);
    assert_eq!(lex_all("2147483648").unwrap_err(), LexError::MalformedInteger);
}

#[test]
fn unknown_character() {
    assert_eq!(lex_all("@").unwrap_err(), LexError::UnknownCharacter('@'));
    assert_eq!(lex_all("_x").unwrap_err(), LexError::UnknownCharacter('_'));
    assert_eq!(lex_all("a := 1 # 2").unwrap_err(), LexError::UnknownCharacter('#'));
}

#[test]
fn source_cursor() {
    let mut s = Source::new("ab");
    assert_eq!(s.current(), None);
    assert_eq!(s.peek(), Some(&'a'));
    assert_eq!(s.next(), Some('a'));
    assert_eq!(s.current(), Some('a'));
    assert_eq!(s.peek(), Some(&'b'));
    assert_eq!(s.next(), Some('b'));
    assert_eq!(s.next(), None);
    assert_eq!(s.peek(), None);
}

#[test]
fn parses_a_variable_declaration() {
    let lexer = Lexer::new(Source::new("a, b : INTEGER; c")).unwrap();
    let mut parser = Parser::new(lexer);
    let decl = parser.var_decl().ok().unwrap();
    assert_eq!(decl.0, vec![String::from("a"), String::from("b")]);
    assert_eq!(decl.1, Type::Integer);
    assert_eq!(parser.lexer.next(), Some(ident("c")));
}

#[test]
fn rejects_a_bad_declaration() {
    let lexer = Lexer::new(Source::new("a, : boolean;")).unwrap();
    let mut parser = Parser::new(lexer);
    assert!(parser.var_decl().is_err());
    let lexer = Lexer::new(Source::new("a : boolean")).unwrap();
    let mut parser = Parser::new(lexer);
    assert!(parser.var_decl().is_err());
}

#[test]
fn parses_types_and_names() {
    let lexer = Lexer::new(Source::new("boolean x 5")).unwrap();
    let mut parser = Parser::new(lexer);
    assert_eq!(parser.type_type().ok(), Some(Type::Boolean));
    assert_eq!(parser.var().ok().unwrap().0, String::from("x"));
    assert!(parser.var().is_err());
}

#[test]
fn one_token_per_lexeme() {
    let tokens = lex_all("x := 'a b' + 12;").unwrap();
    assert_eq!(tokens.len(), 6 + 1);
    assert_eq!(tokens[2], Token::String(String::from("a b")));
}

#[test]
fn non_ascii_letters_start_identifiers() {
    assert_eq!(lex_all("über").unwrap(), vec![ident("über"), Token::EOF]);
    assert_eq!(lex_all("a\u{00A0}b").unwrap(), vec![ident("a"), ident("b"), Token::EOF]);
}

#[test]
fn chomp_takes_the_whole_text() {
    match rascal::grammar::chomp("Hello") {
        Some((rascal::grammar::Expression::Atom(rascal::grammar::Atomic::Name(n)), rest)) => {
            assert_eq!(n, String::from("Hello"));
            assert_eq!(rest, "Hello");
        }
        _ => panic!("chomp gave no name"),
    }
}

#[test]
fn precedence_levels() {
    assert_eq!(Precedence::Parens.level(), 5);
    assert_eq!(Precedence::Product.level(), 4);
    assert_eq!(Precedence::Sum.level(), 3);
    assert_eq!(Precedence::Comp.level(), 2);
    assert_eq!(Precedence::Terms.level(), 1);
}
