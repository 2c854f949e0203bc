use seid::{tokenize, Error, Literal, SyntaxCategory, Token, TokenType};

fn scan(src: &str) -> Vec<Token> {
    tokenize(src.as_bytes().to_vec()).expect("tokenize should succeed")
}

fn scan_err(src: &str) -> Error {
    tokenize(src.as_bytes().to_vec()).expect_err("tokenize should fail")
}

#[test]
fn empty_input_yields_only_eof() {
    let toks = scan("");
    assert_eq!(toks.len(), 1);
    assert_eq!(toks[0].token_type, TokenType::Eof);
    assert_eq!(toks[0].lexeme, Vec::<u8>::new());
    assert!(toks[0].literal.is_none());
    assert_eq!(toks[0].line, 1);
}

#[test]
fn number_literal_scans_to_number_and_eof() {
    let toks = scan("123");
    assert_eq!(toks.len(), 2);
    assert_eq!(toks[0].token_type, TokenType::Number);
    assert_eq!(toks[0].lexeme, b"123".to_vec());
    match &toks[0].literal {
        Some(Literal::Number(s)) => {
            let val: f64 = std::str::from_utf8(s).unwrap().parse().unwrap();
            assert_eq!(val, 123.0);
        },
        other => panic!("expected a number literal, got {:?}", other),
    }
    assert_eq!(toks[1].token_type, TokenType::Eof);
}

#[test]
fn fractional_number_is_one_token() {
    let toks = scan("3.14");
    assert_eq!(toks.len(), 2);
    assert_eq!(toks[0].token_type, TokenType::Number);
    assert_eq!(toks[0].lexeme, b"3.14".to_vec());
}

#[test]
fn trailing_dot_is_not_part_of_the_number() {
    let toks = scan("3.");
    assert_eq!(toks.len(), 3);
    assert_eq!(toks[0].token_type, TokenType::Number);
    assert_eq!(toks[0].lexeme, b"3".to_vec());
    assert_eq!(toks[1].token_type, TokenType::Dot);
}

#[test]
fn equality_operator_uses_maximal_munch() {
    let toks = scan("1 == 2");
    let kinds: Vec<TokenType> = toks.iter().map(|t| t.token_type).collect();
    assert_eq!(
        kinds,
        vec![TokenType::Number, TokenType::EqualEqual, TokenType::Number, TokenType::Eof]
    );
    assert_eq!(toks[0].lexeme, b"1".to_vec());
    assert_eq!(toks[2].lexeme, b"2".to_vec());
}

#[test]
fn one_and_two_character_operators_are_distinguished() {
    let toks = scan("! != = == < <= > >= / *");
    let kinds: Vec<TokenType> = toks.iter().map(|t| t.token_type).collect();
    assert_eq!(
        kinds,
        vec![
            TokenType::Bang,
            TokenType::BangEqual,
            TokenType::Equal,
            TokenType::EqualEqual,
            TokenType::Less,
            TokenType::LessEqual,
            TokenType::Greater,
            TokenType::GreaterEqual,
            TokenType::Slash,
            TokenType::Star,
            TokenType::Eof,
        ]
    );
}

#[test]
fn single_character_tokens_map_to_their_kinds() {
    let toks = scan("(){},.-+;");
    let kinds: Vec<TokenType> = toks.iter().map(|t| t.token_type).collect();
    assert_eq!(
        kinds,
        vec![
            TokenType::LeftParen,
            TokenType::RightParen,
            TokenType::LeftBrace,
            TokenType::RightBrace,
            TokenType::Comma,
            TokenType::Dot,
            TokenType::Minus,
            TokenType::Plus,
            TokenType::Semicolon,
            TokenType::Eof,
        ]
    );
}

#[test]
fn keywords_map_to_keyword_kinds() {
    let toks = scan("and class else false for fun if nil or print return super this true var while");
    let kinds: Vec<TokenType> = toks.iter().map(|t| t.token_type).collect();
    assert_eq!(
        kinds,
        vec![
            TokenType::And,
            TokenType::Class,
            TokenType::Else,
            TokenType::False,
            TokenType::For,
            TokenType::Fun,
            TokenType::If,
            TokenType::Nil,
            TokenType::Or,
            TokenType::Print,
            TokenType::Return,
            TokenType::Super,
            TokenType::This,
            TokenType::True,
            TokenType::Var,
            TokenType::While,
            TokenType::Eof,
        ]
    );
    for t in &toks {
        assert!(t.literal.is_none());
    }
}

#[test]
fn identifier_keeps_its_text_as_literal() {
    let toks = scan("_foo1 andx");
    assert_eq!(toks.len(), 3);
    assert_eq!(toks[0].token_type, TokenType::Identifier);
    assert_eq!(toks[0].lexeme, b"_foo1".to_vec());
    match &toks[0].literal {
        Some(Literal::Identifier(s)) => assert_eq!(s, &b"_foo1".to_vec()),
        other => panic!("expected an identifier literal, got {:?}", other),
    }
    assert_eq!(toks[1].token_type, TokenType::Identifier);
    assert_eq!(toks[1].lexeme, b"andx".to_vec());
}

#[test]
fn string_literal_value_is_text_between_quotes() {
    let toks = scan("\"hello world\"");
    assert_eq!(toks.len(), 2);
    assert_eq!(toks[0].token_type, TokenType::String);
    assert_eq!(toks[0].lexeme, b"\"hello world\"".to_vec());
    match &toks[0].literal {
        Some(Literal::Str(s)) => assert_eq!(s, &b"hello world".to_vec()),
        other => panic!("expected a string literal, got {:?}", other),
    }
}

#[test]
fn string_spanning_lines_counts_newlines() {
    let toks = scan("\"a\nb\" 1");
    assert_eq!(toks[0].token_type, TokenType::String);
    assert_eq!(toks[0].line, 2);
    assert_eq!(toks[1].token_type, TokenType::Number);
    assert_eq!(toks[1].line, 2);
}

#[test]
fn unterminated_string_fails_at_final_line() {
    let e = scan_err("\"abc");
    match e {
        Error::SyntaxError(line, cat, _) => {
            assert_eq!(line, 1);
            assert_eq!(cat, SyntaxCategory::UnterminatedString);
        },
        other => panic!("expected a syntax error, got {:?}", other),
    }
}

#[test]
fn unterminated_string_reports_line_reached() {
    let e = scan_err("1\n\"ab\ncd");
    match e {
        Error::SyntaxError(line, cat, _) => {
            assert_eq!(line, 3);
            assert_eq!(cat, SyntaxCategory::UnterminatedString);
        },
        other => panic!("expected a syntax error, got {:?}", other),
    }
}

#[test]
fn unexpected_character_is_reported_with_its_line() {
    let e = scan_err("1 +\n@");
    match e {
        Error::SyntaxError(line, cat, detail) => {
            assert_eq!(line, 2);
            assert_eq!(cat, SyntaxCategory::UnexpectedCharacter);
            assert_eq!(detail, b"@".to_vec());
        },
        other => panic!("expected a syntax error, got {:?}", other),
    }
}

#[test]
fn comment_is_discarded_to_end_of_line() {
    let toks = scan("1 // this is ignored\n2");
    let kinds: Vec<TokenType> = toks.iter().map(|t| t.token_type).collect();
    assert_eq!(kinds, vec![TokenType::Number, TokenType::Number, TokenType::Eof]);
    assert_eq!(toks[0].line, 1);
    assert_eq!(toks[1].line, 2);
}

#[test]
fn newlines_increment_the_line_counter() {
    let toks = scan("1\n2\n\n3");
    assert_eq!(toks[0].line, 1);
    assert_eq!(toks[1].line, 2);
    assert_eq!(toks[2].line, 4);
    assert_eq!(toks[3].line, 4);
}

#[test]
fn whitespace_is_discarded() {
    let toks = scan(" \t\r 7 ");
    assert_eq!(toks.len(), 2);
    assert_eq!(toks[0].token_type, TokenType::Number);
}

#[test]
fn lexemes_equal_space_delimited_pieces() {
    let src = "var x = ( 1 + 2.5 ) * \"s\" ;";
    let toks = scan(src);
    let pieces: Vec<&str> = src.split(' ').collect();
    assert_eq!(toks.len(), pieces.len() + 1);
    for (t, p) in toks.iter().zip(pieces.iter()) {
        assert_eq!(t.lexeme, p.as_bytes().to_vec());
    }
    assert_eq!(toks.last().unwrap().token_type, TokenType::Eof);
    let eof_count = toks.iter().filter(|t| t.token_type == TokenType::Eof).count();
    assert_eq!(eof_count, 1);
}

#[test]
fn retokenizing_joined_lexemes_keeps_the_kinds() {
    let src = "fun f(a,b) { return a + b <= 3.5 != \"x y\"; } // tail";
    let toks = scan(src);
    let joined = toks
        .iter()
        .map(|t| String::from_utf8(t.lexeme.clone()).unwrap())
        .collect::<Vec<String>>()
        .join(" ");
    let again = scan(&joined);
    let kinds: Vec<TokenType> = toks.iter().map(|t| t.token_type).collect();
    let kinds_again: Vec<TokenType> = again.iter().map(|t| t.token_type).collect();
    assert_eq!(kinds, kinds_again);
}
