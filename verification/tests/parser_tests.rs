use seid::{parse, tokenize, Error, Expr, LiteralOp, SyntaxCategory, Token, TokenType};

fn parse_src(src: &str) -> Expr {
    let toks = tokenize(src.as_bytes().to_vec()).expect("tokenize should succeed");
    parse(toks).expect("parse should succeed")
}

fn parse_src_err(src: &str) -> Error {
    let toks = tokenize(src.as_bytes().to_vec()).expect("tokenize should succeed");
    parse(toks).expect_err("parse should fail")
}

fn number_value(e: &Expr) -> f64 {
    match e {
        Expr::Literal(LiteralOp::Number(s)) => std::str::from_utf8(s).unwrap().parse().unwrap(),
        other => panic!("expected a number literal node, got {:?}", other),
    }
}

#[test]
fn precedence_round_trip_through_printer() {
    let tree = parse_src("1 + 2 * 3");
    assert_eq!(tree.render(), b"( + 1 ( * 2 3))".to_vec());
}

#[test]
fn subtraction_is_left_associative() {
    let tree = parse_src("1 - 2 - 3");
    match &tree {
        Expr::Binary(lhs, op, rhs) => {
            assert_eq!(op.token_type, TokenType::Minus);
            assert_eq!(number_value(rhs), 3.0);
            match &**lhs {
                Expr::Binary(ll, lop, lr) => {
                    assert_eq!(lop.token_type, TokenType::Minus);
                    assert_eq!(number_value(ll), 1.0);
                    assert_eq!(number_value(lr), 2.0);
                },
                other => panic!("expected the left operand to be a binary node, got {:?}", other),
            }
        },
        other => panic!("expected a binary root, got {:?}", other),
    }
    assert_eq!(tree.render(), b"( - ( - 1 2) 3)".to_vec());
}

#[test]
fn equality_parses_to_a_binary_node() {
    let tree = parse_src("1 == 2");
    match &tree {
        Expr::Binary(lhs, op, rhs) => {
            assert_eq!(op.token_type, TokenType::EqualEqual);
            assert_eq!(op.lexeme, b"==".to_vec());
            assert_eq!(number_value(lhs), 1.0);
            assert_eq!(number_value(rhs), 2.0);
        },
        other => panic!("expected a binary root, got {:?}", other),
    }
}

#[test]
fn missing_closing_parenthesis_is_rejected() {
    let e = parse_src_err("(1 + 2");
    match e {
        Error::SyntaxError(line, cat, _) => {
            assert_eq!(cat, SyntaxCategory::ExpectedRightParen);
            assert_eq!(line, 1);
        },
        other => panic!("expected a syntax error, got {:?}", other),
    }
}

#[test]
fn grouping_consumes_its_closing_parenthesis() {
    let tree = parse_src("(1 + 2) * 3");
    assert_eq!(tree.render(), b"( * ( group ( + 1 2)) 3)".to_vec());
}

#[test]
fn unary_prefixes_chain() {
    let tree = parse_src("!!true");
    assert_eq!(tree.render(), b"( ! ( ! True))".to_vec());
    match &tree {
        Expr::Unary(op, sub) => {
            assert_eq!(op.token_type, TokenType::Bang);
            assert!(matches!(&**sub, Expr::Unary(_, _)));
        },
        other => panic!("expected a unary root, got {:?}", other),
    }
}

#[test]
fn negation_binds_tighter_than_multiplication() {
    let tree = parse_src("-1 * 2");
    assert_eq!(tree.render(), b"( * ( - 1) 2)".to_vec());
}

#[test]
fn keyword_literals_parse_to_fixed_literals() {
    assert!(matches!(parse_src("true"), Expr::Literal(LiteralOp::True)));
    assert!(matches!(parse_src("false"), Expr::Literal(LiteralOp::False)));
    assert!(matches!(parse_src("nil"), Expr::Literal(LiteralOp::Nil)));
}

#[test]
fn string_literal_parses_to_a_string_node() {
    let tree = parse_src("\"a b\"");
    match &tree {
        Expr::Literal(LiteralOp::Str(s)) => assert_eq!(s, &b"a b".to_vec()),
        other => panic!("expected a string literal node, got {:?}", other),
    }
    assert_eq!(tree.render(), b"a b".to_vec());
}

#[test]
fn comparison_levels_nest_below_equality() {
    let tree = parse_src("1 < 2 == 3 >= 4");
    assert_eq!(tree.render(), b"( == ( < 1 2) ( >= 3 4))".to_vec());
}

#[test]
fn division_and_multiplication_fold_left() {
    let tree = parse_src("8 / 4 / 2");
    assert_eq!(tree.render(), b"( / ( / 8 4) 2)".to_vec());
}

#[test]
fn missing_operand_is_expected_expression() {
    let e = parse_src_err("1 +");
    match e {
        Error::SyntaxError(_, cat, detail) => {
            assert_eq!(cat, SyntaxCategory::ExpectedExpression);
            assert_eq!(detail, Vec::<u8>::new());
        },
        other => panic!("expected a syntax error, got {:?}", other),
    }
}

#[test]
fn stray_operator_is_expected_expression() {
    let e = parse_src_err("* 3");
    match e {
        Error::SyntaxError(line, cat, detail) => {
            assert_eq!(line, 1);
            assert_eq!(cat, SyntaxCategory::ExpectedExpression);
            assert_eq!(detail, b"*".to_vec());
        },
        other => panic!("expected a syntax error, got {:?}", other),
    }
}

#[test]
fn literal_kind_token_without_payload_is_invalid() {
    let toks = vec![
        Token::new(TokenType::Number, b"1".to_vec(), None, 1),
        Token::new(TokenType::Eof, Vec::new(), None, 1),
    ];
    match parse(toks) {
        Err(Error::SyntaxError(line, cat, detail)) => {
            assert_eq!(line, 1);
            assert_eq!(cat, SyntaxCategory::InvalidLiteral);
            assert_eq!(detail, b"1".to_vec());
        },
        other => panic!("expected an invalid-literal error, got {:?}", other),
    }
}

#[test]
fn scanner_error_reaches_the_caller_first() {
    let e = tokenize(b"1 + $".to_vec()).expect_err("tokenize should fail");
    match e {
        Error::SyntaxError(_, cat, _) => assert_eq!(cat, SyntaxCategory::UnexpectedCharacter),
        other => panic!("expected a syntax error, got {:?}", other),
    }
}

#[test]
fn parser_struct_advances_its_cursor() {
    let toks = tokenize(b"1 + 2".to_vec()).unwrap();
    let mut p = seid::Parser::new(toks);
    let tree = p.expression().expect("parse should succeed");
    assert_eq!(tree.render(), b"( + 1 2)".to_vec());
    assert_eq!(p.current, 3);
}
