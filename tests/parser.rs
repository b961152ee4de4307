use expr_front::parser::{BinOp, Error, Expr, Lit, Parser};
use expr_front::tokenizer::{Error as TokError, TokenType, Tokenizer};

fn parse(text: &str) -> Result<Expr, Error> {
    let tokens = Tokenizer::new(text);
    let mut parser = Parser::new(tokens);
    parser.expr()
}

#[test]
fn expr_int_literal() {
    let expr = parse("42").expect("Expected the parse the succeed");
    assert_eq!(Expr::constant(42), expr);
}

#[test]
fn bin_add_literals() {
    let expr = parse("40 + 2").expect("Expected the parse the succeed");
    assert_eq!(
        Expr::binary(Expr::constant(40), Expr::constant(2), BinOp::Add),
        expr
    );
}

#[test]
fn bin_add_literal_sequence() {
    let expr = parse("1 + 2 + 3 + 4").expect("Expected the parse the succeed");
    assert_eq!(
        Expr::binary(
            Expr::binary(
                Expr::binary(Expr::constant(1), Expr::constant(2), BinOp::Add),
                Expr::constant(3),
                BinOp::Add
            ),
            Expr::constant(4),
            BinOp::Add
        ),
        expr
    );
}

#[test]
fn multiplication_binds_tighter_than_addition() {
    let expr = parse("1 + 2 * 3 - 4").unwrap();
    assert_eq!(
        Expr::binary(
            Expr::binary(
                Expr::constant(1),
                Expr::binary(Expr::constant(2), Expr::constant(3), BinOp::Multiply),
                BinOp::Add
            ),
            Expr::constant(4),
            BinOp::Subtract
        ),
        expr
    );
}

#[test]
fn equal_tight_operators_group_to_the_left() {
    let expr = parse("8 / 4 * 2 + 1").unwrap();
    assert_eq!(
        Expr::binary(
            Expr::binary(
                Expr::binary(Expr::constant(8), Expr::constant(4), BinOp::Divide),
                Expr::constant(2),
                BinOp::Multiply
            ),
            Expr::constant(1),
            BinOp::Add
        ),
        expr
    );
}

#[test]
fn tight_run_after_loose_operator_nests_on_the_right() {
    let expr = parse("1 - 2 * 3 * 4").unwrap();
    assert_eq!(
        Expr::binary(
            Expr::constant(1),
            Expr::binary(
                Expr::binary(Expr::constant(2), Expr::constant(3), BinOp::Multiply),
                Expr::constant(4),
                BinOp::Multiply
            ),
            BinOp::Subtract
        ),
        expr
    );
}

#[test]
fn negative_literals_are_operands() {
    let expr = parse("3 - -2").unwrap();
    assert_eq!(
        Expr::binary(Expr::constant(3), Expr::constant(-2), BinOp::Subtract),
        expr
    );
}

#[test]
fn empty_input_is_unexpected_end_of_file() {
    assert_eq!(Err(Error::UnexpectedEndOfFile), parse(""));
}

#[test]
fn trailing_operator_is_unexpected_end_of_file() {
    assert_eq!(Err(Error::UnexpectedEndOfFile), parse("1 +"));
}

#[test]
fn non_literal_primary_is_an_unexpected_token() {
    match parse("x + 1") {
        Err(Error::UnexpectedToken(t)) => assert_eq!(TokenType::Identifier, t.typ()),
        other => panic!("expected an unexpected token, got {:?}", other),
    }
    match parse("1 + (") {
        Err(Error::UnexpectedToken(t)) => assert_eq!(TokenType::LParen, t.typ()),
        other => panic!("expected an unexpected token, got {:?}", other),
    }
}

#[test]
fn first_tokenizer_error_is_returned_as_it_is() {
    let expected = "99999999999999999999".parse::<i64>().unwrap_err();
    match parse("99999999999999999999 + 1") {
        Err(Error::TokenizerError(TokError::ParseIntError(e))) => assert_eq!(expected, e),
        other => panic!("expected a tokenizer error, got {:?}", other),
    }
}

#[test]
fn unknown_characters_other_than_whitespace_stop_the_expression() {
    assert_eq!(Ok(Expr::constant(1)), parse("1 $ + 2"));
    match parse("$") {
        Err(Error::UnexpectedToken(t)) => assert_eq!(TokenType::Unknown, t.typ()),
        other => panic!("expected an unexpected token, got {:?}", other),
    }
}

#[test]
fn whitespace_only_input_is_unexpected_end_of_file() {
    assert_eq!(Err(Error::UnexpectedEndOfFile), parse(" \t\r\n"));
}

#[test]
fn tokenizer_errors_abort_the_parse() {
    match parse("1 + 99999999999999999999") {
        Err(Error::TokenizerError(_)) => {}
        other => panic!("expected a tokenizer error, got {:?}", other),
    }
}

#[test]
fn expression_ends_before_a_non_operator() {
    let tokens = Tokenizer::new("1 + 2 ) 3");
    let mut parser = Parser::new(tokens);
    assert_eq!(
        Expr::binary(Expr::constant(1), Expr::constant(2), BinOp::Add),
        parser.expr().unwrap()
    );
}

#[test]
fn precedence_of_operators_and_expressions() {
    assert_eq!(10, BinOp::Add.precedence());
    assert_eq!(10, BinOp::Subtract.precedence());
    assert_eq!(20, BinOp::Multiply.precedence());
    assert_eq!(20, BinOp::Divide.precedence());
    assert_eq!(0, Expr::constant(1).precedence());
    assert_eq!(
        20,
        Expr::binary(Expr::constant(1), Expr::constant(2), BinOp::Multiply).precedence()
    );
    assert_eq!(Lit::Int(5), Lit::from(5));
}
