use expr_front::text::TextSpan;
use expr_front::tokenizer::{Token, TokenType, TokenValue};

#[test]
fn text_gets_the_text_span_from_the_provided_document() {
    let doc = "this is a test";
    let tok = Token::new(TextSpan::new(5, 9), TokenType::Unknown, TokenValue::Empty);
    assert_eq!("is a", tok.text(doc));
}

#[test]
fn token_keeps_its_parts() {
    let tok = Token::new(TextSpan::new(2, 4), TokenType::Number, TokenValue::Integer(12));
    assert_eq!(2, tok.span().start());
    assert_eq!(4, tok.span().end());
    assert_eq!(TokenType::Number, tok.typ());
    assert_eq!(&TokenValue::Integer(12), tok.value());
}
