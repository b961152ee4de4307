use expr_front::tokenizer::{Error, Keyword, Token, TokenType, TokenValue, Tokenizer};

fn get_single_token(s: &str) -> Token {
    let mut t = Tokenizer::new(s);
    let token = t
        .next()
        .expect("expected a single token")
        .expect("expected no error reading token");
    assert!(t.next().is_none(), "expected no more than one token");
    token
}

fn single_token_test(s: &str, typ: TokenType, val: TokenValue) {
    let tok = get_single_token(s);
    assert_eq!(0, tok.span().start());
    assert_eq!(s.len(), tok.span().end());
    assert_eq!(typ, tok.typ());
    assert_eq!(&val, tok.value());
}

fn all_tokens(s: &str) -> Vec<Result<Token, Error>> {
    let mut t = Tokenizer::new(s);
    let mut out = Vec::new();
    while let Some(r) = t.next() {
        out.push(r);
    }
    out
}

#[test]
fn literal_zero() {
    single_token_test("0", TokenType::Number, TokenValue::Integer(0));
}

#[test]
fn literal_pos_int() {
    single_token_test("123", TokenType::Number, TokenValue::Integer(123));
}

#[test]
fn literal_neg_int() {
    single_token_test("-123", TokenType::Number, TokenValue::Integer(-123));
}

#[test]
fn identifier() {
    single_token_test("_123foo_bar", TokenType::Identifier, TokenValue::Symbol("_123foo_bar".into()));
}

#[test]
fn keyword_def() {
    single_token_test("def", TokenType::Keyword, TokenValue::Keyword(Keyword::Def));
}

#[test]
fn keyword_extern() {
    single_token_test("extern", TokenType::Keyword, TokenValue::Keyword(Keyword::Extern));
}

#[test]
fn lparen() {
    single_token_test("(", TokenType::LParen, TokenValue::Empty);
}

#[test]
fn rparen() {
    single_token_test(")", TokenType::RParen, TokenValue::Empty);
}

#[test]
fn comma() {
    single_token_test(",", TokenType::Comma, TokenValue::Empty);
}

#[test]
fn plus() {
    single_token_test("+", TokenType::Plus, TokenValue::Empty);
}

#[test]
fn minus() {
    single_token_test("-", TokenType::Minus, TokenValue::Empty);
}

#[test]
fn star() {
    single_token_test("*", TokenType::Star, TokenValue::Empty);
}

#[test]
fn slash() {
    single_token_test("/", TokenType::Slash, TokenValue::Empty);
}

#[test]
fn assign() {
    single_token_test("=", TokenType::Assign, TokenValue::Empty);
}

#[test]
fn tokens_are_separated_and_spanned() {
    let toks = all_tokens("def f(x) = x*-2");
    let kinds: Vec<TokenType> = toks.iter().map(|t| t.as_ref().unwrap().typ()).collect();
    assert_eq!(
        vec![
            TokenType::Keyword,
            TokenType::Unknown,
            TokenType::Identifier,
            TokenType::LParen,
            TokenType::Identifier,
            TokenType::RParen,
            TokenType::Unknown,
            TokenType::Assign,
            TokenType::Unknown,
            TokenType::Identifier,
            TokenType::Star,
            TokenType::Number,
        ],
        kinds
    );
    let last = toks[11].as_ref().unwrap();
    assert_eq!(&TokenValue::Integer(-2), last.value());
    assert_eq!(13, last.span().start());
    assert_eq!(15, last.span().end());
}

#[test]
fn minus_before_a_non_digit_is_an_operator() {
    let toks = all_tokens("-a");
    assert_eq!(2, toks.len());
    assert_eq!(TokenType::Minus, toks[0].as_ref().unwrap().typ());
    assert_eq!(&TokenValue::Symbol("a".to_string()), toks[1].as_ref().unwrap().value());
}

#[test]
fn non_ascii_characters_are_unknown_tokens() {
    let toks = all_tokens("é1");
    assert_eq!(2, toks.len());
    let first = toks[0].as_ref().unwrap();
    assert_eq!(TokenType::Unknown, first.typ());
    assert_eq!(0, first.span().start());
    assert_eq!(2, first.span().end());
    assert_eq!(&TokenValue::Integer(1), toks[1].as_ref().unwrap().value());
}

#[test]
fn extreme_integers_parse() {
    single_token_test("9223372036854775807", TokenType::Number, TokenValue::Integer(i64::MAX));
    single_token_test("-9223372036854775808", TokenType::Number, TokenValue::Integer(i64::MIN));
}

#[test]
fn overflowing_number_is_an_error_and_ends_the_sequence() {
    let mut t = Tokenizer::new("9223372036854775808 1");
    match t.next() {
        Some(Err(Error::ParseIntError(_))) => {}
        other => panic!("expected a number format error, got {:?}", other),
    }
    assert!(t.next().is_none());
    assert!(t.next().is_none());
}

#[test]
fn empty_text_has_no_tokens() {
    let mut t = Tokenizer::new("");
    assert!(t.next().is_none());
}

#[test]
fn tokenizing_twice_gives_identical_tokens() {
    let text = "x1 + -42 * (y / 7), def";
    assert_eq!(all_tokens(text), all_tokens(text));
    assert_eq!(18, all_tokens(text).len());
}

#[test]
fn a_single_space_is_one_unknown_token() {
    let tok = get_single_token(" ");
    assert_eq!(TokenType::Unknown, tok.typ());
    assert_eq!(&TokenValue::Empty, tok.value());
    assert_eq!(0, tok.span().start());
    assert_eq!(1, tok.span().end());
}

#[test]
fn tokens_cover_the_text_without_gaps() {
    for text in ["40 + 2", " \t12\r\n ab \u{C}", "a¶Ё₵𐆓e\u{0301}", "def f(x) = x*-2"] {
        let mut end = 0;
        for r in all_tokens(text) {
            let t = r.unwrap();
            assert_eq!(end, t.span().start());
            assert!(t.span().start() < t.span().end());
            end = t.span().end();
        }
        assert_eq!(text.len(), end);
    }
}

#[test]
fn next_significant_passes_over_whitespace() {
    let mut t = Tokenizer::new(" \t12\r\n ab \u{C}$");
    let number = t.next_significant().unwrap().unwrap();
    assert_eq!(&TokenValue::Integer(12), number.value());
    assert_eq!(2, number.span().start());
    assert_eq!(4, number.span().end());
    let name = t.next_significant().unwrap().unwrap();
    assert_eq!(&TokenValue::Symbol("ab".to_string()), name.value());
    assert_eq!(7, name.span().start());
    assert_eq!(9, name.span().end());
    let dollar = t.next_significant().unwrap().unwrap();
    assert_eq!(TokenType::Unknown, dollar.typ());
    assert_eq!(11, dollar.span().start());
    assert!(t.next_significant().is_none());
}
