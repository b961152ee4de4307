mod error;
mod token;
mod tokenizer;

pub use self::error::Error;
pub use self::token::{Keyword, Token, TokenType, TokenValue, TokenValueView, TokenView};
pub use self::tokenizer::{
    decimal_value, is_decimal, is_digit, is_digit_byte, is_identifier_char, is_identifier_start,
    is_signed_decimal, is_blank, is_whitespace_byte, fresh, keyword_of, lemma_tokenizing_twice_agrees, lemma_tokens_cover_text, lemma_pull_is_deterministic, lexed, progressed, pull, pull_view, pulled, significant_stream, token_stream,
    signed_decimal_value, single_char_type, starts_number, token_end, AsciiDigit, IdentifierChar,
    Tokenizer, TokenizerImpl, TokenizerView,
};
