use vstd::prelude::*;
use vstd::string::StringSliceAdditionalSpecFns;

use crate::text::{lemma_boundary_in_suffix, TextSpan};

verus! {

#[derive(PartialEq, Eq, Debug, Clone, Copy, Structural)]
pub enum TokenType {
    Unknown,
    Number,
    Identifier,
    Keyword,
    LParen,
    RParen,
    Comma,
    Plus,
    Minus,
    Star,
    Slash,
    Assign,
}

/// The reserved words of the language.
#[derive(PartialEq, Eq, Debug, Clone, Copy, Structural)]
pub enum Keyword {
    Def,
    Extern,
}

#[derive(PartialEq, Eq, Debug, Clone)]
pub enum TokenValue {
    Empty,
    Integer(i64),
    Symbol(String),
    Keyword(Keyword),
}

/// A token value with its text as a sequence of characters.
pub enum TokenValueView {
    Empty,
    Integer(i64),
    Symbol(Seq<char>),
    Keyword(Keyword),
}

impl View for TokenValue {
    type V = TokenValueView;

    open spec fn view(&self) -> TokenValueView {
        match self {
            TokenValue::Empty => TokenValueView::Empty,
            TokenValue::Integer(i) => TokenValueView::Integer(*i),
            TokenValue::Symbol(s) => TokenValueView::Symbol(s@),
            TokenValue::Keyword(k) => TokenValueView::Keyword(*k),
        }
    }
}

/// A token as its span, its type and the view of its value.
pub struct TokenView {
    pub span: (usize, usize),
    pub typ: TokenType,
    pub value: TokenValueView,
}

#[derive(PartialEq, Eq, Debug, Clone)]
pub struct Token {
    span: TextSpan,
    typ: TokenType,
    value: TokenValue,
}

impl View for Token {
    type V = TokenView;

    closed spec fn view(&self) -> TokenView {
        TokenView { span: self.span@, typ: self.typ, value: self.value@ }
    }
}

impl Token {
    pub fn new(span: TextSpan, typ: TokenType, value: TokenValue) -> (r: Token)
        ensures
            r@ == (TokenView { span: span@, typ, value: value@ }),
    {
        Token { span, typ, value }
    }

    pub fn span(&self) -> (r: TextSpan)
        ensures
            r@ == self@.span,
    {
        self.span
    }

    pub fn typ(&self) -> (r: TokenType)
        ensures
            r == self@.typ,
    {
        self.typ
    }

    pub fn value(&self) -> (r: &TokenValue)
        ensures
            r@ == self@.value,
    {
        &self.value
    }

    /// The text of `document` that the token spans; the span's ends must be
    /// character boundaries of `document`.
    pub fn text<'a>(&self, document: &'a str) -> (r: &'a str)
        requires
            self@.span.0 <= self@.span.1 <= document.spec_bytes().len(),
            vstd::utf8::is_char_boundary(document.spec_bytes(), self@.span.0 as int),
            vstd::utf8::is_char_boundary(document.spec_bytes(), self@.span.1 as int),
        ensures
            r.spec_bytes() == document.spec_bytes().subrange(
                self@.span.0 as int,
                self@.span.1 as int,
            ),
    {
        let start = self.span.start();
        let end = self.span.end();
        proof {
            vstd::utf8::encode_utf8_valid_utf8(document@);
            lemma_boundary_in_suffix(document.spec_bytes(), start as int, end as int);
        }
        let (_, rest) = document.split_at(start);
        assert(rest.spec_bytes() =~= document.spec_bytes().subrange(
            start as int,
            document.spec_bytes().len() as int,
        ));
        let (r, _) = rest.split_at(end - start);
        assert(r.spec_bytes() =~= document.spec_bytes().subrange(start as int, end as int));
        r
    }
}

} // verus!
