use vstd::prelude::*;
use vstd::string::StringSliceAdditionalSpecFns;
use vstd::utf8::*;

use crate::text::{char_at, scan_end, width_at, CharPredicate, TextWindow, WindowView};
use crate::tokenizer::{Error, Keyword, Token, TokenType, TokenValue, TokenValueView, TokenView};

verus! {

pub open spec fn is_digit(c: char) -> bool {
    '0' <= c && c <= '9'
}

pub open spec fn is_identifier_start(c: char) -> bool {
    c == '_' || ('a' <= c && c <= 'z') || ('A' <= c && c <= 'Z')
}

pub open spec fn is_identifier_char(c: char) -> bool {
    is_identifier_start(c) || is_digit(c)
}

/// An ASCII whitespace byte: space, tab, line feed, form feed or carriage return.
pub open spec fn is_whitespace_byte(b: u8) -> bool {
    b == 0x20 || b == 0x09 || b == 0x0A || b == 0x0C || b == 0x0D
}

/// An `Unknown` token that covers whitespace: it separates tokens and means
/// nothing to the grammar.
pub open spec fn is_blank(bytes: Seq<u8>, t: TokenView) -> bool {
    t.typ == TokenType::Unknown && t.span.0 < bytes.len() && is_whitespace_byte(bytes[t.span.0 as int])
}

pub open spec fn is_digit_byte(b: u8) -> bool {
    0x30 <= b <= 0x39
}

/// One or more ASCII digits.
pub open spec fn is_decimal(s: Seq<u8>) -> bool {
    s.len() > 0 && forall|i: int| 0 <= i < s.len() ==> is_digit_byte(#[trigger] s[i])
}

/// An optional minus sign followed by one or more ASCII digits.
pub open spec fn is_signed_decimal(s: Seq<u8>) -> bool {
    is_decimal(s) || (s.len() > 0 && s[0] == 0x2D && is_decimal(s.drop_first()))
}

/// The value of a sequence of ASCII digits, read in base ten.
pub open spec fn decimal_value(s: Seq<u8>) -> int
    decreases s.len(),
{
    if s.len() == 0 {
        0
    } else {
        decimal_value(s.drop_last()) * 10 + (s.last() - 0x30)
    }
}

/// The value of a decimal number with an optional leading minus sign.
pub open spec fn signed_decimal_value(s: Seq<u8>) -> int {
    if s.len() > 0 && s[0] == 0x2D {
        -decimal_value(s.drop_first())
    } else {
        decimal_value(s)
    }
}

/// The reserved word spelled by `s`, if any.
pub open spec fn keyword_of(s: Seq<u8>) -> Option<Keyword> {
    if s == seq![0x64u8, 0x65u8, 0x66u8] {
        Some(Keyword::Def)
    } else if s == seq![0x65u8, 0x78u8, 0x74u8, 0x65u8, 0x72u8, 0x6Eu8] {
        Some(Keyword::Extern)
    } else {
        None
    }
}

/// The type of a token that consists of the single character `c`.
pub open spec fn single_char_type(c: char) -> TokenType {
    if c == '(' {
        TokenType::LParen
    } else if c == ')' {
        TokenType::RParen
    } else if c == ',' {
        TokenType::Comma
    } else if c == '+' {
        TokenType::Plus
    } else if c == '-' {
        TokenType::Minus
    } else if c == '*' {
        TokenType::Star
    } else if c == '/' {
        TokenType::Slash
    } else if c == '=' {
        TokenType::Assign
    } else {
        TokenType::Unknown
    }
}

/// A number starts at byte `p`: a digit, or a minus sign directly followed by one.
pub open spec fn starts_number(bytes: Seq<u8>, p: int) -> bool {
    let q = p + width_at(bytes, p);
    is_digit(char_at(bytes, p)) || (char_at(bytes, p) == '-' && q < bytes.len() && is_digit(
        char_at(bytes, q),
    ))
}

/// Where the token that starts at byte `p` ends.
pub open spec fn token_end(bytes: Seq<u8>, p: int) -> int {
    let c = char_at(bytes, p);
    let q = p + width_at(bytes, p);
    if starts_number(bytes, p) {
        if c == '-' {
            scan_end(bytes, q + width_at(bytes, q), AsciiDigit)
        } else {
            scan_end(bytes, q, AsciiDigit)
        }
    } else if is_identifier_start(c) {
        scan_end(bytes, q, IdentifierChar)
    } else {
        q
    }
}

/// The token that starts at byte `p`, or `None` where it is a number that
/// does not fit in an `i64`.
pub open spec fn lexed(bytes: Seq<u8>, p: int) -> Option<TokenView> {
    let c = char_at(bytes, p);
    let e = token_end(bytes, p);
    let span = (p as usize, e as usize);
    let text = bytes.subrange(p, e);
    if starts_number(bytes, p) {
        let v = signed_decimal_value(text);
        if i64::MIN <= v <= i64::MAX {
            Some(
                TokenView {
                    span,
                    typ: TokenType::Number,
                    value: TokenValueView::Integer(v as i64),
                },
            )
        } else {
            None
        }
    } else if is_identifier_start(c) {
        match keyword_of(text) {
            Some(k) => Some(
                TokenView { span, typ: TokenType::Keyword, value: TokenValueView::Keyword(k) },
            ),
            None => Some(
                TokenView {
                    span,
                    typ: TokenType::Identifier,
                    value: TokenValueView::Symbol(decode_utf8(text)),
                },
            ),
        }
    } else {
        Some(TokenView { span, typ: single_char_type(c), value: TokenValueView::Empty })
    }
}

/// Matches the ASCII digits `0` to `9`.
pub struct AsciiDigit;

impl CharPredicate for AsciiDigit {
    open spec fn matches(&self, c: char) -> bool {
        is_digit(c)
    }

    open spec fn decides(&self) -> bool {
        true
    }

    fn test(&self, c: char) -> (r: bool) {
        '0' <= c && c <= '9'
    }

    fn invert(self) -> (r: crate::text::InvertedCharScanPredicate<Self>) {
        crate::text::InvertedCharScanPredicate(self)
    }
}

/// Matches the characters that may continue an identifier: `_`, ASCII letters and digits.
pub struct IdentifierChar;

impl CharPredicate for IdentifierChar {
    open spec fn matches(&self, c: char) -> bool {
        is_identifier_char(c)
    }

    open spec fn decides(&self) -> bool {
        true
    }

    fn test(&self, c: char) -> (r: bool) {
        c == '_' || ('a' <= c && c <= 'z') || ('A' <= c && c <= 'Z') || ('0' <= c && c <= '9')
    }

    fn invert(self) -> (r: crate::text::InvertedCharScanPredicate<Self>) {
        crate::text::InvertedCharScanPredicate(self)
    }
}

/// Relies on `str::parse::<i64>` (`i64::from_str`): an optional `-` followed by
/// ASCII digits parses to its value when that fits in an `i64`, and fails otherwise.
#[verifier::external_body]
fn parse_i64(s: &str) -> (r: Result<i64, std::num::ParseIntError>)
    requires
        is_signed_decimal(s.spec_bytes()),
    ensures
        r matches Ok(v) ==> v as int == signed_decimal_value(s.spec_bytes()),
        r is Err <==> !(i64::MIN <= signed_decimal_value(s.spec_bytes()) <= i64::MAX),
{
    s.parse::<i64>()
}

/// A character below `0x80` is encoded as the single byte of the same value.
proof fn lemma_ascii_char_at(bytes: Seq<u8>, i: int)
    requires
        valid_utf8(bytes),
        is_char_boundary(bytes, i),
        i < bytes.len(),
    ensures
        bytes[i] <= 0x7F ==> width_at(bytes, i) == 1 && char_at(bytes, i) == bytes[i] as char,
        bytes[i] > 0x7F ==> char_at(bytes, i) as u32 >= 0x80,
{
    crate::text::lemma_next_boundary(bytes, i);
    let s = bytes.subrange(i, bytes.len() as int);
    assert(s[0] == bytes[i]);
    let b = s[0];
    if b <= 0x7F {
        assert((b & 0x7F) as u32 == b as u32) by (bit_vector)
            requires
                b <= 0x7F,
        ;
    } else {
        valid_utf8_split(bytes, i);
        decode_utf8_first_scalar(s);
        let x = char_at(bytes, i) as u32;
        assert(take_first_scalar(s).len() >= 2);
        if x <= 0x7F {
            assert(encode_scalar(x).len() == 1);
        }
    }
}

/// A scan for digits from a character boundary covers digit bytes only.
proof fn lemma_scan_digits(bytes: Seq<u8>, i: int)
    requires
        valid_utf8(bytes),
        is_char_boundary(bytes, i),
        0 <= i <= bytes.len(),
    ensures
        i <= scan_end(bytes, i, AsciiDigit) <= bytes.len(),
        forall|k: int| i <= k < scan_end(bytes, i, AsciiDigit) ==> is_digit_byte(#[trigger] bytes[k]),
    decreases bytes.len() - i,
{
    if i < bytes.len() && is_digit(char_at(bytes, i)) {
        lemma_ascii_char_at(bytes, i);
        crate::text::lemma_next_boundary(bytes, i);
        lemma_scan_digits(bytes, i + 1);
    }
}

fn keyword_of_bytes(s: &[u8]) -> (r: Option<Keyword>)
    ensures
        r == keyword_of(s@),
{
    if s.len() == 3 && s[0] == 0x64 && s[1] == 0x65 && s[2] == 0x66 {
        assert(s@ =~= seq![0x64u8, 0x65u8, 0x66u8]);
        Some(Keyword::Def)
    } else if s.len() == 6 && s[0] == 0x65 && s[1] == 0x78 && s[2] == 0x74 && s[3] == 0x65 && s[4]
        == 0x72 && s[5] == 0x6E {
        assert(s@ =~= seq![0x65u8, 0x78u8, 0x74u8, 0x65u8, 0x72u8, 0x6Eu8]);
        Some(Keyword::Extern)
    } else {
        proof {
            if s@ == seq![0x64u8, 0x65u8, 0x66u8] {
                assert(s@[0] == 0x64 && s@[1] == 0x65 && s@[2] == 0x66);
            }
            if s@ == seq![0x65u8, 0x78u8, 0x74u8, 0x65u8, 0x72u8, 0x6Eu8] {
                assert(s@[0] == 0x65 && s@[1] == 0x78 && s@[2] == 0x74 && s@[3] == 0x65 && s@[4]
                    == 0x72 && s@[5] == 0x6E);
            }
        }
        None
    }
}

fn single_char_token_type(c: char) -> (r: TokenType)
    ensures
        r == single_char_type(c),
{
    match c {
        '(' => TokenType::LParen,
        ')' => TokenType::RParen,
        ',' => TokenType::Comma,
        '+' => TokenType::Plus,
        '-' => TokenType::Minus,
        '*' => TokenType::Star,
        '/' => TokenType::Slash,
        '=' => TokenType::Assign,
        _ => TokenType::Unknown,
    }
}

/// The state of a tokenizer: the text's bytes, where the next token starts,
/// and whether an error has ended the sequence.
pub struct TokenizerView {
    pub bytes: Seq<u8>,
    pub pos: int,
    pub failed: bool,
}

/// What one pull from a tokenizer in state `pre` yields (`Err(())` for a
/// number that does not fit in an `i64`), and the state it leaves.
pub open spec fn pull(pre: TokenizerView) -> (TokenizerView, Option<Result<TokenView, ()>>) {
    if pre.failed || pre.pos >= pre.bytes.len() {
        (pre, None)
    } else {
        match lexed(pre.bytes, pre.pos) {
            Some(t) => (TokenizerView { pos: t.span.1 as int, ..pre }, Some(Ok(t))),
            None => (TokenizerView { failed: true, ..pre }, Some(Err(()))),
        }
    }
}

/// A pull from `pre` yielded `r` and left `post`.
pub open spec fn pulled(
    pre: TokenizerView,
    post: TokenizerView,
    r: Option<Result<TokenView, ()>>,
) -> bool {
    pull(pre) == (post, r)
}

/// A pull that yielded something moved on: past the token, or into the
/// failed state.
pub open spec fn progressed(pre: TokenizerView, post: TokenizerView) -> bool {
    &&& 0 <= pre.pos <= post.pos <= post.bytes.len()
    &&& post.bytes == pre.bytes
    &&& (post.pos > pre.pos && post.failed == pre.failed) || (post.pos == pre.pos && !pre.failed
        && post.failed)
}

/// Everything that pulling from state `s` until the end yields, in order.
pub open spec fn token_stream(s: TokenizerView) -> Seq<Result<TokenView, ()>>
    decreases 2 * (s.bytes.len() - s.pos) + (if s.failed {
        0int
    } else {
        1int
    }),
{
    let (post, r) = pull(s);
    match r {
        None => seq![],
        Some(x) => if progressed(s, post) {
            seq![x] + token_stream(post)
        } else {
            seq![x]
        },
    }
}

/// What pulling from state `s` until the end yields, leaving out the tokens
/// that cover whitespace.
pub open spec fn significant_stream(s: TokenizerView) -> Seq<Result<TokenView, ()>>
    decreases 2 * (s.bytes.len() - s.pos) + (if s.failed {
        0int
    } else {
        1int
    }),
{
    let (post, r) = pull(s);
    match r {
        None => seq![],
        Some(x) => if progressed(s, post) {
            match x {
                Ok(t) => if is_blank(s.bytes, t) {
                    significant_stream(post)
                } else {
                    seq![x] + significant_stream(post)
                },
                Err(_) => seq![x] + significant_stream(post),
            }
        } else {
            seq![x]
        },
    }
}

/// The view of what a pull returned, with errors collapsed to `()`.
pub open spec fn pull_view(r: Option<Result<Token, Error>>) -> Option<Result<TokenView, ()>> {
    match r {
        Some(Ok(t)) => Some(Ok(t@)),
        Some(Err(_)) => Some(Err(())),
        None => None,
    }
}

/// Pulling from two tokenizers in the same state yields the same result and
/// leaves the same state; since fresh tokenizers over one buffer start in the
/// same state, tokenizing a buffer twice yields identical token sequences.
pub proof fn lemma_pull_is_deterministic(
    pre: TokenizerView,
    post1: TokenizerView,
    r1: Option<Result<TokenView, ()>>,
    post2: TokenizerView,
    r2: Option<Result<TokenView, ()>>,
)
    requires
        pulled(pre, post1, r1),
        pulled(pre, post2, r2),
    ensures
        post1 == post2,
        r1 == r2,
{
}

/// The state of a fresh tokenizer over a text with these bytes.
pub open spec fn fresh(bytes: Seq<u8>) -> TokenizerView {
    TokenizerView { bytes, pos: 0, failed: false }
}

/// Tokenizing one text twice, each time from a fresh tokenizer, yields the
/// same sequence of results, with or without the tokens that cover whitespace.
pub proof fn lemma_tokenizing_twice_agrees(text: &str, a: TokenizerView, b: TokenizerView)
    requires
        a == fresh(text.spec_bytes()),
        b == fresh(text.spec_bytes()),
    ensures
        token_stream(a) == token_stream(b),
        significant_stream(a) == significant_stream(b),
{
}

/// Every character belongs to a token: a token starts where the previous one
/// ended, is not empty, and the next starts where it ends.
pub proof fn lemma_tokens_cover_text(pre: TokenizerView, post: TokenizerView, t: TokenView)
    requires
        pulled(pre, post, Some(Ok(t))),
        progressed(pre, post),
    ensures
        t.span.0 == pre.pos,
        t.span.0 < t.span.1,
        post.pos == t.span.1,
{
}

/// Splits a text into tokens, one per call of `next`.
pub struct Tokenizer<'a> {
    imp: TokenizerImpl<'a>,
    failed: bool,
}

impl<'a> View for Tokenizer<'a> {
    type V = TokenizerView;

    closed spec fn view(&self) -> TokenizerView {
        TokenizerView { bytes: self.imp@.bytes, pos: self.imp@.offset, failed: self.failed }
    }
}

impl<'a> Tokenizer<'a> {
    pub closed spec fn wf(&self) -> bool {
        &&& self.imp@.wf()
        &&& !self.failed ==> self.imp@.end == self.imp@.offset
    }

    pub fn new(document: &'a str) -> (r: Tokenizer<'a>)
        ensures
            r.wf(),
            r@ == fresh(document.spec_bytes()),
    {
        Tokenizer { imp: TokenizerImpl::new(document), failed: false }
    }

    /// The next token, an error, or `None` at the end of the text. After an
    /// error the sequence is over: every later call returns `None`.
    pub fn next(&mut self) -> (r: Option<Result<Token, Error>>)
        requires
            old(self).wf(),
        ensures
            final(self).wf(),
            0 <= final(self)@.pos <= final(self)@.bytes.len(),
            pulled(old(self)@, final(self)@, pull_view(r)),
            final(self)@.bytes == old(self)@.bytes,
            r is Some ==> progressed(old(self)@, final(self)@),
            r matches Some(Err(e)) ==> e is ParseIntError,
    {
        if self.failed {
            return None;
        }
        // Read the first character
        match self.imp.win.take() {
            Ok(true) => {
                let r = self.imp.token();
                if r.is_err() {
                    self.failed = true;
                }
                Some(r)
            },
            Ok(false) => None,
            Err(e) => {
                self.failed = true;
                Some(Err(Error::TextError(e)))
            },
        }
    }
}

impl<'a> Tokenizer<'a> {
    /// The next token that does not cover whitespace, an error, or `None` at
    /// the end of the text.
    pub fn next_significant(&mut self) -> (r: Option<Result<Token, Error>>)
        requires
            old(self).wf(),
        ensures
            final(self).wf(),
            0 <= final(self)@.pos <= final(self)@.bytes.len(),
            final(self)@.bytes == old(self)@.bytes,
            match pull_view(r) {
                Some(x) => significant_stream(old(self)@) == seq![x] + significant_stream(
                    final(self)@,
                ),
                None => significant_stream(old(self)@) == Seq::<Result<TokenView, ()>>::empty()
                    && pull(final(self)@).1 is None,
            },
            r matches Some(Err(e)) ==> e is ParseIntError && final(self)@.failed,
    {
        loop
            invariant
                self.wf(),
                0 <= self@.pos <= self@.bytes.len(),
                self@.bytes == old(self)@.bytes,
                significant_stream(self@) == significant_stream(old(self)@),
            decreases 2 * (self@.bytes.len() - self@.pos) + (if self@.failed {
                0int
            } else {
                1int
            }),
        {
            let ghost pre = self@;
            let r = self.next();
            match r {
                Some(Ok(t)) => {
                    if t.typ() == TokenType::Unknown {
                        let b = self.imp.win.byte_at(t.span().start());
                        if b == 0x20 || b == 0x09 || b == 0x0A || b == 0x0C || b == 0x0D {
                            continue ;
                        }
                    }
                    return Some(Ok(t));
                },
                Some(Err(e)) => {
                    return Some(Err(e));
                },
                None => {
                    return None;
                },
            }
        }
    }
}

/// The scanning work of a tokenizer over its window.
pub struct TokenizerImpl<'a> {
    win: TextWindow<'a>,
}

impl<'a> View for TokenizerImpl<'a> {
    type V = WindowView;

    closed spec fn view(&self) -> WindowView {
        self.win@
    }
}

impl<'a> TokenizerImpl<'a> {
    pub fn new(document: &'a str) -> (r: TokenizerImpl<'a>)
        ensures
            r@.wf(),
            r@ == (WindowView { bytes: document.spec_bytes(), offset: 0, end: 0, last: None }),
    {
        TokenizerImpl { win: TextWindow::new(document) }
    }

    /// Finishes the token whose first character the window has just taken.
    fn token(&mut self) -> (r: Result<Token, Error>)
        requires
            old(self)@.wf(),
            old(self)@.offset < old(self)@.bytes.len(),
            old(self)@.end == old(self)@.offset + width_at(old(self)@.bytes, old(self)@.offset),
            old(self)@.last == Some(char_at(old(self)@.bytes, old(self)@.offset)),
        ensures
            final(self)@.wf(),
            final(self)@.bytes == old(self)@.bytes,
            match r {
                Ok(t) => {
                    &&& lexed(old(self)@.bytes, old(self)@.offset) == Some(t@)
                    &&& final(self)@.offset == final(self)@.end
                    &&& final(self)@.offset == t@.span.1
                    &&& final(self)@.offset > old(self)@.offset
                },
                Err(e) => {
                    &&& lexed(old(self)@.bytes, old(self)@.offset) is None
                    &&& e is ParseIntError
                    &&& final(self)@.offset == old(self)@.offset
                },
            },
    {
        let c = self.win.last().unwrap();
        if c == '-' && self.win.peek(AsciiDigit) {
            self.number()
        } else if '0' <= c && c <= '9' {
            self.number()
        } else if c == '_' || ('a' <= c && c <= 'z') || ('A' <= c && c <= 'Z') {
            self.identifier()
        } else {
            let typ = single_char_token_type(c);
            self.emit(typ, TokenValue::Empty)
        }
    }

    fn identifier(&mut self) -> (r: Result<Token, Error>)
        requires
            old(self)@.wf(),
            old(self)@.offset < old(self)@.bytes.len(),
            old(self)@.end == old(self)@.offset + width_at(old(self)@.bytes, old(self)@.offset),
            is_identifier_start(char_at(old(self)@.bytes, old(self)@.offset)),
        ensures
            final(self)@.wf(),
            final(self)@.bytes == old(self)@.bytes,
            r matches Ok(t) && lexed(old(self)@.bytes, old(self)@.offset) == Some(t@),
            final(self)@.offset == final(self)@.end,
            r matches Ok(t) && final(self)@.offset == t@.span.1,
            final(self)@.offset > old(self)@.offset,
    {
        let ghost p = self@.offset;
        let ghost bytes = self@.bytes;
        proof {
            crate::text::lemma_next_boundary(bytes, p);
            crate::text::lemma_scan_end_bounds(bytes, self@.end, IdentifierChar);
        }
        let _ = self.win.scan_while(IdentifierChar);
        let typ;
        let val;
        match keyword_of_bytes(self.win.as_bytes()) {
            Some(k) => {
                typ = TokenType::Keyword;
                val = TokenValue::Keyword(k);
            },
            None => {
                typ = TokenType::Identifier;
                val = TokenValue::Symbol(self.win.as_str().to_owned());
            },
        }
        self.emit(typ, val)
    }

    fn number(&mut self) -> (r: Result<Token, Error>)
        requires
            old(self)@.wf(),
            old(self)@.offset < old(self)@.bytes.len(),
            old(self)@.end == old(self)@.offset + width_at(old(self)@.bytes, old(self)@.offset),
            old(self)@.last == Some(char_at(old(self)@.bytes, old(self)@.offset)),
            starts_number(old(self)@.bytes, old(self)@.offset),
        ensures
            final(self)@.wf(),
            final(self)@.bytes == old(self)@.bytes,
            match r {
                Ok(t) => {
                    &&& lexed(old(self)@.bytes, old(self)@.offset) == Some(t@)
                    &&& final(self)@.offset == final(self)@.end
                    &&& final(self)@.offset == t@.span.1
                    &&& final(self)@.offset > old(self)@.offset
                },
                Err(e) => {
                    &&& lexed(old(self)@.bytes, old(self)@.offset) is None
                    &&& e is ParseIntError
                    &&& final(self)@.offset == old(self)@.offset
                },
            },
    {
        let ghost p = self@.offset;
        let ghost bytes = self@.bytes;
        proof {
            lemma_ascii_char_at(bytes, p);
        }
        if self.win.last_is('-') {
            proof {
                crate::text::lemma_next_boundary(bytes, p);
                lemma_ascii_char_at(bytes, p + 1);
            }
            let _ = self.win.take();
        }
        let ghost digits_start = self@.end;
        proof {
            crate::text::lemma_next_boundary(bytes, p);
            crate::text::lemma_scan_end_bounds(bytes, digits_start, AsciiDigit);
        }
        // Read all the digits
        let _ = self.win.scan_while(AsciiDigit);
        proof {
            lemma_scan_digits(bytes, digits_start);
            let text = bytes.subrange(p, self@.end);
            if char_at(bytes, p) == '-' {
                assert(bytes[p + 1] == text.drop_first()[0]);
                assert forall|k: int| 0 <= k < text.drop_first().len() implies is_digit_byte(
                    #[trigger] text.drop_first()[k],
                ) by {
                    assert(text.drop_first()[k] == bytes[p + 1 + k]);
                }
            } else {
                assert forall|k: int| 0 <= k < text.len() implies is_digit_byte(
                    #[trigger] text[k],
                ) by {
                    assert(text[k] == bytes[p + k]);
                }
            }
            assert(is_signed_decimal(text));
        }
        // Parse the number
        match parse_i64(self.win.as_str()) {
            Ok(num) => self.emit(TokenType::Number, TokenValue::Integer(num)),
            Err(e) => Err(Error::ParseIntError(e)),
        }
    }

    fn emit(&mut self, typ: TokenType, value: TokenValue) -> (r: Result<Token, Error>)
        requires
            old(self)@.wf(),
        ensures
            final(self)@ == (WindowView {
                offset: old(self)@.end,
                last: None,
                ..old(self)@
            }),
            final(self)@.wf(),
            r matches Ok(t) && t@ == (TokenView {
                span: (old(self)@.offset as usize, old(self)@.end as usize),
                typ,
                value: value@,
            }),
    {
        let span = self.win.span();
        self.win.advance();
        Ok(Token::new(span, typ, value))
    }
}

} // verus!
