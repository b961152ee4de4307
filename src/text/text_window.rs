use std::ops::{Range, RangeFrom, RangeFull, RangeInclusive, RangeTo, RangeToInclusive};

use vstd::prelude::*;
use vstd::slice::slice_subrange;
use vstd::string::StringSliceAdditionalSpecFns;
use vstd::utf8::*;

use crate::text::{Error, TextSpan};
use crate::utils::decode_utf8_character;

verus! {

broadcast use vstd::utf8::encode_utf8_valid_utf8;

/// The scalar value whose encoding starts at byte `i` of `bytes`.
pub open spec fn char_at(bytes: Seq<u8>, i: int) -> char {
    decode_first_scalar(bytes.subrange(i, bytes.len() as int)) as char
}

/// The width in bytes of the scalar value whose encoding starts at byte `i`.
pub open spec fn width_at(bytes: Seq<u8>, i: int) -> int {
    length_of_first_scalar(bytes.subrange(i, bytes.len() as int))
}

/// The character boundary at which the scalar value that ends at byte `e` starts.
pub open spec fn start_before(bytes: Seq<u8>, e: int) -> int {
    choose|p: int| 0 <= p < e && is_char_boundary(bytes, p) && p + width_at(bytes, p) == e
}

/// The scalar value whose encoding ends at byte `e`.
pub open spec fn char_before(bytes: Seq<u8>, e: int) -> char {
    char_at(bytes, start_before(bytes, e))
}

/// The most recently consumed character of a window whose cursor was moved to `e`.
pub open spec fn last_after(bytes: Seq<u8>, e: int) -> Option<char> {
    if e > 0 {
        Some(char_before(bytes, e))
    } else {
        None
    }
}

/// Where a scan from byte `i` stops: the first position whose character does
/// not satisfy `p`, or the end of the text.
pub open spec fn scan_end<P: CharPredicate>(bytes: Seq<u8>, i: int, p: P) -> int
    decreases bytes.len() - i,
{
    if 0 <= i < bytes.len() && 0 < width_at(bytes, i) <= bytes.len() - i && p.matches(
        char_at(bytes, i),
    ) {
        scan_end(bytes, i + width_at(bytes, i), p)
    } else {
        i
    }
}

/// A scan from `i` ends between `i` and the end of the text.
pub proof fn lemma_scan_end_bounds<P: CharPredicate>(bytes: Seq<u8>, i: int, p: P)
    requires
        0 <= i <= bytes.len(),
    ensures
        i <= scan_end(bytes, i, p) <= bytes.len(),
    decreases bytes.len() - i,
{
    if 0 <= i < bytes.len() && 0 < width_at(bytes, i) <= bytes.len() - i && p.matches(
        char_at(bytes, i),
    ) {
        lemma_scan_end_bounds(bytes, i + width_at(bytes, i), p);
    }
}

/// Moving from one character boundary over the character that starts there
/// lands on the next boundary, with no boundary in between.
pub proof fn lemma_next_boundary(bytes: Seq<u8>, i: int)
    requires
        valid_utf8(bytes),
        is_char_boundary(bytes, i),
        i < bytes.len(),
    ensures
        0 <= i,
        valid_first_scalar(bytes.subrange(i, bytes.len() as int)),
        1 <= width_at(bytes, i) <= bytes.len() - i,
        is_char_boundary(bytes, i + width_at(bytes, i)),
        forall|j: int| i < j < i + width_at(bytes, i) ==> !is_char_boundary(bytes, j),
    decreases bytes.len(),
{
    let w0 = length_of_first_scalar(bytes);
    let tail = pop_first_scalar(bytes);
    assert(valid_first_scalar(bytes));
    assert(valid_utf8(tail));
    if i == 0 {
        assert(bytes.subrange(0, bytes.len() as int) =~= bytes);
        assert(is_char_boundary(tail, 0));
        assert forall|j: int| i < j < i + width_at(bytes, i) implies !is_char_boundary(
            bytes,
            j,
        ) by {
            assert(is_char_boundary(bytes, j) == is_char_boundary(tail, j - w0));
        }
    } else {
        assert(is_char_boundary(tail, i - w0));
        lemma_next_boundary(tail, i - w0);
        assert(tail.subrange(i - w0, tail.len() as int) =~= bytes.subrange(
            i,
            bytes.len() as int,
        ));
        assert(is_char_boundary(bytes, i + width_at(bytes, i)) == is_char_boundary(
            tail,
            i - w0 + width_at(bytes, i),
        ));
        assert forall|j: int| i < j < i + width_at(bytes, i) implies !is_char_boundary(
            bytes,
            j,
        ) by {
            assert(is_char_boundary(bytes, j) == is_char_boundary(tail, j - w0));
        }
    }
}

/// A character boundary of a text stays one in every suffix that starts at
/// an earlier boundary.
pub proof fn lemma_boundary_in_suffix(bytes: Seq<u8>, i: int, j: int)
    requires
        valid_utf8(bytes),
        is_char_boundary(bytes, i),
        is_char_boundary(bytes, j),
        0 <= i <= j,
    ensures
        valid_utf8(bytes.subrange(i, bytes.len() as int)),
        is_char_boundary(bytes.subrange(i, bytes.len() as int), j - i),
    decreases bytes.len(),
{
    valid_utf8_split(bytes, i);
    if i == 0 {
        assert(bytes.subrange(0, bytes.len() as int) =~= bytes);
    } else {
        let w0 = length_of_first_scalar(bytes);
        let tail = pop_first_scalar(bytes);
        assert(is_char_boundary(tail, i - w0));
        assert(is_char_boundary(tail, j - w0));
        lemma_boundary_in_suffix(tail, i - w0, j - w0);
        assert(tail.subrange(i - w0, tail.len() as int) =~= bytes.subrange(
            i,
            bytes.len() as int,
        ));
    }
}

/// The abstract state of a window: the text's bytes, the committed start of
/// the current token, the cursor, and the most recently consumed character.
pub struct WindowView {
    pub bytes: Seq<u8>,
    pub offset: int,
    pub end: int,
    pub last: Option<char>,
}

impl WindowView {
    /// The text is valid UTF-8 and `offset <= end` are character boundaries in it.
    pub open spec fn wf(&self) -> bool {
        &&& valid_utf8(self.bytes)
        &&& self.bytes.len() <= usize::MAX
        &&& 0 <= self.offset <= self.end <= self.bytes.len()
        &&& is_char_boundary(self.bytes, self.offset)
        &&& is_char_boundary(self.bytes, self.end)
    }

    /// The bytes currently in the window.
    pub open spec fn content(&self) -> Seq<u8> {
        self.bytes.subrange(self.offset, self.end)
    }

    /// The window with its cursor moved back (or forward) to `new_end`.
    pub open spec fn backtracked(self, new_end: int) -> WindowView {
        WindowView { end: new_end, last: last_after(self.bytes, new_end), ..self }
    }
}

/// Backtracking to a cursor position observed earlier restores the window's
/// content and last character as they were then, whatever was taken since.
pub proof fn lemma_backtrack_restores(earlier: WindowView, later: WindowView)
    requires
        earlier.wf(),
        later.wf(),
        later.bytes == earlier.bytes,
        later.offset == earlier.offset,
        earlier.last == last_after(earlier.bytes, earlier.end),
    ensures
        later.backtracked(earlier.end).content() == earlier.content(),
        later.backtracked(earlier.end).end == earlier.end,
        later.backtracked(earlier.end).last == earlier.last,
{
}

/// Represents a sliding window of text.
pub struct TextWindow<'a> {
    buf: &'a str,
    offset: usize,
    end: usize,
    last: Option<char>,
}

impl<'a> View for TextWindow<'a> {
    type V = WindowView;

    closed spec fn view(&self) -> WindowView {
        WindowView {
            bytes: self.buf.spec_bytes(),
            offset: self.offset as int,
            end: self.end as int,
            last: self.last,
        }
    }
}

impl<'a> TextWindow<'a> {
    pub open spec fn wf(&self) -> bool {
        self@.wf()
    }

    pub fn new(buf: &'a str) -> (r: TextWindow<'a>)
        ensures
            r.wf(),
            r@ == (WindowView { bytes: buf.spec_bytes(), offset: 0, end: 0, last: None }),
    {
        // Taking the bytes as a slice establishes that their length fits in a `usize`.
        let _ = buf.as_bytes().len();
        TextWindow { buf, offset: 0, end: 0, last: None }
    }

    /// The byte at position `i` of the text.
    pub fn byte_at(&self, i: usize) -> (r: u8)
        requires
            self.wf(),
            i < self@.bytes.len(),
        ensures
            r == self@.bytes[i as int],
    {
        self.buf.as_bytes()[i]
    }

    pub fn offset(&self) -> (r: usize)
        ensures
            r == self@.offset,
    {
        self.offset
    }

    pub fn end(&self) -> (r: usize)
        ensures
            r == self@.end,
    {
        self.end
    }

    /// Gets the last item in the window as a `char`
    ///
    /// This is useful as it is usually the char callers are most interested in.
    pub fn last(&self) -> (r: Option<char>)
        ensures
            r == self@.last,
    {
        self.last
    }

    pub fn span(&self) -> (r: TextSpan)
        requires
            self.wf(),
        ensures
            r@ == (self@.offset as usize, self@.end as usize),
    {
        TextSpan::new(self.offset, self.end)
    }

    /// Gets a `str` that represents the current content of the window
    pub fn as_str(&self) -> (r: &str)
        requires
            self.wf(),
        ensures
            r.spec_bytes() == self@.content(),
            r@ == decode_utf8(self@.content()),
    {
        let bytes = Ghost(self.buf.spec_bytes());
        proof {
            lemma_boundary_in_suffix(bytes@, self.offset as int, self.end as int);
        }
        let (_, rest) = self.buf.split_at(self.offset);
        assert(rest.spec_bytes() =~= bytes@.subrange(self.offset as int, bytes@.len() as int));
        let (r, _) = rest.split_at(self.end - self.offset);
        assert(r.spec_bytes() =~= self@.content());
        proof {
            vstd::utf8::encode_utf8_decode_utf8(r@);
        }
        r
    }

    pub fn as_bytes(&self) -> (r: &[u8])
        requires
            self.wf(),
        ensures
            r@ == self@.content(),
    {
        slice_subrange(self.buf.as_bytes(), self.offset, self.end)
    }

    /// Load another character into the buffer
    ///
    /// ## Returns
    /// `true` if a character is successfully read in.
    /// `false` if end-of-file has been reached.
    pub fn take(&mut self) -> (r: Result<bool, Error>)
        requires
            old(self).wf(),
        ensures
            final(self).wf(),
            final(self)@.bytes == old(self)@.bytes,
            final(self)@.offset == old(self)@.offset,
            old(self)@.end < old(self)@.bytes.len() ==> {
                &&& r == Ok::<bool, Error>(true)
                &&& final(self)@.end == old(self)@.end + width_at(old(self)@.bytes, old(self)@.end)
                &&& final(self)@.last == Some(char_at(old(self)@.bytes, old(self)@.end))
            },
            old(self)@.end >= old(self)@.bytes.len() ==> {
                &&& r == Ok::<bool, Error>(false)
                &&& final(self)@.end == old(self)@.end
                &&& final(self)@.last is None
            },
    {
        self.take_if(..)
    }

    /// Takes the next character if it meets the predicate
    ///
    /// ## Returns
    /// `true` if a character is successfully read in.
    /// `false` if the predicate did not match OR end-of-file has been reached.
    pub fn take_if<P: CharPredicate>(&mut self, predicate: P) -> (r: Result<bool, Error>)
        requires
            old(self).wf(),
            predicate.decides(),
        ensures
            final(self).wf(),
            final(self)@.bytes == old(self)@.bytes,
            final(self)@.offset == old(self)@.offset,
            Self::took(old(self)@, final(self)@, r, predicate),
    {
        self.take_matching(&predicate)
    }

    /// What one step of `take_if` does: at the end of the text it clears
    /// `last`; where the next character satisfies `p` it moves over it;
    /// otherwise it changes nothing.
    pub open spec fn took<P: CharPredicate>(
        pre: WindowView,
        post: WindowView,
        r: Result<bool, Error>,
        p: P,
    ) -> bool {
        if pre.end >= pre.bytes.len() {
            &&& r == Ok::<bool, Error>(false)
            &&& post.end == pre.end
            &&& post.last is None
        } else if p.matches(char_at(pre.bytes, pre.end)) {
            &&& r == Ok::<bool, Error>(true)
            &&& post.end == pre.end + width_at(pre.bytes, pre.end)
            &&& post.last == Some(char_at(pre.bytes, pre.end))
        } else {
            &&& r == Ok::<bool, Error>(false)
            &&& post.end == pre.end
            &&& post.last == pre.last
        }
    }

    fn take_matching<P: CharPredicate>(&mut self, predicate: &P) -> (r: Result<bool, Error>)
        requires
            old(self).wf(),
            predicate.decides(),
        ensures
            final(self).wf(),
            final(self)@.bytes == old(self)@.bytes,
            final(self)@.offset == old(self)@.offset,
            Self::took(old(self)@, final(self)@, r, *predicate),
    {
        let bytes = self.buf.as_bytes();
        if self.end >= bytes.len() {
            self.last = None;
            Ok(false)
        } else {
            proof {
                lemma_next_boundary(bytes@, self.end as int);
            }
            let rest = slice_subrange(bytes, self.end, bytes.len());
            match decode_utf8_character(rest) {
                Some((c, width)) => {
                    if predicate.test(c) {
                        self.last = Some(c);
                        self.end = self.end + width;
                        Ok(true)
                    } else {
                        Ok(false)
                    }
                },
                None => Err(Error::InvalidText),
            }
        }
    }

    /// Resets the window back to the very beginning of the string.
    pub fn reset(&mut self)
        requires
            old(self).wf(),
        ensures
            final(self).wf(),
            final(self)@ == (WindowView { offset: 0, end: 0, last: None, ..old(self)@ }),
    {
        self.offset = 0;
        self.end = 0;
        self.last = None;
    }

    /// Reset the end point of the window to the provided offset, which must be
    /// a character boundary at or after the window's start; only values received
    /// from `.end()` are safe here.
    pub fn backtrack(&mut self, new_end: usize)
        requires
            old(self).wf(),
            old(self)@.offset <= new_end <= old(self)@.bytes.len(),
            is_char_boundary(old(self)@.bytes, new_end as int),
        ensures
            final(self).wf(),
            final(self)@ == old(self)@.backtracked(new_end as int),
    {
        let ghost bytes = self.buf.spec_bytes();
        self.end = new_end;
        self.last = if new_end > 0 {
            // Scan back to the previous char boundary
            let mut pos = new_end - 1;
            while !self.buf.is_char_boundary(pos)
                invariant
                    valid_utf8(bytes),
                    bytes == self.buf.spec_bytes(),
                    0 <= pos < new_end <= bytes.len(),
                    forall|k: int| pos < k < new_end ==> !is_char_boundary(bytes, k),
                decreases pos,
            {
                assert(pos != 0);
                pos = pos - 1;
            }
            proof {
                lemma_next_boundary(bytes, pos as int);
                let w = width_at(bytes, pos as int);
                if pos + w < new_end {
                    assert(!is_char_boundary(bytes, pos + w));
                }
                if pos + w > new_end {
                    assert(!is_char_boundary(bytes, new_end as int));
                }
                assert(pos + w == new_end);
                let p = start_before(bytes, new_end as int);
                assert(0 <= pos < new_end && is_char_boundary(bytes, pos as int) && pos + width_at(
                    bytes,
                    pos as int,
                ) == new_end);
                if p < pos {
                    lemma_next_boundary(bytes, p);
                    assert(!is_char_boundary(bytes, pos as int));
                }
                if p > pos {
                    assert(!is_char_boundary(bytes, p));
                }
                assert(p == pos);
            }
            let bytes_now = self.buf.as_bytes();
            let rest = slice_subrange(bytes_now, pos, bytes_now.len());
            match decode_utf8_character(rest) {
                Some((c, _)) => Some(c),
                None => None,
            }
        } else {
            None
        };
    }

    /// Advances the window to the point currently pointed to by `end`
    ///
    /// After this call, `.as_str()` will return an empty string until the next call
    /// to `take`
    pub fn advance(&mut self)
        requires
            old(self).wf(),
        ensures
            final(self).wf(),
            final(self)@ == (WindowView { offset: old(self)@.end, last: None, ..old(self)@ }),
    {
        self.offset = self.end;
        self.last = None;
    }

    /// Tests if the next character matches the provided predicate, without reading it into the buffer
    pub fn peek<P: CharPredicate>(&self, predicate: P) -> (r: bool)
        requires
            self.wf(),
            predicate.decides(),
        ensures
            r == (self@.end < self@.bytes.len() && predicate.matches(
                char_at(self@.bytes, self@.end),
            )),
    {
        let bytes = self.buf.as_bytes();
        if self.end >= bytes.len() {
            return false;
        }
        proof {
            lemma_next_boundary(bytes@, self.end as int);
        }
        let rest = slice_subrange(bytes, self.end, bytes.len());
        if let Some((c, _)) = decode_utf8_character(rest) {
            predicate.test(c)
        } else {
            false
        }
    }

    pub fn last_is<P: CharPredicate>(&self, predicate: P) -> (r: bool)
        requires
            predicate.decides(),
        ensures
            r == match self@.last {
                Some(c) => predicate.matches(c),
                None => false,
            },
    {
        match self.last() {
            Some(c) => predicate.test(c),
            None => false,
        }
    }

    /// Scans until a character that matches the predicate is found
    ///
    /// The window is expanded such that it contains all the matching characters
    /// but NO further characters.
    pub fn scan_while<P: CharPredicate>(&mut self, predicate: P) -> (r: Result<(), Error>)
        requires
            old(self).wf(),
            predicate.decides(),
        ensures
            final(self).wf(),
            r is Ok,
            final(self)@ == (WindowView {
                end: scan_end(old(self)@.bytes, old(self)@.end, predicate),
                last: last_after(
                    old(self)@.bytes,
                    scan_end(old(self)@.bytes, old(self)@.end, predicate),
                ),
                ..old(self)@
            }),
    {
        let ghost start = self@.end;
        let mut marker = self.end();
        loop
            invariant
                self.wf(),
                self@.bytes == old(self)@.bytes,
                self@.offset == old(self)@.offset,
                marker == self@.end,
                predicate.decides(),
                scan_end(self@.bytes, self@.end, predicate) == scan_end(
                    self@.bytes,
                    start,
                    predicate,
                ),
            ensures
                scan_end(self@.bytes, self@.end, predicate) == self@.end,
            decreases self@.bytes.len() - self@.end,
        {
            let ghost pre = self@;
            let took = self.take_matching(&predicate);
            match took {
                Ok(true) => {
                    proof {
                        lemma_next_boundary(pre.bytes, pre.end);
                    }
                    marker = self.end();
                },
                Ok(false) => {
                    assert(scan_end(self@.bytes, self@.end, predicate) == self@.end);
                    break ;
                },
                Err(e) => {
                    return Err(e);
                },
            }
        }
        self.backtrack(marker);
        Ok(())
    }

    /// The same as `scan_while` but inverts the predicate, such that the scan concludes when it returns `true`
    pub fn scan_until<P: CharPredicate>(&mut self, predicate: P) -> (r: Result<(), Error>)
        requires
            old(self).wf(),
            predicate.decides(),
        ensures
            final(self).wf(),
            r is Ok,
            final(self)@ == (WindowView {
                end: scan_end(old(self)@.bytes, old(self)@.end, InvertedCharScanPredicate(predicate)),
                last: last_after(
                    old(self)@.bytes,
                    scan_end(old(self)@.bytes, old(self)@.end, InvertedCharScanPredicate(predicate)),
                ),
                ..old(self)@
            }),
    {
        self.scan_while(predicate.invert())
    }
}

/// A test on a single character.
pub trait CharPredicate: Sized {
    /// Whether `c` satisfies the predicate.
    spec fn matches(&self, c: char) -> bool;

    /// The predicate can be tested on every character and answers
    /// `matches` each time.
    spec fn decides(&self) -> bool;

    fn test(&self, c: char) -> (r: bool)
        requires
            self.decides(),
        ensures
            r == self.matches(c),
    ;

    fn invert(self) -> (r: InvertedCharScanPredicate<Self>)
        ensures
            r == InvertedCharScanPredicate(self),
    ;
}

impl<F: Fn(char) -> bool> CharPredicate for F {
    open spec fn matches(&self, c: char) -> bool {
        call_ensures(*self, (c,), true)
    }

    open spec fn decides(&self) -> bool {
        &&& forall|c: char| call_requires(*self, (c,))
        &&& forall|c: char, r: bool| #[trigger] call_ensures(*self, (c,), r) ==> r == call_ensures(*self, (c,), true)
    }

    fn test(&self, c: char) -> (r: bool) {
        self(c)
    }

    fn invert(self) -> (r: InvertedCharScanPredicate<Self>) {
        InvertedCharScanPredicate(self)
    }
}

/// Relies on `RangeInclusive::start`: it returns the range's lower bound.
pub assume_specification<Idx>[ RangeInclusive::<Idx>::start ](r: &RangeInclusive<Idx>) -> (s: &Idx)
    ensures
        *s == r@.start,
;

/// Relies on `RangeInclusive::end`: it returns the range's upper bound.
pub assume_specification<Idx>[ RangeInclusive::<Idx>::end ](r: &RangeInclusive<Idx>) -> (s: &Idx)
    ensures
        *s == r@.end,
;

#[verifier::external_type_specification]
#[verifier::reject_recursive_types(Idx)]
pub struct ExRangeFrom<Idx>(RangeFrom<Idx>);

#[verifier::external_type_specification]
#[verifier::reject_recursive_types(Idx)]
pub struct ExRangeTo<Idx>(RangeTo<Idx>);

#[verifier::external_type_specification]
#[verifier::reject_recursive_types(Idx)]
pub struct ExRangeToInclusive<Idx>(RangeToInclusive<Idx>);

#[verifier::external_type_specification]
pub struct ExRangeFull(RangeFull);

impl CharPredicate for Range<char> {
    open spec fn matches(&self, c: char) -> bool {
        self.start <= c && c < self.end
    }

    open spec fn decides(&self) -> bool {
        true
    }

    fn test(&self, c: char) -> (r: bool) {
        self.start <= c && c < self.end
    }

    fn invert(self) -> (r: InvertedCharScanPredicate<Self>) {
        InvertedCharScanPredicate(self)
    }
}

impl CharPredicate for RangeFull {
    open spec fn matches(&self, c: char) -> bool {
        true
    }

    open spec fn decides(&self) -> bool {
        true
    }

    fn test(&self, _c: char) -> (r: bool) {
        true
    }

    fn invert(self) -> (r: InvertedCharScanPredicate<Self>) {
        InvertedCharScanPredicate(self)
    }
}

impl CharPredicate for RangeFrom<char> {
    open spec fn matches(&self, c: char) -> bool {
        self.start <= c
    }

    open spec fn decides(&self) -> bool {
        true
    }

    fn test(&self, c: char) -> (r: bool) {
        self.start <= c
    }

    fn invert(self) -> (r: InvertedCharScanPredicate<Self>) {
        InvertedCharScanPredicate(self)
    }
}

impl CharPredicate for RangeTo<char> {
    open spec fn matches(&self, c: char) -> bool {
        c < self.end
    }

    open spec fn decides(&self) -> bool {
        true
    }

    fn test(&self, c: char) -> (r: bool) {
        c < self.end
    }

    fn invert(self) -> (r: InvertedCharScanPredicate<Self>) {
        InvertedCharScanPredicate(self)
    }
}

impl CharPredicate for RangeToInclusive<char> {
    open spec fn matches(&self, c: char) -> bool {
        c <= self.end
    }

    open spec fn decides(&self) -> bool {
        true
    }

    fn test(&self, c: char) -> (r: bool) {
        c <= self.end
    }

    fn invert(self) -> (r: InvertedCharScanPredicate<Self>) {
        InvertedCharScanPredicate(self)
    }
}

impl CharPredicate for RangeInclusive<char> {
    open spec fn matches(&self, c: char) -> bool {
        self@.start <= c && c <= self@.end
    }

    /// An exhausted range (one iterated to its end) leaves out its upper bound,
    /// which this test cannot see; it answers only for ranges not exhausted.
    open spec fn decides(&self) -> bool {
        !self@.exhausted
    }

    fn test(&self, c: char) -> (r: bool) {
        *self.start() <= c && c <= *self.end()
    }

    fn invert(self) -> (r: InvertedCharScanPredicate<Self>) {
        InvertedCharScanPredicate(self)
    }
}

impl CharPredicate for char {
    open spec fn matches(&self, c: char) -> bool {
        c == *self
    }

    open spec fn decides(&self) -> bool {
        true
    }

    fn test(&self, c: char) -> (r: bool) {
        c == *self
    }

    fn invert(self) -> (r: InvertedCharScanPredicate<Self>) {
        InvertedCharScanPredicate(self)
    }
}

/// Holds exactly where the wrapped predicate does not.
pub struct InvertedCharScanPredicate<P: CharPredicate>(pub P);

impl<P: CharPredicate> CharPredicate for InvertedCharScanPredicate<P> {
    open spec fn matches(&self, c: char) -> bool {
        !self.0.matches(c)
    }

    open spec fn decides(&self) -> bool {
        self.0.decides()
    }

    fn test(&self, c: char) -> (r: bool) {
        !self.0.test(c)
    }

    fn invert(self) -> (r: InvertedCharScanPredicate<Self>) {
        InvertedCharScanPredicate(self)
    }
}

} // verus!
