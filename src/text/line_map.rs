use vstd::prelude::*;
use vstd::string::StringSliceAdditionalSpecFns;

verus! {

/// Byte `i` ends a line: it is a line feed, or a carriage return that no line
/// feed follows (a `CR LF` pair ends its line at the line feed).
pub open spec fn is_line_break(bytes: Seq<u8>, i: int) -> bool {
    &&& 0 <= i < bytes.len()
    &&& (bytes[i] == 0x0A || (bytes[i] == 0x0D && (i + 1 == bytes.len() || bytes[i + 1] != 0x0A)))
}

/// The offsets of the line breaks among the first `n` bytes, in order.
pub open spec fn breaks_before(bytes: Seq<u8>, n: int) -> Seq<u64>
    decreases n,
{
    if n <= 0 {
        seq![]
    } else if is_line_break(bytes, n - 1) {
        breaks_before(bytes, n - 1).push((n - 1) as u64)
    } else {
        breaks_before(bytes, n - 1)
    }
}

/// The offsets of all line breaks of a text, in order.
pub open spec fn line_breaks_of(bytes: Seq<u8>) -> Seq<u64> {
    breaks_before(bytes, bytes.len() as int)
}

pub open spec fn strictly_increasing(s: Seq<u64>) -> bool {
    forall|i: int, j: int| 0 <= i < j < s.len() ==> s[i] < s[j]
}

/// The line of `offset`: the number of line breaks before it, which is the
/// index at which `offset` is found in, or would be inserted into, `breaks`.
pub open spec fn is_line_of(breaks: Seq<u64>, offset: u64, line: int) -> bool {
    &&& 0 <= line <= breaks.len()
    &&& forall|k: int| 0 <= k < line ==> breaks[k] < offset
    &&& forall|k: int| line <= k < breaks.len() ==> breaks[k] >= offset
}

/// The column of `offset` on `line`: the offset itself on the first line,
/// else its distance past the previous line's break, less one.
pub open spec fn column_of(breaks: Seq<u64>, offset: u64, line: int) -> int {
    if line == 0 {
        offset as int
    } else {
        offset - breaks[line - 1] - 1
    }
}

/// Represents a series of offsets within a text that represent the starting position
/// of each line.
pub struct LineMap {
    line_breaks: Vec<u64>,
}

impl View for LineMap {
    type V = Seq<u64>;

    closed spec fn view(&self) -> Seq<u64> {
        self.line_breaks@
    }
}

proof fn lemma_breaks_before_bounded(bytes: Seq<u8>, n: int)
    requires
        0 <= n <= bytes.len(),
        bytes.len() <= u64::MAX,
    ensures
        strictly_increasing(breaks_before(bytes, n)),
        forall|k: int| 0 <= k < breaks_before(bytes, n).len() ==> breaks_before(bytes, n)[k] < n,
    decreases n,
{
    if n > 0 {
        lemma_breaks_before_bounded(bytes, n - 1);
    }
}

impl LineMap {
    pub open spec fn wf(&self) -> bool {
        strictly_increasing(self@)
    }

    /// Creates a `LineMap` from the provided list of line breaks.
    pub fn new(line_breaks: Vec<u64>) -> (r: LineMap)
        requires
            strictly_increasing(line_breaks@),
        ensures
            r.wf(),
            r@ == line_breaks@,
    {
        LineMap { line_breaks }
    }

    /// Parses the provided string to find the line breaks and builds a `LineMap` from the result.
    ///
    /// Carriage returns and line feeds are single bytes that never occur inside the
    /// encoding of another character, so the scan can go byte by byte.
    pub fn parse(text: &str) -> (r: LineMap)
        ensures
            r.wf(),
            r@ == line_breaks_of(text.spec_bytes()),
    {
        let bytes = text.as_bytes();
        let n = bytes.len();
        let mut line_breaks: Vec<u64> = Vec::new();
        let mut i: usize = 0;
        while i < n
            invariant
                n == bytes@.len(),
                i <= n,
                line_breaks@ == breaks_before(bytes@, i as int),
            decreases n - i,
        {
            let c = bytes[i];
            if c == 0x0A || (c == 0x0D && (i + 1 == n || bytes[i + 1] != 0x0A)) {
                line_breaks.push(i as u64);
            }
            i = i + 1;
        }
        proof {
            lemma_breaks_before_bounded(bytes@, n as int);
        }
        LineMap::new(line_breaks)
    }

    /// Gets the list of line breaks.
    pub fn line_breaks(&self) -> (r: &[u64])
        ensures
            r@ == self@,
    {
        self.line_breaks.as_slice()
    }

    /// Maps the specified offset to a (`line`, `column`) pair.
    ///
    /// `line` is the 0-based line of the character; a line break counts as the
    /// last character of the line it ends.
    /// `column` is the 0-based column of the character within the line.
    pub fn map_offset(&self, offset: u64) -> (r: (u64, u64))
        requires
            self.wf(),
        ensures
            is_line_of(self@, offset, r.0 as int),
            r.1 as int == column_of(self@, offset, r.0 as int),
    {
        let breaks = &self.line_breaks;
        // Binary search for the number of line breaks before `offset`.
        let mut lo: usize = 0;
        let mut hi: usize = breaks.len();
        while lo < hi
            invariant
                breaks@ == self@,
                strictly_increasing(self@),
                0 <= lo <= hi <= breaks@.len(),
                forall|k: int| 0 <= k < lo ==> breaks@[k] < offset,
                forall|k: int| hi <= k < breaks@.len() ==> breaks@[k] >= offset,
            decreases hi - lo,
        {
            let mid = lo + (hi - lo) / 2;
            if breaks[mid] < offset {
                lo = mid + 1;
            } else {
                hi = mid;
            }
        }
        let line = lo;
        let col = if line == 0 {
            offset
        } else {
            offset - breaks[line - 1] - 1
        };
        (line as u64, col)
    }
}

/// Parsing the same text twice yields the same line map.
pub proof fn lemma_parse_is_deterministic(text: &str, a: LineMap, b: LineMap)
    requires
        a@ == line_breaks_of(text.spec_bytes()),
        b@ == line_breaks_of(text.spec_bytes()),
    ensures
        a@ == b@,
{
}

} // verus!
