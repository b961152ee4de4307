use vstd::prelude::*;

verus! {

/// A half-open range `[start, end)` of byte offsets into a source buffer.
#[derive(Debug, PartialEq, Eq, PartialOrd, Ord, Clone, Copy, Structural)]
pub struct TextSpan(usize, usize);

impl View for TextSpan {
    type V = (usize, usize);

    closed spec fn view(&self) -> (usize, usize) {
        (self.0, self.1)
    }
}

impl TextSpan {
    pub fn new(start: usize, end: usize) -> (r: TextSpan)
        requires
            start <= end,
        ensures
            r@ == (start, end),
    {
        TextSpan(start, end)
    }

    pub fn start(&self) -> (r: usize)
        ensures
            r == self@.0,
    {
        self.0
    }

    pub fn end(&self) -> (r: usize)
        ensures
            r == self@.1,
    {
        self.1
    }
}

} // verus!
