use vstd::prelude::*;

verus! {

/// Half-open byte range `[start, end)` into the source text.
#[derive(Debug, Clone, Copy, PartialEq, Eq, Structural, Hash)]
pub struct RawSpan {
    start: u32,
    end: u32,
}

impl RawSpan {
    /// The start offset of the span.
    pub closed spec fn spec_start(&self) -> int {
        self.start as int
    }

    /// The end offset of the span.
    pub closed spec fn spec_end(&self) -> int {
        self.end as int
    }

    /// The span from `start` up to, not including, `end`.
    pub fn new(start: u32, end: u32) -> (r: Self)
        ensures
            r.spec_start() == start,
            r.spec_end() == end,
    {
        Self { start, end }
    }

    /// The offset of the first byte.
    pub fn start(&self) -> (r: u32)
        ensures
            r == self.spec_start(),
    {
        self.start
    }

    /// The offset just past the last byte.
    pub fn end(&self) -> (r: u32)
        ensures
            r == self.spec_end(),
    {
        self.end
    }
}

impl From<RawSpan> for std::ops::Range<usize> {
    fn from(span: RawSpan) -> (r: Self)
        ensures
            r.start == span.spec_start(),
            r.end == span.spec_end(),
    {
        span.start as usize..span.end as usize
    }
}

impl vstd::std_specs::convert::FromSpecImpl<RawSpan> for std::ops::Range<usize> {
    open spec fn obeys_from_spec() -> bool {
        true
    }

    open spec fn from_spec(span: RawSpan) -> std::ops::Range<usize> {
        std::ops::Range { start: span.spec_start() as usize, end: span.spec_end() as usize }
    }
}

} // verus!
