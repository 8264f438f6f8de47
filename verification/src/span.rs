use vstd::prelude::*;

verus! {

/// A half-open byte range in the original source text.
///
/// Spans are carried through every pipeline stage purely for diagnostics and
/// profiling attribution; they never affect execution semantics.
#[derive(Clone, Copy, Debug, PartialEq, Eq, Structural)]
pub struct Span {
    pub start: u32,
    pub len: u32,
}

impl Span {
    /// The span of a single source byte at index `idx`.
    pub fn single(idx: usize) -> (r: Span)
        requires
            idx <= u32::MAX,
        ensures
            r.start == idx,
            r.len == 1,
    {
        Span { start: idx as u32, len: 1 }
    }

    /// The span of the byte range `start..=end` (both indices inclusive),
    /// as used for a loop covering its opening and closing bracket.
    pub fn start_end(start: usize, end: usize) -> (r: Span)
        requires
            start <= end,
            end < u32::MAX,
        ensures
            r.start == start,
            r.start + r.len == end + 1,
    {
        Span { start: start as u32, len: (end + 1 - start) as u32 }
    }

    /// The smallest span covering both `self` and `other`: from the
    /// earlier of the two starts to the later of the two ends.
    pub fn until(&self, other: Span) -> (r: Span)
        requires
            self.start + self.len <= u32::MAX,
            other.start + other.len <= u32::MAX,
        ensures
            r.start == if self.start <= other.start {
                self.start
            } else {
                other.start
            },
            r.start + r.len == if self.start + self.len >= other.start + other.len {
                self.start + self.len
            } else {
                other.start + other.len
            },
    {
        let start = if self.start <= other.start {
            self.start
        } else {
            other.start
        };
        let end_a = self.start + self.len;
        let end_b = other.start + other.len;
        let end = if end_a >= end_b {
            end_a
        } else {
            end_b
        };
        Span { start, len: end - start }
    }

    /// The index of the first byte covered.
    pub fn start(&self) -> (r: usize)
        ensures
            r == self.start,
    {
        self.start as usize
    }

    /// The number of bytes covered.
    pub fn len(&self) -> (r: usize)
        ensures
            r == self.len,
    {
        self.len as usize
    }

    /// The index one past the last byte covered.
    pub fn end(&self) -> (r: usize)
        requires
            self.start + self.len <= usize::MAX,
        ensures
            r == self.start + self.len,
    {
        self.start as usize + self.len as usize
    }
}

impl Default for Span {
    /// The empty span at the origin, used for synthetic statements such as
    /// the terminal sentinel opcode.
    fn default() -> (r: Span)
        ensures
            r.start == 0,
            r.len == 0,
    {
        Span { start: 0, len: 0 }
    }
}

} // verus!
