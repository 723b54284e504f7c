use vstd::prelude::*;

verus! {

/// A half-open `[start, end)` byte interval within a source buffer.
///
/// Outer ranges compare before inner ones at the same start, so the
/// total order used when scopes are sorted is `(start asc, end desc)`.
#[derive(Debug, Clone, Copy, PartialEq, Eq, Structural)]
pub struct ByteRange {
    pub start: usize,
    pub end: usize,
}

impl ByteRange {
    /// Containment of byte intervals: `self` covers every byte of `other`.
    pub open spec fn spec_contains(self, other: ByteRange) -> bool {
        self.start <= other.start && self.end >= other.end
    }

    pub fn contains(&self, other: &Self) -> (r: bool)
        ensures
            r == self.spec_contains(*other),
    {
        self.start <= other.start && self.end >= other.end
    }

    /// Width of the interval; ill-formed ranges (`end < start`) count as empty.
    pub open spec fn spec_width(self) -> int {
        if self.end >= self.start {
            self.end - self.start
        } else {
            0
        }
    }

    pub fn width(&self) -> (r: usize)
        ensures
            r == self.spec_width(),
    {
        if self.end >= self.start {
            self.end - self.start
        } else {
            0
        }
    }
}

/// The total order of byte ranges: by start ascending, and at the same
/// start the wider (outer) range first, so enclosing ranges precede the
/// ranges inside them.
impl PartialOrd for ByteRange {
    fn partial_cmp(&self, other: &Self) -> (r: Option<core::cmp::Ordering>) {
        if self.start < other.start {
            Some(core::cmp::Ordering::Less)
        } else if self.start > other.start {
            Some(core::cmp::Ordering::Greater)
        } else if self.end > other.end {
            Some(core::cmp::Ordering::Less)
        } else if self.end < other.end {
            Some(core::cmp::Ordering::Greater)
        } else {
            Some(core::cmp::Ordering::Equal)
        }
    }
}

impl vstd::std_specs::cmp::PartialOrdSpecImpl for ByteRange {
    open spec fn obeys_partial_cmp_spec() -> bool {
        true
    }

    open spec fn partial_cmp_spec(&self, other: &Self) -> Option<core::cmp::Ordering> {
        if self.start < other.start {
            Some(core::cmp::Ordering::Less)
        } else if self.start > other.start {
            Some(core::cmp::Ordering::Greater)
        } else if self.end > other.end {
            Some(core::cmp::Ordering::Less)
        } else if self.end < other.end {
            Some(core::cmp::Ordering::Greater)
        } else {
            Some(core::cmp::Ordering::Equal)
        }
    }
}

} // verus!
