//! A plain `[start, end)` byte range, ordered by its size.
use vstd::prelude::*;

verus! {

/// A byte range `[start, end)`.
#[derive(Debug, Default, Copy, Clone)]
pub struct Hole {
    /// First byte of the range.
    pub start: usize,
    /// First byte past the range.
    pub end: usize,
}

/// The bytes a hole covers, counting a backwards range as empty.
pub open spec fn hole_size(h: Hole) -> int {
    if h.start <= h.end {
        h.end - h.start
    } else {
        0
    }
}

impl Hole {
    /// Builds the range `[start, end)`.
    pub fn new(start: usize, end: usize) -> (h: Self)
        ensures
            h == (Hole { start, end }),
    {
        Hole { start, end }
    }

    /// Empties the range.
    pub fn reset(&mut self)
        ensures
            *final(self) == (Hole { start: 0, end: 0 }),
    {
        self.end = 0;
        self.start = 0;
    }

    /// How many bytes the range covers.
    pub fn size(&self) -> (r: usize)
        requires
            self.start <= self.end,
        ensures
            r == hole_size(*self),
    {
        self.end - self.start
    }
}

impl PartialEq for Hole {
    /// Holes are equal when both bounds are.
    fn eq(&self, other: &Hole) -> (r: bool) {
        self.start == other.start && self.end == other.end
    }
}

impl vstd::std_specs::cmp::PartialEqSpecImpl for Hole {
    open spec fn obeys_eq_spec() -> bool {
        true
    }

    open spec fn eq_spec(&self, other: &Hole) -> bool {
        self.start == other.start && self.end == other.end
    }
}

impl Eq for Hole {

}

impl PartialOrd for Hole {
    /// Holes are ordered by size alone.
    fn partial_cmp(&self, other: &Hole) -> (r: Option<core::cmp::Ordering>) {
        let a = if self.start <= self.end {
            self.end - self.start
        } else {
            0
        };
        let b = if other.start <= other.end {
            other.end - other.start
        } else {
            0
        };
        if a < b {
            Some(core::cmp::Ordering::Less)
        } else if a == b {
            Some(core::cmp::Ordering::Equal)
        } else {
            Some(core::cmp::Ordering::Greater)
        }
    }
}

impl vstd::std_specs::cmp::PartialOrdSpecImpl for Hole {
    open spec fn obeys_partial_cmp_spec() -> bool {
        true
    }

    open spec fn partial_cmp_spec(&self, other: &Hole) -> Option<core::cmp::Ordering> {
        if hole_size(*self) < hole_size(*other) {
            Some(core::cmp::Ordering::Less)
        } else if hole_size(*self) == hole_size(*other) {
            Some(core::cmp::Ordering::Equal)
        } else {
            Some(core::cmp::Ordering::Greater)
        }
    }
}

} // verus!
