//! Genomic coordinates: half-open intervals, strands, coding phases.

use vstd::prelude::*;

verus! {

/// A half-open interval `[start, stop)` of 0-based genomic positions.
#[derive(Clone, Copy, Debug, PartialEq, Eq, Structural)]
pub struct Interval {
    pub start: usize,
    pub stop: usize,
}

impl Interval {
    pub open spec fn wf(self) -> bool {
        self.start < self.stop
    }

    /// An interval must be nonempty.
    pub fn new(start: usize, stop: usize) -> (r: Option<Interval>)
        ensures
            r is Some <==> start < stop,
            r is Some ==> r->0 == (Interval { start, stop }),
    {
        if start < stop {
            Some(Interval { start, stop })
        } else {
            None
        }
    }

    pub open spec fn spec_contains(self, position: int) -> bool {
        self.start <= position < self.stop
    }

    pub fn contains(&self, position: usize) -> (r: bool)
        ensures
            r == self.spec_contains(position as int),
    {
        self.start <= position && position < self.stop
    }

    pub open spec fn spec_len(self) -> int {
        self.stop - self.start
    }

    pub fn len(&self) -> (r: usize)
        requires
            self.wf(),
        ensures
            r == self.spec_len(),
    {
        self.stop - self.start
    }
}

/// Which strand of the chromosome a transcript is read from.
#[derive(Clone, Copy, Debug, PartialEq, Eq, Structural)]
pub enum Strand {
    Plus,
    Minus,
}

/// Number of bases to remove from the 5' end of a coding segment to reach
/// its first complete codon.
#[derive(Clone, Copy, Debug, PartialEq, Eq, Structural)]
pub enum Phase {
    Zero,
    One,
    Two,
}

impl Phase {
    pub open spec fn spec_value(self) -> int {
        match self {
            Phase::Zero => 0,
            Phase::One => 1,
            Phase::Two => 2,
        }
    }

    pub fn value(self) -> (r: usize)
        ensures
            r == self.spec_value(),
    {
        match self {
            Phase::Zero => 0,
            Phase::One => 1,
            Phase::Two => 2,
        }
    }

    /// The phase a digit denotes.
    pub fn from_digit(d: u8) -> (r: Option<Phase>)
        ensures
            r is Some <==> (d == '0' as u8 || d == '1' as u8 || d == '2' as u8),
            r is Some ==> r->0.spec_value() == d - '0' as u8,
    {
        if d == '0' as u8 {
            Some(Phase::Zero)
        } else if d == '1' as u8 {
            Some(Phase::One)
        } else if d == '2' as u8 {
            Some(Phase::Two)
        } else {
            None
        }
    }
}

/// A coding segment: its genomic range and the phase of its first base.
#[derive(Clone, Copy, Debug, PartialEq, Eq, Structural)]
pub struct CDS {
    pub range: Interval,
    pub phase: Phase,
}

impl CDS {
    pub fn new(range: Interval, phase: Phase) -> (r: CDS)
        ensures
            r.range == range,
            r.phase == phase,
    {
        CDS { range, phase }
    }
}

} // verus!
