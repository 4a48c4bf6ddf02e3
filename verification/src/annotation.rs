//! The normalized transcript record and its positional queries.

use vstd::prelude::*;

use crate::interval::{Interval, Phase, Strand, CDS};

verus! {

/// A transcript: its name, chromosome, overall range, strand, exons in
/// transcription order, and coding segments in transcription order.
#[derive(Debug, Clone, PartialEq)]
pub struct SeqAnnotation {
    pub name: Vec<u8>,
    pub chr: Vec<u8>,
    pub range: Interval,
    pub strand: Strand,
    pub exons: Vec<Interval>,
    pub coding_sequences: Vec<CDS>,
}

/// The gap between two consecutive exons that contains `position`.
pub open spec fn spec_find_intron(exons: Seq<Interval>, position: int) -> Option<Interval>
    decreases exons.len(),
{
    if exons.len() < 2 {
        None
    } else if exons[0].stop <= position < exons[1].start {
        Some(Interval { start: exons[0].stop, stop: exons[1].start })
    } else {
        spec_find_intron(exons.skip(1), position)
    }
}

/// The first coding segment whose range contains `position`.
pub open spec fn spec_find_cds(cdss: Seq<CDS>, position: int) -> Option<CDS>
    decreases cdss.len(),
{
    if cdss.len() == 0 {
        None
    } else if cdss[0].range.spec_contains(position) {
        Some(cdss[0])
    } else {
        spec_find_cds(cdss.skip(1), position)
    }
}

impl SeqAnnotation {
    /// Structural well-formedness: nonempty range, exons and coding
    /// segments well formed, inside the overall range, and exons in
    /// genomic order without overlap.
    pub open spec fn wf(self) -> bool {
        &&& self.range.wf()
        &&& forall|i: int|
            0 <= i < self.exons@.len() ==> (#[trigger] self.exons@[i]).wf()
                && self.range.start <= self.exons@[i].start && self.exons@[i].stop
                <= self.range.stop
        &&& forall|i: int|
            0 <= i < self.exons@.len() - 1 ==> (#[trigger] self.exons@[i]).stop <= self.exons@[i
                + 1].start
        &&& forall|i: int|
            0 <= i < self.coding_sequences@.len() ==> (#[trigger] self.coding_sequences@[i]).range.wf()
                && self.range.start <= self.coding_sequences@[i].range.start
                && self.coding_sequences@[i].range.stop <= self.range.stop
    }

    pub fn new(
        name: Vec<u8>,
        chr: Vec<u8>,
        range: Interval,
        strand: Strand,
        exons: Vec<Interval>,
        coding_sequences: Vec<CDS>,
    ) -> (r: SeqAnnotation)
        ensures
            r.name == name,
            r.chr == chr,
            r.range == range,
            r.strand == strand,
            r.exons == exons,
            r.coding_sequences == coding_sequences,
    {
        SeqAnnotation { name, chr, range, strand, exons, coding_sequences }
    }

    /// The intron (gap between consecutive exons) containing `position`,
    /// if any.
    pub fn find_intron(&self, position: usize) -> (r: Option<Interval>)
        ensures
            r == spec_find_intron(self.exons@, position as int),
    {
        let mut i: usize = 0;
        let n = self.exons.len();
        if n < 2 {
            return None;
        }
        proof {
            assert(self.exons@.skip(0) =~= self.exons@);
        }
        while i + 1 < n
            invariant
                0 <= i <= self.exons@.len() - 1,
                n == self.exons@.len(),
                spec_find_intron(self.exons@, position as int) == spec_find_intron(
                    self.exons@.skip(i as int),
                    position as int,
                ),
            decreases n - i,
        {
            if self.exons[i].stop <= position && position < self.exons[i + 1].start {
                proof {
                    assert(self.exons@.skip(i as int)[0] == self.exons@[i as int]);
                    assert(self.exons@.skip(i as int)[1] == self.exons@[i as int + 1]);
                }
                return Some(
                    Interval { start: self.exons[i].stop, stop: self.exons[i + 1].start },
                );
            }
            proof {
                let sk = self.exons@.skip(i as int);
                assert(sk[0] == self.exons@[i as int]);
                assert(sk[1] == self.exons@[i as int + 1]);
                assert(sk.skip(1) =~= self.exons@.skip(i as int + 1));
            }
            i = i + 1;
        }
        proof {
            assert(self.exons@.skip(i as int).len() < 2);
        }
        None
    }

    /// The first coding segment containing `position`, if any.
    pub fn find_cds(&self, position: usize) -> (r: Option<CDS>)
        ensures
            r == spec_find_cds(self.coding_sequences@, position as int),
    {
        let mut i: usize = 0;
        let n = self.coding_sequences.len();
        proof {
            assert(self.coding_sequences@.skip(0) =~= self.coding_sequences@);
        }
        while i < n
            invariant
                0 <= i <= self.coding_sequences@.len(),
                n == self.coding_sequences@.len(),
                spec_find_cds(self.coding_sequences@, position as int) == spec_find_cds(
                    self.coding_sequences@.skip(i as int),
                    position as int,
                ),
            decreases n - i,
        {
            proof {
                let sk = self.coding_sequences@.skip(i as int);
                assert(sk[0] == self.coding_sequences@[i as int]);
                assert(sk.skip(1) =~= self.coding_sequences@.skip(i as int + 1));
            }
            if self.coding_sequences[i].range.contains(position) {
                return Some(self.coding_sequences[i]);
            }
            i = i + 1;
        }
        proof {
            assert(self.coding_sequences@.skip(i as int).len() == 0);
        }
        None
    }
}

} // verus!
