//! Consequence classification: the same rules drive the enumerator and
//! the observed-variant classifier.

use vstd::prelude::*;

use crate::annotation::{spec_find_cds, spec_find_intron, SeqAnnotation};
use crate::interval::{Interval, Phase, Strand, CDS};
use crate::mutation_type::MutationType;

verus! {

/// Number of flanking bases needed on each side of a coding site so that
/// a full codon of context is always available.
pub const FLANK: usize = 2;

pub open spec fn is_base(b: u8) -> bool {
    b == ('A' as u8) || b == ('C' as u8) || b == ('G' as u8) || b == ('T' as u8)
}

/// Watson-Crick complement; bases outside the alphabet stay themselves.
pub open spec fn spec_complement(b: u8) -> u8 {
    if b == ('A' as u8) {
        ('T' as u8)
    } else if b == ('T' as u8) {
        ('A' as u8)
    } else if b == ('C' as u8) {
        ('G' as u8)
    } else if b == ('G' as u8) {
        ('C' as u8)
    } else {
        b
    }
}

pub fn complement(b: u8) -> (r: u8)
    ensures
        r == spec_complement(b),
{
    if b == 'A' as u8 {
        'T' as u8
    } else if b == 'T' as u8 {
        'A' as u8
    } else if b == 'C' as u8 {
        'G' as u8
    } else if b == 'G' as u8 {
        'C' as u8
    } else {
        b
    }
}

pub open spec fn spec_base_index(b: u8) -> int {
    if b == ('A' as u8) {
        0
    } else if b == ('C' as u8) {
        1
    } else if b == ('G' as u8) {
        2
    } else {
        3
    }
}

/// One-letter amino acid code of codon number `i` (bases numbered in
/// alphabetical order), `*` for a stop codon.
#[verifier::opaque]
pub open spec fn spec_aa_of_index(i: int) -> u8 {
    if i == 0 {
        ('K' as u8)
    } else if i == 1 {
        ('N' as u8)
    } else if i == 2 {
        ('K' as u8)
    } else if i == 3 {
        ('N' as u8)
    } else if i == 4 {
        ('T' as u8)
    } else if i == 5 {
        ('T' as u8)
    } else if i == 6 {
        ('T' as u8)
    } else if i == 7 {
        ('T' as u8)
    } else if i == 8 {
        ('R' as u8)
    } else if i == 9 {
        ('S' as u8)
    } else if i == 10 {
        ('R' as u8)
    } else if i == 11 {
        ('S' as u8)
    } else if i == 12 {
        ('I' as u8)
    } else if i == 13 {
        ('I' as u8)
    } else if i == 14 {
        ('M' as u8)
    } else if i == 15 {
        ('I' as u8)
    } else if i == 16 {
        ('Q' as u8)
    } else if i == 17 {
        ('H' as u8)
    } else if i == 18 {
        ('Q' as u8)
    } else if i == 19 {
        ('H' as u8)
    } else if i == 20 {
        ('P' as u8)
    } else if i == 21 {
        ('P' as u8)
    } else if i == 22 {
        ('P' as u8)
    } else if i == 23 {
        ('P' as u8)
    } else if i == 24 {
        ('R' as u8)
    } else if i == 25 {
        ('R' as u8)
    } else if i == 26 {
        ('R' as u8)
    } else if i == 27 {
        ('R' as u8)
    } else if i == 28 {
        ('L' as u8)
    } else if i == 29 {
        ('L' as u8)
    } else if i == 30 {
        ('L' as u8)
    } else if i == 31 {
        ('L' as u8)
    } else if i == 32 {
        ('E' as u8)
    } else if i == 33 {
        ('D' as u8)
    } else if i == 34 {
        ('E' as u8)
    } else if i == 35 {
        ('D' as u8)
    } else if i == 36 {
        ('A' as u8)
    } else if i == 37 {
        ('A' as u8)
    } else if i == 38 {
        ('A' as u8)
    } else if i == 39 {
        ('A' as u8)
    } else if i == 40 {
        ('G' as u8)
    } else if i == 41 {
        ('G' as u8)
    } else if i == 42 {
        ('G' as u8)
    } else if i == 43 {
        ('G' as u8)
    } else if i == 44 {
        ('V' as u8)
    } else if i == 45 {
        ('V' as u8)
    } else if i == 46 {
        ('V' as u8)
    } else if i == 47 {
        ('V' as u8)
    } else if i == 48 {
        ('*' as u8)
    } else if i == 49 {
        ('Y' as u8)
    } else if i == 50 {
        ('*' as u8)
    } else if i == 51 {
        ('Y' as u8)
    } else if i == 52 {
        ('S' as u8)
    } else if i == 53 {
        ('S' as u8)
    } else if i == 54 {
        ('S' as u8)
    } else if i == 55 {
        ('S' as u8)
    } else if i == 56 {
        ('*' as u8)
    } else if i == 57 {
        ('C' as u8)
    } else if i == 58 {
        ('W' as u8)
    } else if i == 59 {
        ('C' as u8)
    } else if i == 60 {
        ('L' as u8)
    } else if i == 61 {
        ('F' as u8)
    } else if i == 62 {
        ('L' as u8)
    } else if i == 63 {
        ('F' as u8)
    } else {
        ('?' as u8)
    }
}

/// The amino acid a codon encodes; `?` when a base is not A, C, G or T.
pub open spec fn spec_amino_acid(c0: u8, c1: u8, c2: u8) -> u8 {
    if !is_base(c0) || !is_base(c1) || !is_base(c2) {
        ('?' as u8)
    } else {
        spec_aa_of_index(spec_base_index(c0) * 16 + spec_base_index(c1) * 4 + spec_base_index(c2))
    }
}

fn base_index(b: u8) -> (r: u8)
    requires
        is_base(b),
    ensures
        r == spec_base_index(b),
{
    if b == 'A' as u8 {
        0
    } else if b == 'C' as u8 {
        1
    } else if b == 'G' as u8 {
        2
    } else {
        3
    }
}

pub fn amino_acid(c0: u8, c1: u8, c2: u8) -> (r: u8)
    ensures
        r == spec_amino_acid(c0, c1, c2),
{
    let base_ok = (c0 == 'A' as u8 || c0 == 'C' as u8 || c0 == 'G' as u8 || c0 == 'T' as u8)
        && (c1 == 'A' as u8 || c1 == 'C' as u8 || c1 == 'G' as u8 || c1 == 'T' as u8)
        && (c2 == 'A' as u8 || c2 == 'C' as u8 || c2 == 'G' as u8 || c2 == 'T' as u8);
    if !base_ok {
        return '?' as u8;
    }
    proof {
        reveal(spec_aa_of_index);
    }
    let idx: u8 = base_index(c0) * 16 + base_index(c1) * 4 + base_index(c2);
    match idx {
        0u8 => ('K' as u8),
        1u8 => ('N' as u8),
        2u8 => ('K' as u8),
        3u8 => ('N' as u8),
        4u8 => ('T' as u8),
        5u8 => ('T' as u8),
        6u8 => ('T' as u8),
        7u8 => ('T' as u8),
        8u8 => ('R' as u8),
        9u8 => ('S' as u8),
        10u8 => ('R' as u8),
        11u8 => ('S' as u8),
        12u8 => ('I' as u8),
        13u8 => ('I' as u8),
        14u8 => ('M' as u8),
        15u8 => ('I' as u8),
        16u8 => ('Q' as u8),
        17u8 => ('H' as u8),
        18u8 => ('Q' as u8),
        19u8 => ('H' as u8),
        20u8 => ('P' as u8),
        21u8 => ('P' as u8),
        22u8 => ('P' as u8),
        23u8 => ('P' as u8),
        24u8 => ('R' as u8),
        25u8 => ('R' as u8),
        26u8 => ('R' as u8),
        27u8 => ('R' as u8),
        28u8 => ('L' as u8),
        29u8 => ('L' as u8),
        30u8 => ('L' as u8),
        31u8 => ('L' as u8),
        32u8 => ('E' as u8),
        33u8 => ('D' as u8),
        34u8 => ('E' as u8),
        35u8 => ('D' as u8),
        36u8 => ('A' as u8),
        37u8 => ('A' as u8),
        38u8 => ('A' as u8),
        39u8 => ('A' as u8),
        40u8 => ('G' as u8),
        41u8 => ('G' as u8),
        42u8 => ('G' as u8),
        43u8 => ('G' as u8),
        44u8 => ('V' as u8),
        45u8 => ('V' as u8),
        46u8 => ('V' as u8),
        47u8 => ('V' as u8),
        48u8 => ('*' as u8),
        49u8 => ('Y' as u8),
        50u8 => ('*' as u8),
        51u8 => ('Y' as u8),
        52u8 => ('S' as u8),
        53u8 => ('S' as u8),
        54u8 => ('S' as u8),
        55u8 => ('S' as u8),
        56u8 => ('*' as u8),
        57u8 => ('C' as u8),
        58u8 => ('W' as u8),
        59u8 => ('C' as u8),
        60u8 => ('L' as u8),
        61u8 => ('F' as u8),
        62u8 => ('L' as u8),
        63u8 => ('F' as u8),
        _ => '?' as u8,
    }
}

/// Splice-site or intronic call from position alone: a position inside an
/// intron is a splice site within two bases of either end of the intron,
/// intronic otherwise; outside any intron nothing is decided yet.
pub open spec fn spec_classify_by_position(position: int, intron: Option<Interval>) -> MutationType {
    match intron {
        Some(iv) => {
            if position - iv.start < 2 || iv.stop - position <= 2 {
                MutationType::SpliceSite
            } else {
                MutationType::Intronic
            }
        },
        None => MutationType::Unknown,
    }
}

pub fn classify_by_position(position: usize, overlapping_intron: &Option<Interval>) -> (r:
    MutationType)
    requires
        overlapping_intron is Some ==> overlapping_intron->0.spec_contains(position as int),
    ensures
        r == spec_classify_by_position(position as int, *overlapping_intron),
{
    match overlapping_intron {
        Some(iv) => {
            if position - iv.start < 2 || iv.stop - position <= 2 {
                MutationType::SpliceSite
            } else {
                MutationType::Intronic
            }
        },
        None => MutationType::Unknown,
    }
}

/// Decide the consequence of substituting `alt` at codon position `off`
/// of the codon `c0 c1 c2` (read 5' to 3' on the coding strand).
pub open spec fn spec_classify_codon(off: int, c0: u8, c1: u8, c2: u8, alt: u8, at_start: bool)
    -> MutationType {
    let a0 = if off == 0 { alt } else { c0 };
    let a1 = if off == 1 { alt } else { c1 };
    let a2 = if off == 2 { alt } else { c2 };
    let ref_aa = spec_amino_acid(c0, c1, c2);
    let alt_aa = spec_amino_acid(a0, a1, a2);
    if ref_aa == ('?' as u8) || alt_aa == ('?' as u8) {
        MutationType::Unknown
    } else if ref_aa == alt_aa {
        MutationType::Synonymous
    } else if alt_aa == ('*' as u8) {
        MutationType::Nonsense
    } else if ref_aa == ('*' as u8) {
        MutationType::StopLoss
    } else if at_start && c0 == ('A' as u8) && c1 == ('T' as u8) && c2 == ('G' as u8) {
        MutationType::StartCodon
    } else {
        MutationType::Missense
    }
}

/// Consequence of a coding point mutation. The codon is reconstructed
/// from the five-base context around the site using the phase of the
/// segment; minus-strand transcripts read the reverse complement.
/// `first_cds` is the first coding segment of the transcript.
#[verifier::opaque]
pub open spec fn spec_classify_coding(
    strand: Strand,
    first_cds: Option<CDS>,
    position: int,
    context: Seq<u8>,
    alt: u8,
    cds: CDS,
) -> MutationType {
    let phase = cds.phase.spec_value();
    let is_first = first_cds is Some && first_cds->0 == cds && phase == 0;
    if strand == Strand::Plus {
        let off = ((position - cds.range.start) % 3 + 3 - phase) % 3;
        let c0 = context[2 - off];
        let c1 = context[3 - off];
        let c2 = context[4 - off];
        let at_start = is_first && position - cds.range.start < 3;
        spec_classify_codon(off, c0, c1, c2, alt, at_start)
    } else {
        let off = ((cds.range.stop - 1 - position) % 3 + 3 - phase) % 3;
        let c0 = spec_complement(context[2 + off]);
        let c1 = spec_complement(context[1 + off]);
        let c2 = spec_complement(context[off]);
        let at_start = is_first && cds.range.stop - position <= 3;
        spec_classify_codon(off, c0, c1, c2, spec_complement(alt), at_start)
    }
}

pub fn classify_coding_mutation(
    strand: Strand,
    first_cds: Option<CDS>,
    position: usize,
    context: &[u8],
    alt: u8,
    cds: CDS,
) -> (r: MutationType)
    requires
        context@.len() == 5,
        cds.range.spec_contains(position as int),
    ensures
        r == spec_classify_coding(strand, first_cds, position as int, context@, alt, cds),
{
    proof {
        reveal(spec_classify_coding);
    }
    let phase = cds.phase.value();
    let is_first = match first_cds {
        Some(f) => {
            f.range.start == cds.range.start && f.range.stop == cds.range.stop && f.phase.value()
                == cds.phase.value() && phase == 0
        },
        None => false,
    };
    proof {
        if first_cds is Some {
            let f = first_cds->0;
            assert((f.range.start == cds.range.start && f.range.stop == cds.range.stop
                && f.phase.spec_value() == cds.phase.spec_value()) <==> f == cds) by {
                if f.range.start == cds.range.start && f.range.stop == cds.range.stop
                    && f.phase.spec_value() == cds.phase.spec_value() {
                    assert(f.range == cds.range);
                    assert(f.phase == cds.phase);
                }
            };
        }
    }
    if matches!(strand, Strand::Plus) {
        let rel = position - cds.range.start;
        let off = ((rel % 3) + 3 - phase) % 3;
        proof {
            assert(off == ((position - cds.range.start) % 3 + 3 - cds.phase.spec_value()) % 3);
        }
        let c0 = context[2 - off];
        let c1 = context[3 - off];
        let c2 = context[4 - off];
        let at_start = is_first && rel < 3;
        classify_codon(off, c0, c1, c2, alt, at_start)
    } else {
        let rel = cds.range.stop - 1 - position;
        let off = ((rel % 3) + 3 - phase) % 3;
        proof {
            assert(off == ((cds.range.stop - 1 - position) % 3 + 3 - cds.phase.spec_value()) % 3);
        }
        let c0 = complement(context[2 + off]);
        let c1 = complement(context[1 + off]);
        let c2 = complement(context[off]);
        let at_start = is_first && cds.range.stop - position <= 3;
        classify_codon(off, c0, c1, c2, complement(alt), at_start)
    }
}

fn classify_codon(off: usize, c0: u8, c1: u8, c2: u8, alt: u8, at_start: bool) -> (r: MutationType)
    ensures
        r == spec_classify_codon(off as int, c0, c1, c2, alt, at_start),
{
    let a0 = if off == 0 { alt } else { c0 };
    let a1 = if off == 1 { alt } else { c1 };
    let a2 = if off == 2 { alt } else { c2 };
    let ref_aa = amino_acid(c0, c1, c2);
    let alt_aa = amino_acid(a0, a1, a2);
    if ref_aa == '?' as u8 || alt_aa == '?' as u8 {
        MutationType::Unknown
    } else if ref_aa == alt_aa {
        MutationType::Synonymous
    } else if alt_aa == '*' as u8 {
        MutationType::Nonsense
    } else if ref_aa == '*' as u8 {
        MutationType::StopLoss
    } else if at_start && c0 == 'A' as u8 && c1 == 'T' as u8 && c2 == 'G' as u8 {
        MutationType::StartCodon
    } else {
        MutationType::Missense
    }
}

/// Inside an intron a position is decided there; otherwise a position in
/// a coding segment is decided by the codon it disturbs; anything else
/// stays unknown.
#[verifier::opaque]
pub open spec fn spec_classify_point(
    anno: SeqAnnotation,
    seq: Seq<u8>,
    position: int,
    alt: u8,
) -> MutationType {
    let by_pos = spec_classify_by_position(
        position,
        spec_find_intron(anno.exons@, position),
    );
    if by_pos != MutationType::Unknown {
        by_pos
    } else {
        match spec_find_cds(anno.coding_sequences@, position) {
            Some(cds) => {
                let context = seq.subrange(
                    position - anno.range.start,
                    position - anno.range.start + 5,
                );
                let first = if anno.coding_sequences@.len() > 0 {
                    Some(anno.coding_sequences@[0])
                } else {
                    None
                };
                spec_classify_coding(anno.strand, first, position, context, alt, cds)
            },
            None => MutationType::Unknown,
        }
    }
}

pub proof fn lemma_find_intron_contains(exons: Seq<Interval>, position: int)
    requires
        spec_find_intron(exons, position) is Some,
    ensures
        spec_find_intron(exons, position)->0.spec_contains(position),
    decreases exons.len(),
{
    if exons.len() < 2 {
    } else if exons[0].stop <= position < exons[1].start {
    } else {
        lemma_find_intron_contains(exons.skip(1), position);
    }
}

pub proof fn lemma_find_cds_contains(cdss: Seq<CDS>, position: int)
    requires
        spec_find_cds(cdss, position) is Some,
    ensures
        spec_find_cds(cdss, position)->0.range.spec_contains(position),
    decreases cdss.len(),
{
    if cdss.len() == 0 {
    } else if cdss[0].range.spec_contains(position) {
    } else {
        lemma_find_cds_contains(cdss.skip(1), position);
    }
}

/// Classify a single point substitution at `position` against `anno`.
/// `seq` is the reference sequence of the annotation's range with `FLANK`
/// extra bases on each side.
pub fn classify_point(anno: &SeqAnnotation, seq: &[u8], position: usize, alt: u8) -> (r:
    MutationType)
    requires
        anno.range.spec_contains(position as int),
        seq@.len() == anno.range.spec_len() + 2 * FLANK,
    ensures
        r == spec_classify_point(*anno, seq@, position as int, alt),
{
    proof {
        reveal(spec_classify_point);
    }
    let intron = anno.find_intron(position);
    proof {
        if intron is Some {
            lemma_find_intron_contains(anno.exons@, position as int);
        }
    }
    let by_pos = classify_by_position(position, &intron);
    if !matches!(by_pos, MutationType::Unknown) {
        return by_pos;
    }
    match anno.find_cds(position) {
        Some(cds) => {
            proof {
                lemma_find_cds_contains(anno.coding_sequences@, position as int);
            }
            let lo = position - anno.range.start;
            let n = seq.len();
            proof {
                assert(lo + 5 <= n);
            }
            let context = slice_subrange(seq, lo, lo + 5);
            let first = if has_coding_sequences(anno) {
                Some(anno.coding_sequences[0])
            } else {
                None
            };
            classify_coding_mutation(anno.strand, first, position, context, alt, cds)
        },
        None => MutationType::Unknown,
    }
}

fn has_coding_sequences(anno: &SeqAnnotation) -> (r: bool)
    ensures
        r == (anno.coding_sequences@.len() > 0),
{
    anno.coding_sequences.len() > 0
}

fn slice_subrange(s: &[u8], lo: usize, hi: usize) -> (r: &[u8])
    requires
        0 <= lo <= hi <= s@.len(),
    ensures
        r@ == s@.subrange(lo as int, hi as int),
{
    vstd::slice::slice_subrange(s, lo, hi)
}

/// Consequence of an indel anchored at `position`: if the span past the
/// anchor base touches a coding segment it is a frameshift or in-frame
/// indel by net length, else intronic.
pub open spec fn spec_classify_indel(
    anno: SeqAnnotation,
    position: int,
    frameshift: bool,
) -> MutationType {
    if spec_find_cds(anno.coding_sequences@, position + 1) is Some {
        if frameshift {
            MutationType::FrameshiftIndel
        } else {
            MutationType::InFrameIndel
        }
    } else {
        MutationType::Intronic
    }
}

pub fn classify_indel(anno: &SeqAnnotation, position: usize, frameshift: bool) -> (r: MutationType)
    requires
        position < usize::MAX,
    ensures
        r == spec_classify_indel(*anno, position as int, frameshift),
{
    if anno.find_cds(position + 1).is_some() {
        if frameshift {
            MutationType::FrameshiftIndel
        } else {
            MutationType::InFrameIndel
        }
    } else {
        MutationType::Intronic
    }
}

} // verus!
