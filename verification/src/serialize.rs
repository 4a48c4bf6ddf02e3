//! Text formats of the persisted artifacts. Every artifact is a byte
//! string; the callers read and write the actual files.

use vstd::prelude::*;

use crate::annotation::SeqAnnotation;
use crate::interval::{Interval, Phase, Strand, CDS};
use crate::mutation_type::MutationType;
use crate::text::{
    all_digits, bytes_eq, dec_digits, dec_value, parse_usize, render_usize, spec_split, split,
    views,
};
use crate::transform::{annotation_views, spec_strand_of, AnnotationView};

verus! {

/// `start-stop` of a half-open interval.
pub open spec fn spec_render_interval(iv: Interval) -> Seq<u8> {
    dec_digits(iv.start as nat) + seq![('-' as u8)] + dec_digits(iv.stop as nat)
}

pub fn render_interval(iv: &Interval) -> (r: Vec<u8>)
    ensures
        r@ == spec_render_interval(*iv),
{
    let mut r = render_usize(iv.start);
    r.push('-' as u8);
    let mut e = render_usize(iv.stop);
    append_bytes(&mut r, &e);
    proof {
        assert(r@ =~= spec_render_interval(*iv));
    }
    r
}

/// The interval a `start-stop` field denotes; a degenerate range with
/// `start >= stop` is malformed.
pub open spec fn spec_parse_interval(s: Seq<u8>) -> Option<Interval> {
    let ps = spec_split(s, ('-' as u8));
    if ps.len() == 2 && ps[0].len() > 0 && all_digits(ps[0]) && dec_value(ps[0]) <= usize::MAX
        && ps[1].len() > 0 && all_digits(ps[1]) && dec_value(ps[1]) <= usize::MAX && dec_value(
        ps[0],
    ) < dec_value(ps[1]) {
        Some(Interval { start: dec_value(ps[0]) as usize, stop: dec_value(ps[1]) as usize })
    } else {
        None
    }
}

pub fn parse_interval(s: &[u8]) -> (r: Option<Interval>)
    ensures
        r == spec_parse_interval(s@),
{
    let pieces = split(s, '-' as u8);
    if pieces.len() != 2 {
        return None;
    }
    proof {
        assert(views(pieces@)[0] == pieces@[0]@);
        assert(views(pieces@)[1] == pieces@[1]@);
    }
    let start = match parse_usize(&pieces[0]) {
        Some(v) => v,
        None => {
            return None;
        },
    };
    let stop = match parse_usize(&pieces[1]) {
        Some(v) => v,
        None => {
            return None;
        },
    };
    if start < stop {
        Some(Interval { start, stop })
    } else {
        None
    }
}

/// Parsing a rendered interval gives back the interval: the round trip
/// law of the `start-stop` field format, for nonempty intervals.
pub proof fn lemma_interval_round_trip(iv: Interval)
    requires
        iv.wf(),
    ensures
        spec_parse_interval(spec_render_interval(iv)) == Some(iv),
{
    let sp = dec_digits(iv.start as nat);
    let ep = dec_digits(iv.stop as nat);
    crate::text::lemma_dec_digits_are_digits(iv.start as nat);
    crate::text::lemma_dec_digits_are_digits(iv.stop as nat);
    crate::text::lemma_dec_value_of_digits(iv.start as nat);
    crate::text::lemma_dec_value_of_digits(iv.stop as nat);
    assert(crate::text::piece_free(sp, ('-' as u8))) by {
        assert(forall|i: int| 0 <= i < sp.len() ==> crate::text::is_digit(#[trigger] sp[i]));
    };
    assert(crate::text::piece_free(ep, ('-' as u8))) by {
        assert(forall|i: int| 0 <= i < ep.len() ==> crate::text::is_digit(#[trigger] ep[i]));
    };
    crate::text::lemma_split_peel(sp, ep, ('-' as u8));
    crate::text::lemma_split_free(ep, ('-' as u8));
    assert(spec_render_interval(iv) =~= sp + seq![('-' as u8)] + ep);
    let ps = spec_split(spec_render_interval(iv), ('-' as u8));
    assert(ps =~~= seq![sp] + seq![ep]);
    assert(ps[0] == sp && ps[1] == ep);
}

pub open spec fn spec_render_strand(s: Strand) -> Seq<u8> {
    match s {
        Strand::Plus => seq![('+' as u8)],
        Strand::Minus => seq![('-' as u8)],
    }
}

/// Semicolon-joined interval list.
pub open spec fn spec_render_intervals(ivs: Seq<Interval>) -> Seq<u8> {
    crate::text::spec_join(ivs.map_values(|iv: Interval| spec_render_interval(iv)), (';' as u8))
}

/// Semicolon-joined phase digits.
pub open spec fn spec_render_phases(cdss: Seq<CDS>) -> Seq<u8> {
    crate::text::spec_join(
        cdss.map_values(|c: CDS| seq![(('0' as u8) + c.phase.spec_value()) as u8]),
        (';' as u8),
    )
}

/// One line of the genomic-regions artifact.
pub open spec fn spec_render_region_line(a: AnnotationView) -> Seq<u8> {
    a.name + seq![('\t' as u8)] + a.chr + seq![('\t' as u8)] + spec_render_strand(a.strand) + seq![
        ('\t' as u8),
    ] + spec_render_interval(a.range) + seq![('\t' as u8)] + spec_render_intervals(a.exons) + seq![
        ('\t' as u8),
    ] + spec_render_intervals(a.coding_sequences.map_values(|c: CDS| c.range)) + seq![
        ('\t' as u8),
    ] + spec_render_phases(a.coding_sequences)
}

/// The first `i` regions rendered, one line each.
pub open spec fn spec_render_regions(annos: Seq<AnnotationView>, i: int) -> Seq<u8>
    decreases i,
{
    if i <= 0 {
        Seq::empty()
    } else {
        spec_render_regions(annos, i - 1) + spec_render_region_line(annos[i - 1]) + seq![
            ('\n' as u8),
        ]
    }
}

fn render_strand(s: Strand) -> (r: Vec<u8>)
    ensures
        r@ == spec_render_strand(s),
{
    let mut r: Vec<u8> = Vec::new();
    match s {
        Strand::Plus => r.push('+' as u8),
        Strand::Minus => r.push('-' as u8),
    }
    proof {
        assert(r@ =~= spec_render_strand(s));
    }
    r
}

fn render_intervals(ivs: &Vec<Interval>) -> (r: Vec<u8>)
    ensures
        r@ == spec_render_intervals(ivs@),
{
    let mut pieces: Vec<Vec<u8>> = Vec::new();
    let mut i: usize = 0;
    while i < ivs.len()
        invariant
            0 <= i <= ivs@.len(),
            views(pieces@) =~= ivs@.take(i as int).map_values(
                |iv: Interval| spec_render_interval(iv),
            ),
        decreases ivs@.len() - i,
    {
        pieces.push(render_interval(&ivs[i]));
        proof {
            assert(ivs@.take(i as int + 1).map_values(|iv: Interval| spec_render_interval(iv))
                =~= ivs@.take(i as int).map_values(|iv: Interval| spec_render_interval(iv)).push(
                spec_render_interval(ivs@[i as int]),
            ));
        }
        i = i + 1;
    }
    proof {
        assert(ivs@.take(ivs@.len() as int) =~= ivs@);
    }
    crate::text::join(&pieces, ';' as u8)
}

fn render_cds_ranges(cdss: &Vec<CDS>) -> (r: Vec<u8>)
    ensures
        r@ == spec_render_intervals(cdss@.map_values(|c: CDS| c.range)),
{
    let mut ivs: Vec<Interval> = Vec::new();
    let mut i: usize = 0;
    while i < cdss.len()
        invariant
            0 <= i <= cdss@.len(),
            ivs@ =~= cdss@.take(i as int).map_values(|c: CDS| c.range),
        decreases cdss@.len() - i,
    {
        ivs.push(cdss[i].range);
        proof {
            assert(cdss@.take(i as int + 1).map_values(|c: CDS| c.range) =~= cdss@.take(
                i as int,
            ).map_values(|c: CDS| c.range).push(cdss@[i as int].range));
        }
        i = i + 1;
    }
    proof {
        assert(cdss@.take(cdss@.len() as int) =~= cdss@);
    }
    render_intervals(&ivs)
}

fn render_phases(cdss: &Vec<CDS>) -> (r: Vec<u8>)
    ensures
        r@ == spec_render_phases(cdss@),
{
    let mut pieces: Vec<Vec<u8>> = Vec::new();
    let mut i: usize = 0;
    while i < cdss.len()
        invariant
            0 <= i <= cdss@.len(),
            views(pieces@) =~= cdss@.take(i as int).map_values(
                |c: CDS| seq![(('0' as u8) + c.phase.spec_value()) as u8],
            ),
        decreases cdss@.len() - i,
    {
        let mut p: Vec<u8> = Vec::new();
        p.push('0' as u8 + cdss[i].phase.value() as u8);
        let ghost prev_views = views(pieces@);
        let ghost pv = p@;
        pieces.push(p);
        proof {
            assert(pv =~= seq![(('0' as u8) + cdss@[i as int].phase.spec_value()) as u8]);
            assert(views(pieces@) =~= prev_views.push(pv));
            assert(cdss@.take(i as int + 1).map_values(
                |c: CDS| seq![(('0' as u8) + c.phase.spec_value()) as u8],
            ) =~= cdss@.take(i as int).map_values(
                |c: CDS| seq![(('0' as u8) + c.phase.spec_value()) as u8],
            ).push(seq![(('0' as u8) + cdss@[i as int].phase.spec_value()) as u8]));
        }
        i = i + 1;
    }
    proof {
        assert(cdss@.take(cdss@.len() as int) =~= cdss@);
    }
    crate::text::join(&pieces, ';' as u8)
}

/// Render the genomic-regions artifact: one tab-separated line per
/// transcript, lists semicolon-joined.
#[verifier::rlimit(100)]
pub fn write_sequence_annotations(annotations: &Vec<SeqAnnotation>) -> (r: Vec<u8>)
    ensures
        r@ == spec_render_regions(annotation_views(annotations@), annotations@.len() as int),
{
    let mut out: Vec<u8> = Vec::new();
    let mut i: usize = 0;
    while i < annotations.len()
        invariant
            0 <= i <= annotations@.len(),
            out@ == spec_render_regions(annotation_views(annotations@), i as int),
        decreases annotations@.len() - i,
    {
        let a = &annotations[i];
        proof {
            assert(annotation_views(annotations@)[i as int] == a@);
        }
        append_bytes(&mut out, &a.name);
        out.push('\t' as u8);
        append_bytes(&mut out, &a.chr);
        out.push('\t' as u8);
        let f = render_strand(a.strand);
        append_bytes(&mut out, &f);
        out.push('\t' as u8);
        let f = render_interval(&a.range);
        append_bytes(&mut out, &f);
        out.push('\t' as u8);
        let f = render_intervals(&a.exons);
        append_bytes(&mut out, &f);
        out.push('\t' as u8);
        let f = render_cds_ranges(&a.coding_sequences);
        append_bytes(&mut out, &f);
        out.push('\t' as u8);
        let f = render_phases(&a.coding_sequences);
        append_bytes(&mut out, &f);
        out.push('\n' as u8);
        proof {
            assert(out@ =~= spec_render_regions(
                annotation_views(annotations@),
                i as int + 1,
            ));
        }
        i = i + 1;
    }
    out
}

/// A semicolon-joined interval list; the empty field is the empty list.
pub open spec fn spec_parse_interval_list(f: Seq<u8>) -> Option<Seq<Interval>> {
    if f.len() == 0 {
        Some(Seq::empty())
    } else {
        let ps = spec_split(f, (';' as u8));
        if forall|j: int| 0 <= j < ps.len() ==> spec_parse_interval(#[trigger] ps[j]) is Some {
            Some(ps.map_values(|p: Seq<u8>| spec_parse_interval(p)->0))
        } else {
            None
        }
    }
}

fn parse_interval_list(f: &[u8]) -> (r: Option<Vec<Interval>>)
    ensures
        match r {
            Some(v) => Some(v@) == spec_parse_interval_list(f@),
            None => spec_parse_interval_list(f@) is None,
        },
{
    if f.len() == 0 {
        let v: Vec<Interval> = Vec::new();
        proof {
            assert(v@ =~= spec_parse_interval_list(f@)->0);
        }
        return Some(v);
    }
    let pieces = split(f, ';' as u8);
    let ghost ps = spec_split(f@, (';' as u8));
    let mut out: Vec<Interval> = Vec::new();
    let mut i: usize = 0;
    while i < pieces.len()
        invariant
            0 <= i <= pieces@.len(),
            f@.len() > 0,
            ps == spec_split(f@, (';' as u8)),
            views(pieces@) == ps,
            out@.len() == i,
            forall|j: int| #![auto]
                0 <= j < i ==> spec_parse_interval(ps[j]) == Some(out@[j]),
        decreases pieces@.len() - i,
    {
        proof {
            assert(views(pieces@)[i as int] == pieces@[i as int]@);
        }
        match parse_interval(&pieces[i]) {
            Some(iv) => {
                out.push(iv);
            },
            None => {
                proof {
                    assert(spec_parse_interval(ps[i as int]) is None);
                }
                return None;
            },
        }
        i = i + 1;
    }
    proof {
        assert(spec_parse_interval_list(f@) is Some);
        assert(out@ =~= spec_parse_interval_list(f@)->0);
    }
    Some(out)
}

/// A semicolon-joined phase-digit list; the empty field is the empty
/// list.
pub open spec fn spec_parse_phase_list(f: Seq<u8>) -> Option<Seq<Phase>> {
    if f.len() == 0 {
        Some(Seq::empty())
    } else {
        let ps = spec_split(f, (';' as u8));
        if forall|j: int|
            0 <= j < ps.len() ==> (#[trigger] ps[j]).len() == 1 && (ps[j][0] == ('0' as u8)
                || ps[j][0] == ('1' as u8) || ps[j][0] == ('2' as u8)) {
            Some(
                ps.map_values(
                    |p: Seq<u8>|
                        if p[0] == ('0' as u8) {
                            Phase::Zero
                        } else if p[0] == ('1' as u8) {
                            Phase::One
                        } else {
                            Phase::Two
                        },
                ),
            )
        } else {
            None
        }
    }
}

fn parse_phase_list(f: &[u8]) -> (r: Option<Vec<Phase>>)
    ensures
        match r {
            Some(v) => Some(v@) == spec_parse_phase_list(f@),
            None => spec_parse_phase_list(f@) is None,
        },
{
    if f.len() == 0 {
        let v: Vec<Phase> = Vec::new();
        proof {
            assert(v@ =~= spec_parse_phase_list(f@)->0);
        }
        return Some(v);
    }
    let pieces = split(f, ';' as u8);
    let ghost ps = spec_split(f@, (';' as u8));
    let mut out: Vec<Phase> = Vec::new();
    let mut i: usize = 0;
    while i < pieces.len()
        invariant
            0 <= i <= pieces@.len(),
            f@.len() > 0,
            ps == spec_split(f@, (';' as u8)),
            views(pieces@) == ps,
            out@.len() == i,
            forall|j: int|
                0 <= j < i ==> (#[trigger] ps[j]).len() == 1 && (ps[j][0] == ('0' as u8) || ps[j][0]
                    == ('1' as u8) || ps[j][0] == ('2' as u8)),
            forall|j: int| #![auto]
                0 <= j < i ==> out@[j] == (if ps[j][0] == ('0' as u8) {
                    Phase::Zero
                } else if ps[j][0] == ('1' as u8) {
                    Phase::One
                } else {
                    Phase::Two
                }),
        decreases pieces@.len() - i,
    {
        proof {
            assert(views(pieces@)[i as int] == pieces@[i as int]@);
        }
        if pieces[i].len() != 1 {
            return None;
        }
        let d = pieces[i][0];
        match Phase::from_digit(d) {
            Some(p) => {
                out.push(p);
                proof {
                    assert(out@[i as int] == (if ps[i as int][0] == ('0' as u8) {
                        Phase::Zero
                    } else if ps[i as int][0] == ('1' as u8) {
                        Phase::One
                    } else {
                        Phase::Two
                    }));
                }
            },
            None => {
                return None;
            },
        }
        i = i + 1;
    }
    proof {
        assert(i as int == ps.len());
        assert forall|j: int| 0 <= j < ps.len() implies (#[trigger] ps[j]).len() == 1 && (ps[j][0]
            == ('0' as u8) || ps[j][0] == ('1' as u8) || ps[j][0] == ('2' as u8)) by {
            assert(0 <= j < i as int);
        }
        assert(spec_parse_phase_list(f@) is Some);
        assert(out@ =~= spec_parse_phase_list(f@)->0);
    }
    Some(out)
}

/// The transcript one genomic-regions line denotes.
pub open spec fn spec_parse_region_line(line: Seq<u8>) -> Option<AnnotationView> {
    let fs = spec_split(line, ('\t' as u8));
    if fs.len() != 7 {
        None
    } else {
        match (
            spec_strand_of(fs[2]),
            spec_parse_interval(fs[3]),
            spec_parse_interval_list(fs[4]),
            spec_parse_interval_list(fs[5]),
            spec_parse_phase_list(fs[6]),
        ) {
            (Some(strand), Some(range), Some(exons), Some(cds_ranges), Some(phases)) => {
                if cds_ranges.len() == phases.len() {
                    Some(
                        AnnotationView {
                            name: fs[0],
                            chr: fs[1],
                            range,
                            strand,
                            exons,
                            coding_sequences: Seq::new(
                                cds_ranges.len(),
                                |k: int| CDS { range: cds_ranges[k], phase: phases[k] },
                            ),
                        },
                    )
                } else {
                    None
                }
            },
            _ => None,
        }
    }
}

/// The transcripts a genomic-regions artifact denotes, keeping those that
/// pass the filter; empty lines are skipped.
pub open spec fn spec_parse_regions(
    lines: Seq<Seq<u8>>,
    i: int,
    fil: Option<Seq<u8>>,
) -> Option<Seq<AnnotationView>>
    decreases i,
{
    if i <= 0 {
        Some(Seq::empty())
    } else {
        match spec_parse_regions(lines, i - 1, fil) {
            Some(acc) => {
                if lines[i - 1].len() == 0 {
                    Some(acc)
                } else {
                    match spec_parse_region_line(lines[i - 1]) {
                        Some(a) => {
                            if crate::observed::spec_passes_filter(fil, a.name) {
                                Some(acc.push(a))
                            } else {
                                Some(acc)
                            }
                        },
                        None => None,
                    }
                }
            },
            None => None,
        }
    }
}

proof fn lemma_parse_regions_none_after(lines: Seq<Seq<u8>>, j: int, fil: Option<Seq<u8>>)
    requires
        0 <= j <= lines.len(),
        spec_parse_regions(lines, j, fil) is None,
    ensures
        spec_parse_regions(lines, lines.len() as int, fil) is None,
    decreases lines.len() - j,
{
    if j < lines.len() {
        assert(spec_parse_regions(lines, j + 1, fil) is None);
        lemma_parse_regions_none_after(lines, j + 1, fil);
    }
}

/// Parse the genomic-regions artifact.
#[verifier::rlimit(100)]
pub fn read_sequence_annotations_from_file(data: &[u8], filter_for_id: Option<&Vec<u8>>) -> (r:
    Result<Vec<SeqAnnotation>, crate::error::ParseError>)
    ensures
        r is Ok <==> spec_parse_regions(
            spec_split(data@, ('\n' as u8)),
            spec_split(data@, ('\n' as u8)).len() as int,
            crate::observed::filter_view(filter_for_id),
        ) is Some,
        r is Ok ==> Some(annotation_views(r->Ok_0@)) == spec_parse_regions(
            spec_split(data@, ('\n' as u8)),
            spec_split(data@, ('\n' as u8)).len() as int,
            crate::observed::filter_view(filter_for_id),
        ),
{
    let ghost fil = crate::observed::filter_view(filter_for_id);
    let lines = split(data, '\n' as u8);
    let ghost lns = spec_split(data@, ('\n' as u8));
    let mut result: Vec<SeqAnnotation> = Vec::new();
    let mut i: usize = 0;
    proof {
        assert(annotation_views(result@) =~= Seq::<AnnotationView>::empty());
        assert(Some(annotation_views(result@)) == spec_parse_regions(lns, 0, fil));
    }
    while i < lines.len()
        invariant
            0 <= i <= lines@.len(),
            fil == crate::observed::filter_view(filter_for_id),
            lns == spec_split(data@, ('\n' as u8)),
            views(lines@) == lns,
            Some(annotation_views(result@)) == spec_parse_regions(lns, i as int, fil),
        decreases lines@.len() - i,
    {
        let line = &lines[i];
        proof {
            assert(views(lines@)[i as int] == lines@[i as int]@);
        }
        if line.len() == 0 {
            i = i + 1;
            continue ;
        }
        let fields = split(line.as_slice(), '\t' as u8);
        let ghost fvs = spec_split(line@, ('\t' as u8));
        proof {
            assert(views(fields@) == fvs);
        }
        if fields.len() != 7 {
            proof {
                assert(spec_parse_region_line(lns[i as int]) is None);
                assert(spec_parse_regions(lns, i as int + 1, fil) is None);
                lemma_parse_regions_none_after(lns, i as int + 1, fil);
            }
            return Err(crate::error::ParseError::new(parse_msg(i + 1)));
        }
        proof {
            assert(views(fields@)[0] == fields@[0]@);
            assert(views(fields@)[1] == fields@[1]@);
            assert(views(fields@)[2] == fields@[2]@);
            assert(views(fields@)[3] == fields@[3]@);
            assert(views(fields@)[4] == fields@[4]@);
            assert(views(fields@)[5] == fields@[5]@);
            assert(views(fields@)[6] == fields@[6]@);
        }
        let strand = match strand_of_field(&fields[2]) {
            Some(v) => v,
            None => {
                proof {
                    assert(spec_parse_region_line(lns[i as int]) is None);
                    assert(spec_parse_regions(lns, i as int + 1, fil) is None);
                    lemma_parse_regions_none_after(lns, i as int + 1, fil);
                }
                return Err(crate::error::ParseError::new(parse_msg(i + 1)));
            },
        };
        let range = match parse_interval(&fields[3]) {
            Some(v) => v,
            None => {
                proof {
                    assert(spec_parse_region_line(lns[i as int]) is None);
                    assert(spec_parse_regions(lns, i as int + 1, fil) is None);
                    lemma_parse_regions_none_after(lns, i as int + 1, fil);
                }
                return Err(crate::error::ParseError::new(parse_msg(i + 1)));
            },
        };
        let exons = match parse_interval_list(&fields[4]) {
            Some(v) => v,
            None => {
                proof {
                    assert(spec_parse_region_line(lns[i as int]) is None);
                    assert(spec_parse_regions(lns, i as int + 1, fil) is None);
                    lemma_parse_regions_none_after(lns, i as int + 1, fil);
                }
                return Err(crate::error::ParseError::new(parse_msg(i + 1)));
            },
        };
        let cds_ranges = match parse_interval_list(&fields[5]) {
            Some(v) => v,
            None => {
                proof {
                    assert(spec_parse_region_line(lns[i as int]) is None);
                    assert(spec_parse_regions(lns, i as int + 1, fil) is None);
                    lemma_parse_regions_none_after(lns, i as int + 1, fil);
                }
                return Err(crate::error::ParseError::new(parse_msg(i + 1)));
            },
        };
        let phases = match parse_phase_list(&fields[6]) {
            Some(v) => v,
            None => {
                proof {
                    assert(spec_parse_region_line(lns[i as int]) is None);
                    assert(spec_parse_regions(lns, i as int + 1, fil) is None);
                    lemma_parse_regions_none_after(lns, i as int + 1, fil);
                }
                return Err(crate::error::ParseError::new(parse_msg(i + 1)));
            },
        };
        if cds_ranges.len() != phases.len() {
            proof {
                assert(spec_parse_region_line(lns[i as int]) is None);
                assert(spec_parse_regions(lns, i as int + 1, fil) is None);
                lemma_parse_regions_none_after(lns, i as int + 1, fil);
            }
            return Err(crate::error::ParseError::new(parse_msg(i + 1)));
        }
        let mut coding_sequences: Vec<CDS> = Vec::new();
        let mut k: usize = 0;
        while k < cds_ranges.len()
            invariant
                0 <= k <= cds_ranges@.len(),
                cds_ranges@.len() == phases@.len(),
                coding_sequences@.len() == k,
                forall|x: int| #![auto]
                    0 <= x < k ==> coding_sequences@[x] == (CDS {
                        range: cds_ranges@[x],
                        phase: phases@[x],
                    }),
            decreases cds_ranges@.len() - k,
        {
            coding_sequences.push(CDS { range: cds_ranges[k], phase: phases[k] });
            k = k + 1;
        }
        let anno = SeqAnnotation {
            name: clone_slice(&fields[0]),
            chr: clone_slice(&fields[1]),
            range,
            strand,
            exons,
            coding_sequences,
        };
        let ghost av = anno@;
        let keep = match filter_for_id {
            Some(f) => {
                let e = bytes_eq(f.as_slice(), anno.name.as_slice());
                proof {
                    if f@ =~= anno.name@ {
                        assert(f@ == anno.name@);
                    }
                }
                e
            },
            None => true,
        };
        proof {
            assert(av.coding_sequences =~= Seq::new(
                spec_parse_interval_list(fvs[5])->0.len(),
                |x: int|
                    CDS {
                        range: spec_parse_interval_list(fvs[5])->0[x],
                        phase: spec_parse_phase_list(fvs[6])->0[x],
                    },
            ));
            assert(Some(av) == spec_parse_region_line(lns[i as int]));
        }
        if keep {
            let ghost out0 = annotation_views(result@);
            result.push(anno);
            proof {
                assert(annotation_views(result@) =~= out0.push(av));
            }
        }
        i = i + 1;
    }
    Ok(result)
}

fn strand_of_field(f: &Vec<u8>) -> (r: Option<Strand>)
    ensures
        r == spec_strand_of(f@),
{
    if f.len() == 1 {
        let b = f[0];
        if b == '+' as u8 {
            proof {
                assert(f@ =~= seq![('+' as u8)]);
            }
            return Some(Strand::Plus);
        }
        if b == '-' as u8 {
            proof {
                assert(f@ =~= seq![('-' as u8)]);
                assert(!(f@ =~= seq![('+' as u8)]));
            }
            return Some(Strand::Minus);
        }
    }
    proof {
        assert(!(f@ =~= seq![('+' as u8)]));
        assert(!(f@ =~= seq![('-' as u8)]));
    }
    None
}

/// The message of every malformed-artifact rejection, naming the line.
fn parse_msg(line: usize) -> (r: Vec<u8>)
    ensures
        r@.len() > 0,
{
    let mut r: Vec<u8> = Vec::new();
    r.push(('m' as u8));
    r.push(('a' as u8));
    r.push(('l' as u8));
    r.push(('f' as u8));
    r.push(('o' as u8));
    r.push(('r' as u8));
    r.push(('m' as u8));
    r.push(('e' as u8));
    r.push(('d' as u8));
    r.push((' ' as u8));
    r.push(('r' as u8));
    r.push(('o' as u8));
    r.push(('w' as u8));
    let suffix = crate::text::line_suffix(line);
    let mut k: usize = 0;
    while k < suffix.len()
        invariant
            0 <= k <= suffix@.len(),
            r@.len() > 0,
        decreases suffix@.len() - k,
    {
        r.push(suffix[k]);
        k = k + 1;
    }
    r
}

fn clone_slice(v: &Vec<u8>) -> (r: Vec<u8>)
    ensures
        r@ == v@,
{
    crate::observed::clone_bytes(v)
}

/// One event line of the possible-mutations artifact: `code:probability`.
pub open spec fn spec_render_event(e: crate::enumerate::MutationEvent) -> Seq<u8> {
    dec_digits(e.mutation_type.spec_code() as nat) + seq![(':' as u8)]
        + crate::text::spec_render_fixed(e.probability as int) + seq![('\n' as u8)]
}

/// The first `i` event lines of one region.
pub open spec fn spec_render_events(events: Seq<crate::enumerate::MutationEvent>, i: int) -> Seq<
    u8,
>
    decreases i,
{
    if i <= 0 {
        Seq::empty()
    } else {
        spec_render_events(events, i - 1) + spec_render_event(events[i - 1])
    }
}

/// The first `i` region blocks of the possible-mutations artifact: a
/// `#name` line, then one line per event.
pub open spec fn spec_render_possible(
    rs: Seq<crate::enumerate::RegionEventsView>,
    i: int,
) -> Seq<u8>
    decreases i,
{
    if i <= 0 {
        Seq::empty()
    } else {
        spec_render_possible(rs, i - 1) + seq![('#' as u8)] + rs[i - 1].region + seq![
            ('\n' as u8),
        ] + spec_render_events(rs[i - 1].events, rs[i - 1].events.len() as int)
    }
}

/// Render the possible-mutations artifact.
#[verifier::rlimit(100)]
pub fn write_possible_mutations(pm: &crate::enumerate::PossibleMutations) -> (r: Vec<u8>)
    ensures
        r@ == spec_render_possible(crate::enumerate::region_views(pm@), pm@.len() as int),
{
    let ghost rvs = crate::enumerate::region_views(pm@);
    let mut out: Vec<u8> = Vec::new();
    let mut i: usize = 0;
    while i < pm.len()
        invariant
            0 <= i <= pm@.len(),
            rvs == crate::enumerate::region_views(pm@),
            out@ == spec_render_possible(rvs, i as int),
        decreases pm@.len() - i,
    {
        let entry = &pm[i];
        proof {
            assert(rvs[i as int] == entry@);
        }
        out.push('#' as u8);
        append_bytes(&mut out, &entry.region);
        out.push('\n' as u8);
        let ghost base = out@;
        let mut j: usize = 0;
        proof {
            assert(out@ =~= base + spec_render_events(entry.events@, 0));
        }
        while j < entry.events.len()
            invariant
                0 <= j <= entry.events@.len(),
                0 <= i < pm@.len(),
                entry == &pm@[i as int],
                out@ == base + spec_render_events(entry.events@, j as int),
            decreases entry.events@.len() - j,
        {
            let e = entry.events[j];
            let f = render_usize(e.mutation_type.code() as usize);
            append_bytes(&mut out, &f);
            out.push(':' as u8);
            let f = crate::text::render_fixed(e.probability as u128);
            append_bytes(&mut out, &f);
            out.push('\n' as u8);
            proof {
                assert(out@ =~= base + spec_render_events(entry.events@, j as int + 1));
            }
            j = j + 1;
        }
        proof {
            assert(out@ =~= spec_render_possible(rvs, i as int + 1));
        }
        i = i + 1;
    }
    out
}

/// One line applied to the partially parsed possible-mutations artifact:
/// a `#name` line opens a region, an event line extends the last one.
pub open spec fn spec_possible_step(
    acc: Seq<crate::enumerate::RegionEventsView>,
    line: Seq<u8>,
) -> Option<Seq<crate::enumerate::RegionEventsView>> {
    if line.len() == 0 {
        Some(acc)
    } else if line[0] == ('#' as u8) {
        Some(
            acc.push(
                crate::enumerate::RegionEventsView { region: line.skip(1), events: Seq::empty() },
            ),
        )
    } else {
        let ps = spec_split(line, (':' as u8));
        if ps.len() == 2 && ps[0].len() > 0 && all_digits(ps[0]) && dec_value(ps[0]) <= u8::MAX
            && crate::text::spec_parse_fixed(ps[1]) is Some && crate::text::spec_parse_fixed(
            ps[1],
        )->0 <= u64::MAX && acc.len() > 0 {
            let ev = crate::enumerate::MutationEvent {
                mutation_type: crate::mutation_type::MutationType::spec_from_code(
                    dec_value(ps[0]) as u8,
                ),
                probability: crate::text::spec_parse_fixed(ps[1])->0 as u64,
            };
            let last = acc[acc.len() - 1];
            Some(
                acc.update(
                    acc.len() - 1,
                    crate::enumerate::RegionEventsView {
                        events: last.events.push(ev),
                        ..last
                    },
                ),
            )
        } else {
            None
        }
    }
}

/// The fold of the first `i` lines of the possible-mutations artifact.
pub open spec fn spec_parse_possible(lines: Seq<Seq<u8>>, i: int) -> Option<
    Seq<crate::enumerate::RegionEventsView>,
>
    decreases i,
{
    if i <= 0 {
        Some(Seq::empty())
    } else {
        match spec_parse_possible(lines, i - 1) {
            Some(acc) => spec_possible_step(acc, lines[i - 1]),
            None => None,
        }
    }
}

proof fn lemma_parse_possible_none_after(lines: Seq<Seq<u8>>, j: int)
    requires
        0 <= j <= lines.len(),
        spec_parse_possible(lines, j) is None,
    ensures
        spec_parse_possible(lines, lines.len() as int) is None,
    decreases lines.len() - j,
{
    if j < lines.len() {
        assert(spec_parse_possible(lines, j + 1) is None);
        lemma_parse_possible_none_after(lines, j + 1);
    }
}

/// Parse the possible-mutations artifact.
#[verifier::rlimit(100)]
pub fn read_possible_mutations(data: &[u8]) -> (r: Result<
    crate::enumerate::PossibleMutations,
    crate::error::ParseError,
>)
    ensures
        r is Ok <==> spec_parse_possible(
            spec_split(data@, ('\n' as u8)),
            spec_split(data@, ('\n' as u8)).len() as int,
        ) is Some,
        r is Ok ==> Some(crate::enumerate::region_views(r->Ok_0@)) == spec_parse_possible(
            spec_split(data@, ('\n' as u8)),
            spec_split(data@, ('\n' as u8)).len() as int,
        ),
{
    let lines = split(data, '\n' as u8);
    let ghost lns = spec_split(data@, ('\n' as u8));
    let mut result: crate::enumerate::PossibleMutations = Vec::new();
    let mut i: usize = 0;
    proof {
        assert(crate::enumerate::region_views(result@) =~= Seq::<
            crate::enumerate::RegionEventsView,
        >::empty());
        assert(Some(crate::enumerate::region_views(result@)) == spec_parse_possible(lns, 0));
    }
    while i < lines.len()
        invariant
            0 <= i <= lines@.len(),
            lns == spec_split(data@, ('\n' as u8)),
            views(lines@) == lns,
            Some(crate::enumerate::region_views(result@)) == spec_parse_possible(lns, i as int),
        decreases lines@.len() - i,
    {
        let line = &lines[i];
        proof {
            assert(views(lines@)[i as int] == lines@[i as int]@);
        }
        let ghost acc0 = crate::enumerate::region_views(result@);
        if line.len() == 0 {
            i = i + 1;
            continue ;
        }
        if line[0] == '#' as u8 {
            let name = crate::text::split_off_first(line);
            let entry = crate::enumerate::RegionEvents { region: name, events: Vec::new() };
            let ghost ev = entry@;
            result.push(entry);
            proof {
                assert(ev.events =~= Seq::<crate::enumerate::MutationEvent>::empty());
                assert(crate::enumerate::region_views(result@) =~= acc0.push(ev));
            }
            i = i + 1;
            continue ;
        }
        let pieces = split(line.as_slice(), ':' as u8);
        let ghost ps = spec_split(line@, (':' as u8));
        proof {
            assert(views(pieces@) == ps);
        }
        if pieces.len() != 2 {
            proof {
                assert(spec_possible_step(acc0, lns[i as int]) is None);
                assert(spec_parse_possible(lns, i as int + 1) is None);
                lemma_parse_possible_none_after(lns, i as int + 1);
            }
            return Err(crate::error::ParseError::new(parse_msg(i + 1)));
        }
        proof {
            assert(views(pieces@)[0] == pieces@[0]@);
            assert(views(pieces@)[1] == pieces@[1]@);
        }
        let code = match parse_usize(&pieces[0]) {
            Some(v) if v <= u8::MAX as usize => v as u8,
            _ => {
                proof {
                    assert(spec_possible_step(acc0, lns[i as int]) is None);
                    assert(spec_parse_possible(lns, i as int + 1) is None);
                    lemma_parse_possible_none_after(lns, i as int + 1);
                }
                return Err(crate::error::ParseError::new(parse_msg(i + 1)));
            },
        };
        let probability = match crate::text::parse_fixed(&pieces[1]) {
            Some(v) if v <= u64::MAX as u128 => v as u64,
            _ => {
                proof {
                    assert(spec_possible_step(acc0, lns[i as int]) is None);
                    assert(spec_parse_possible(lns, i as int + 1) is None);
                    lemma_parse_possible_none_after(lns, i as int + 1);
                }
                return Err(crate::error::ParseError::new(parse_msg(i + 1)));
            },
        };
        let mutation_type = crate::mutation_type::MutationType::from_code(code);
        let last = match result.pop() {
            Some(v) => v,
            None => {
                proof {
                    assert(acc0.len() == 0);
                    assert(spec_possible_step(acc0, lns[i as int]) is None);
                    assert(spec_parse_possible(lns, i as int + 1) is None);
                    lemma_parse_possible_none_after(lns, i as int + 1);
                }
                return Err(crate::error::ParseError::new(parse_msg(i + 1)));
            },
        };
        let mut last = last;
        last.events.push(crate::enumerate::MutationEvent { mutation_type, probability });
        result.push(last);
        proof {
            assert(crate::enumerate::region_views(result@) =~= spec_possible_step(
                acc0,
                lns[i as int],
            )->0);
        }
        i = i + 1;
    }
    Ok(result)
}

/// The header of a per-class table: a label column, then one column per
/// class in canonical order.
pub open spec fn spec_table_header(label: Seq<u8>) -> Seq<u8> {
    crate::text::spec_join(
        seq![
            label,
            MutationType::Unknown.spec_name(),
            MutationType::Synonymous.spec_name(),
            MutationType::Missense.spec_name(),
            MutationType::Nonsense.spec_name(),
            MutationType::StartCodon.spec_name(),
            MutationType::StopLoss.spec_name(),
            MutationType::SpliceSite.spec_name(),
            MutationType::Intronic.spec_name(),
            MutationType::InFrameIndel.spec_name(),
            MutationType::FrameshiftIndel.spec_name(),
        ],
        ('\t' as u8),
    ) + seq![('\n' as u8)]
}

fn table_header(label: Vec<u8>) -> (r: Vec<u8>)
    ensures
        r@ == spec_table_header(label@),
{
    let ghost lv = label@;
    let mut pieces: Vec<Vec<u8>> = Vec::new();
    pieces.push(label);
    pieces.push(MutationType::Unknown.name());
    pieces.push(MutationType::Synonymous.name());
    pieces.push(MutationType::Missense.name());
    pieces.push(MutationType::Nonsense.name());
    pieces.push(MutationType::StartCodon.name());
    pieces.push(MutationType::StopLoss.name());
    pieces.push(MutationType::SpliceSite.name());
    pieces.push(MutationType::Intronic.name());
    pieces.push(MutationType::InFrameIndel.name());
    pieces.push(MutationType::FrameshiftIndel.name());
    proof {
        assert(views(pieces@) =~= seq![
            lv,
            MutationType::Unknown.spec_name(),
            MutationType::Synonymous.spec_name(),
            MutationType::Missense.spec_name(),
            MutationType::Nonsense.spec_name(),
            MutationType::StartCodon.spec_name(),
            MutationType::StopLoss.spec_name(),
            MutationType::SpliceSite.spec_name(),
            MutationType::Intronic.spec_name(),
            MutationType::InFrameIndel.spec_name(),
            MutationType::FrameshiftIndel.spec_name(),
        ]);
    }
    let mut out = crate::text::join(&pieces, '\t' as u8);
    out.push('\n' as u8);
    out
}

fn region_label() -> (r: Vec<u8>)
    ensures
        r@ == seq![('r' as u8), ('e' as u8), ('g' as u8), ('i' as u8), ('o' as u8), ('n' as u8)],
{
    let mut r: Vec<u8> = Vec::new();
    r.push('r' as u8);
    r.push('e' as u8);
    r.push('g' as u8);
    r.push('i' as u8);
    r.push('o' as u8);
    r.push('n' as u8);
    proof {
        assert(r@ =~= seq![
            ('r' as u8), ('e' as u8), ('g' as u8), ('i' as u8), ('o' as u8), ('n' as u8),
        ]);
    }
    r
}

/// One row of the expected-mutations artifact.
pub open spec fn spec_expected_row(ev: crate::expect::RegionExpectedView) -> Seq<u8> {
    crate::text::spec_join(
        seq![
            ev.region,
            crate::text::spec_render_fixed(ev.counts.unknown as int),
            crate::text::spec_render_fixed(ev.counts.synonymous as int),
            crate::text::spec_render_fixed(ev.counts.missense as int),
            crate::text::spec_render_fixed(ev.counts.nonsense as int),
            crate::text::spec_render_fixed(ev.counts.start_codon as int),
            crate::text::spec_render_fixed(ev.counts.stop_loss as int),
            crate::text::spec_render_fixed(ev.counts.splice_site as int),
            crate::text::spec_render_fixed(ev.counts.intronic as int),
            crate::text::spec_render_fixed(ev.counts.inframe_indel as int),
            crate::text::spec_render_fixed(ev.counts.frameshift_indel as int),
        ],
        ('\t' as u8),
    ) + seq![('\n' as u8)]
}

/// The first `i` rows of the expected-mutations artifact.
pub open spec fn spec_render_expected(rs: Seq<crate::expect::RegionExpectedView>, i: int) -> Seq<
    u8,
>
    decreases i,
{
    if i <= 0 {
        spec_table_header(seq![('r' as u8), ('e' as u8), ('g' as u8), ('i' as u8), ('o' as u8), ('n' as u8)])
    } else {
        spec_render_expected(rs, i - 1) + spec_expected_row(rs[i - 1])
    }
}

/// Render the expected-mutations artifact: a header, then one row per
/// region with the per-class expectations in canonical order.
pub fn write_expected_mutations(expected: &Vec<crate::expect::RegionExpected>) -> (r: Vec<u8>)
    ensures
        r@ == spec_render_expected(
            crate::expect::expected_views(expected@),
            expected@.len() as int,
        ),
{
    let ghost evs = crate::expect::expected_views(expected@);
    let mut out = table_header(region_label());
    let mut i: usize = 0;
    while i < expected.len()
        invariant
            0 <= i <= expected@.len(),
            evs == crate::expect::expected_views(expected@),
            out@ == spec_render_expected(evs, i as int),
        decreases expected@.len() - i,
    {
        let entry = &expected[i];
        proof {
            assert(evs[i as int] == entry@);
        }
        let mut pieces: Vec<Vec<u8>> = Vec::new();
        pieces.push(crate::observed::clone_bytes(&entry.region));
        pieces.push(crate::text::render_fixed(entry.counts.unknown));
        pieces.push(crate::text::render_fixed(entry.counts.synonymous));
        pieces.push(crate::text::render_fixed(entry.counts.missense));
        pieces.push(crate::text::render_fixed(entry.counts.nonsense));
        pieces.push(crate::text::render_fixed(entry.counts.start_codon));
        pieces.push(crate::text::render_fixed(entry.counts.stop_loss));
        pieces.push(crate::text::render_fixed(entry.counts.splice_site));
        pieces.push(crate::text::render_fixed(entry.counts.intronic));
        pieces.push(crate::text::render_fixed(entry.counts.inframe_indel));
        pieces.push(crate::text::render_fixed(entry.counts.frameshift_indel));
        proof {
            assert(views(pieces@) =~= seq![
                entry@.region,
                crate::text::spec_render_fixed(entry@.counts.unknown as int),
                crate::text::spec_render_fixed(entry@.counts.synonymous as int),
                crate::text::spec_render_fixed(entry@.counts.missense as int),
                crate::text::spec_render_fixed(entry@.counts.nonsense as int),
                crate::text::spec_render_fixed(entry@.counts.start_codon as int),
                crate::text::spec_render_fixed(entry@.counts.stop_loss as int),
                crate::text::spec_render_fixed(entry@.counts.splice_site as int),
                crate::text::spec_render_fixed(entry@.counts.intronic as int),
                crate::text::spec_render_fixed(entry@.counts.inframe_indel as int),
                crate::text::spec_render_fixed(entry@.counts.frameshift_indel as int),
            ]);
        }
        let row = crate::text::join(&pieces, '\t' as u8);
        append_bytes(&mut out, &row);
        out.push('\n' as u8);
        proof {
            assert(out@ =~= spec_render_expected(evs, i as int + 1));
        }
        i = i + 1;
    }
    out
}

/// The expected counts one row denotes.
pub open spec fn spec_parse_expected_row(line: Seq<u8>) -> Option<
    crate::expect::RegionExpectedView,
> {
    let fs = spec_split(line, ('\t' as u8));
    if fs.len() == 11 && (forall|k: int|
        1 <= k < 11 ==> crate::text::spec_parse_fixed(#[trigger] fs[k]) is Some
            && crate::text::spec_parse_fixed(fs[k])->0 <= u128::MAX) {
        Some(
            crate::expect::RegionExpectedView {
                region: fs[0],
                counts: crate::counts::ExpectedMutationCounts {
                    unknown: crate::text::spec_parse_fixed(fs[1])->0 as u128,
                    synonymous: crate::text::spec_parse_fixed(fs[2])->0 as u128,
                    missense: crate::text::spec_parse_fixed(fs[3])->0 as u128,
                    nonsense: crate::text::spec_parse_fixed(fs[4])->0 as u128,
                    start_codon: crate::text::spec_parse_fixed(fs[5])->0 as u128,
                    stop_loss: crate::text::spec_parse_fixed(fs[6])->0 as u128,
                    splice_site: crate::text::spec_parse_fixed(fs[7])->0 as u128,
                    intronic: crate::text::spec_parse_fixed(fs[8])->0 as u128,
                    inframe_indel: crate::text::spec_parse_fixed(fs[9])->0 as u128,
                    frameshift_indel: crate::text::spec_parse_fixed(fs[10])->0 as u128,
                },
            },
        )
    } else {
        None
    }
}

/// Some already-parsed expected entry names this region.
pub open spec fn spec_has_expected_region(
    acc: Seq<crate::expect::RegionExpectedView>,
    name: Seq<u8>,
) -> bool {
    exists|k: int| 0 <= k < acc.len() && (#[trigger] acc[k]).region == name
}

/// Whether an expected entry for `name` was already read.
fn has_expected_region(entries: &Vec<crate::expect::RegionExpected>, name: &Vec<u8>) -> (r: bool)
    ensures
        r == spec_has_expected_region(crate::expect::expected_views(entries@), name@),
{
    let ghost evs = crate::expect::expected_views(entries@);
    let mut k: usize = 0;
    while k < entries.len()
        invariant
            0 <= k <= entries@.len(),
            evs == crate::expect::expected_views(entries@),
            forall|x: int| 0 <= x < k ==> (#[trigger] evs[x]).region != name@,
        decreases entries@.len() - k,
    {
        proof {
            assert(evs[k as int] == entries@[k as int]@);
        }
        if bytes_eq(entries[k].region.as_slice(), name.as_slice()) {
            proof {
                assert(evs[k as int].region =~= name@);
            }
            return true;
        }
        k = k + 1;
    }
    false
}

/// The expected-mutations table a file denotes: empty lines are skipped,
/// the first remaining line is the header, and a region named twice is
/// malformed.
pub open spec fn spec_parse_expected(lines: Seq<Seq<u8>>, i: int) -> Option<
    (Seq<crate::expect::RegionExpectedView>, bool),
>
    decreases i,
{
    if i <= 0 {
        Some((Seq::empty(), false))
    } else {
        match spec_parse_expected(lines, i - 1) {
            Some((acc, seen)) => {
                if lines[i - 1].len() == 0 {
                    Some((acc, seen))
                } else if !seen {
                    Some((acc, true))
                } else {
                    match spec_parse_expected_row(lines[i - 1]) {
                        Some(ev) => {
                            if spec_has_expected_region(acc, ev.region) {
                                None
                            } else {
                                Some((acc.push(ev), true))
                            }
                        },
                        None => None,
                    }
                }
            },
            None => None,
        }
    }
}

proof fn lemma_parse_expected_none_after(lines: Seq<Seq<u8>>, j: int)
    requires
        0 <= j <= lines.len(),
        spec_parse_expected(lines, j) is None,
    ensures
        spec_parse_expected(lines, lines.len() as int) is None,
    decreases lines.len() - j,
{
    if j < lines.len() {
        assert(spec_parse_expected(lines, j + 1) is None);
        lemma_parse_expected_none_after(lines, j + 1);
    }
}

/// Parse the expected-mutations artifact.
#[verifier::rlimit(100)]
pub fn read_expected_mutations(data: &[u8]) -> (r: Result<
    Vec<crate::expect::RegionExpected>,
    crate::error::ParseError,
>)
    ensures
        r is Ok <==> spec_parse_expected(
            spec_split(data@, ('\n' as u8)),
            spec_split(data@, ('\n' as u8)).len() as int,
        ) is Some,
        r is Ok ==> Some(crate::expect::expected_views(r->Ok_0@)) == Some(
            (spec_parse_expected(
                spec_split(data@, ('\n' as u8)),
                spec_split(data@, ('\n' as u8)).len() as int,
            )->0).0,
        ),
{
    let lines = split(data, '\n' as u8);
    let ghost lns = spec_split(data@, ('\n' as u8));
    let mut result: Vec<crate::expect::RegionExpected> = Vec::new();
    let mut seen_header = false;
    let mut i: usize = 0;
    proof {
        assert(crate::expect::expected_views(result@) =~= Seq::<
            crate::expect::RegionExpectedView,
        >::empty());
        assert(Some((crate::expect::expected_views(result@), seen_header)) == spec_parse_expected(
            lns,
            0,
        ));
    }
    while i < lines.len()
        invariant
            0 <= i <= lines@.len(),
            lns == spec_split(data@, ('\n' as u8)),
            views(lines@) == lns,
            Some((crate::expect::expected_views(result@), seen_header)) == spec_parse_expected(
                lns,
                i as int,
            ),
        decreases lines@.len() - i,
    {
        let line = &lines[i];
        proof {
            assert(views(lines@)[i as int] == lines@[i as int]@);
        }
        let ghost acc0 = crate::expect::expected_views(result@);
        if line.len() == 0 {
            i = i + 1;
            continue ;
        }
        if !seen_header {
            seen_header = true;
            i = i + 1;
            continue ;
        }
        let fields = split(line.as_slice(), '\t' as u8);
        let ghost fvs = spec_split(line@, ('\t' as u8));
        proof {
            assert(views(fields@) == fvs);
        }
        if fields.len() != 11 {
            proof {
                assert(spec_parse_expected_row(lns[i as int]) is None);
                assert(spec_parse_expected(lns, i as int + 1) is None);
                lemma_parse_expected_none_after(lns, i as int + 1);
            }
            return Err(crate::error::ParseError::new(parse_msg(i + 1)));
        }
        let values = match parse_fixed_columns(&fields) {
            Some(v) => v,
            None => {
                proof {
                    assert(spec_parse_expected_row(lns[i as int]) is None);
                    assert(spec_parse_expected(lns, i as int + 1) is None);
                    lemma_parse_expected_none_after(lns, i as int + 1);
                }
                return Err(crate::error::ParseError::new(parse_msg(i + 1)));
            },
        };
        proof {
            assert(views(fields@)[0] == fields@[0]@);
        }
        let entry = crate::expect::RegionExpected {
            region: clone_slice(&fields[0]),
            counts: crate::counts::ExpectedMutationCounts {
                unknown: values[0],
                synonymous: values[1],
                missense: values[2],
                nonsense: values[3],
                start_codon: values[4],
                stop_loss: values[5],
                splice_site: values[6],
                intronic: values[7],
                inframe_indel: values[8],
                frameshift_indel: values[9],
            },
        };
        let ghost ev = entry@;
        proof {
            assert(Some(ev) == spec_parse_expected_row(lns[i as int]));
        }
        if has_expected_region(&result, &entry.region) {
            proof {
                assert(spec_parse_expected(lns, i as int + 1) is None);
                lemma_parse_expected_none_after(lns, i as int + 1);
            }
            return Err(crate::error::ParseError::new(parse_msg(i + 1)));
        }
        result.push(entry);
        proof {
            assert(crate::expect::expected_views(result@) =~= acc0.push(ev));
        }
        i = i + 1;
    }
    Ok(result)
}

/// Parse columns one through ten of a table row as fixed-point values.
fn parse_fixed_columns(fields: &Vec<Vec<u8>>) -> (r: Option<Vec<u128>>)
    requires
        fields@.len() == 11,
    ensures
        r is Some <==> (forall|k: int|
            1 <= k < 11 ==> crate::text::spec_parse_fixed(#[trigger] views(fields@)[k]) is Some
                && crate::text::spec_parse_fixed(views(fields@)[k])->0 <= u128::MAX),
        r is Some ==> r->0@.len() == 10 && (forall|k: int| #![auto]
            1 <= k < 11 ==> r->0@[k - 1] as int == crate::text::spec_parse_fixed(
                views(fields@)[k],
            )->0),
{
    let mut values: Vec<u128> = Vec::new();
    let mut k: usize = 1;
    while k < 11
        invariant
            1 <= k <= 11,
            fields@.len() == 11,
            values@.len() == k - 1,
            forall|x: int|
                1 <= x < k ==> crate::text::spec_parse_fixed(#[trigger] views(fields@)[x]) is Some
                    && crate::text::spec_parse_fixed(views(fields@)[x])->0 <= u128::MAX,
            forall|x: int| #![auto]
                1 <= x < k ==> values@[x - 1] as int == crate::text::spec_parse_fixed(
                    views(fields@)[x],
                )->0,
        decreases 11 - k,
    {
        proof {
            assert(views(fields@)[k as int] == fields@[k as int]@);
        }
        match crate::text::parse_fixed(&fields[k]) {
            Some(v) => {
                values.push(v);
            },
            None => {
                proof {
                    assert(!(crate::text::spec_parse_fixed(views(fields@)[k as int]) is Some
                        && crate::text::spec_parse_fixed(views(fields@)[k as int])->0
                        <= u128::MAX));
                }
                return None;
            },
        }
        k = k + 1;
    }
    Some(values)
}

/// One class's column of a sampled-mutations row: its histogram, or the
/// empty field when the class has no distribution.
pub open spec fn spec_class_field(
    sv: crate::sample::RegionSampledView,
    t: MutationType,
) -> Seq<u8> {
    match crate::compare::spec_lookup_class(sv.distributions, t) {
        Some(c) => crate::counts::spec_counter_text(c.counter),
        None => Seq::empty(),
    }
}

/// One row of the sampled-mutations artifact.
pub open spec fn spec_sampled_row(sv: crate::sample::RegionSampledView) -> Seq<u8> {
    crate::text::spec_join(
        seq![
            sv.region,
            spec_class_field(sv, MutationType::Unknown),
            spec_class_field(sv, MutationType::Synonymous),
            spec_class_field(sv, MutationType::Missense),
            spec_class_field(sv, MutationType::Nonsense),
            spec_class_field(sv, MutationType::StartCodon),
            spec_class_field(sv, MutationType::StopLoss),
            spec_class_field(sv, MutationType::SpliceSite),
            spec_class_field(sv, MutationType::Intronic),
            spec_class_field(sv, MutationType::InFrameIndel),
            spec_class_field(sv, MutationType::FrameshiftIndel),
        ],
        ('\t' as u8),
    ) + seq![('\n' as u8)]
}

/// The first `i` rows of the sampled-mutations artifact, after the
/// header.
pub open spec fn spec_render_sampled(rs: Seq<crate::sample::RegionSampledView>, i: int) -> Seq<u8>
    decreases i,
{
    if i <= 0 {
        spec_table_header(seq![('r' as u8), ('e' as u8), ('g' as u8), ('i' as u8), ('o' as u8), ('n' as u8)])
    } else {
        spec_render_sampled(rs, i - 1) + spec_sampled_row(rs[i - 1])
    }
}

fn class_field(entry: &crate::sample::RegionSampled, t: MutationType) -> (r: Vec<u8>)
    ensures
        r@ == spec_class_field(entry@, t),
{
    match entry.find_class(t) {
        Some(c) => c.counter.to_text(),
        None => {
            let v: Vec<u8> = Vec::new();
            proof {
                assert(v@ =~= Seq::<u8>::empty());
            }
            v
        },
    }
}

/// Render the sampled-mutations artifact: a header, then one row per
/// region with each class's pipe-joined histogram (empty when the class
/// was never sampled).
pub fn write_sampled_mutations(sampled: &crate::sample::SampledMutations) -> (r: Vec<u8>)
    ensures
        r@ == spec_render_sampled(
            crate::sample::sampled_views(sampled@),
            sampled@.len() as int,
        ),
{
    let ghost svs = crate::sample::sampled_views(sampled@);
    let mut out = table_header(region_label());
    let mut i: usize = 0;
    while i < sampled.len()
        invariant
            0 <= i <= sampled@.len(),
            svs == crate::sample::sampled_views(sampled@),
            out@ == spec_render_sampled(svs, i as int),
        decreases sampled@.len() - i,
    {
        let entry = &sampled[i];
        proof {
            assert(svs[i as int] == entry@);
        }
        let mut pieces: Vec<Vec<u8>> = Vec::new();
        pieces.push(crate::observed::clone_bytes(&entry.region));
        pieces.push(class_field(entry, MutationType::Unknown));
        pieces.push(class_field(entry, MutationType::Synonymous));
        pieces.push(class_field(entry, MutationType::Missense));
        pieces.push(class_field(entry, MutationType::Nonsense));
        pieces.push(class_field(entry, MutationType::StartCodon));
        pieces.push(class_field(entry, MutationType::StopLoss));
        pieces.push(class_field(entry, MutationType::SpliceSite));
        pieces.push(class_field(entry, MutationType::Intronic));
        pieces.push(class_field(entry, MutationType::InFrameIndel));
        pieces.push(class_field(entry, MutationType::FrameshiftIndel));
        proof {
            assert(views(pieces@) =~= seq![
                entry@.region,
                spec_class_field(entry@, MutationType::Unknown),
                spec_class_field(entry@, MutationType::Synonymous),
                spec_class_field(entry@, MutationType::Missense),
                spec_class_field(entry@, MutationType::Nonsense),
                spec_class_field(entry@, MutationType::StartCodon),
                spec_class_field(entry@, MutationType::StopLoss),
                spec_class_field(entry@, MutationType::SpliceSite),
                spec_class_field(entry@, MutationType::Intronic),
                spec_class_field(entry@, MutationType::InFrameIndel),
                spec_class_field(entry@, MutationType::FrameshiftIndel),
            ]);
        }
        let row = crate::text::join(&pieces, '\t' as u8);
        append_bytes(&mut out, &row);
        out.push('\n' as u8);
        proof {
            assert(out@ =~= spec_render_sampled(svs, i as int + 1));
        }
        i = i + 1;
    }
    out
}

/// A class's parsed column: absent when empty, a histogram otherwise.
pub open spec fn spec_parse_cell(f: Seq<u8>, t: MutationType) -> Option<
    Option<crate::sample::ClassCounterView>,
> {
    if f.len() == 0 {
        Some(None)
    } else {
        match crate::counts::spec_parse_counter(f) {
            Some(c) => Some(
                Some(crate::sample::ClassCounterView { mutation_type: t, counter: c }),
            ),
            None => None,
        }
    }
}

pub open spec fn opt_seq(o: Option<crate::sample::ClassCounterView>) -> Seq<
    crate::sample::ClassCounterView,
> {
    match o {
        Some(c) => seq![c],
        None => Seq::empty(),
    }
}

/// The distributions of the class columns below `k` of a row.
pub open spec fn spec_cells_upto(fs: Seq<Seq<u8>>, k: int) -> Option<
    Seq<crate::sample::ClassCounterView>,
>
    decreases k,
{
    if k <= 1 {
        Some(Seq::empty())
    } else {
        match spec_cells_upto(fs, k - 1) {
            Some(acc) => {
                match spec_parse_cell(fs[k - 1], MutationType::spec_from_code((k - 2) as u8)) {
                    Some(o) => Some(acc + opt_seq(o)),
                    None => None,
                }
            },
            None => None,
        }
    }
}

/// The sampled distributions one row denotes.
pub open spec fn spec_parse_sampled_row(line: Seq<u8>) -> Option<
    crate::sample::RegionSampledView,
> {
    let fs = spec_split(line, ('\t' as u8));
    if fs.len() == 11 {
        match spec_cells_upto(fs, 11) {
            Some(ds) => Some(
                crate::sample::RegionSampledView { region: fs[0], distributions: ds },
            ),
            None => None,
        }
    } else {
        None
    }
}

/// The sampled-mutations table a file denotes: empty lines skipped, the
/// first remaining line the header.
pub open spec fn spec_parse_sampled(lines: Seq<Seq<u8>>, i: int) -> Option<
    (Seq<crate::sample::RegionSampledView>, bool),
>
    decreases i,
{
    if i <= 0 {
        Some((Seq::empty(), false))
    } else {
        match spec_parse_sampled(lines, i - 1) {
            Some((acc, seen)) => {
                if lines[i - 1].len() == 0 {
                    Some((acc, seen))
                } else if !seen {
                    Some((acc, true))
                } else {
                    match spec_parse_sampled_row(lines[i - 1]) {
                        Some(sv) => Some((acc.push(sv), true)),
                        None => None,
                    }
                }
            },
            None => None,
        }
    }
}

proof fn lemma_parse_sampled_none_after(lines: Seq<Seq<u8>>, j: int)
    requires
        0 <= j <= lines.len(),
        spec_parse_sampled(lines, j) is None,
    ensures
        spec_parse_sampled(lines, lines.len() as int) is None,
    decreases lines.len() - j,
{
    if j < lines.len() {
        assert(spec_parse_sampled(lines, j + 1) is None);
        lemma_parse_sampled_none_after(lines, j + 1);
    }
}

proof fn lemma_cells_none_after(fs: Seq<Seq<u8>>, j: int)
    requires
        1 <= j <= 11,
        spec_cells_upto(fs, j) is None,
    ensures
        spec_cells_upto(fs, 11) is None,
    decreases 11 - j,
{
    if j < 11 {
        assert(spec_cells_upto(fs, j + 1) is None);
        lemma_cells_none_after(fs, j + 1);
    }
}

/// Parse one row's class columns.
fn parse_sampled_cells(fields: &Vec<Vec<u8>>) -> (r: Option<Vec<crate::sample::ClassCounter>>)
    requires
        fields@.len() == 11,
    ensures
        match r {
            Some(v) => Some(crate::sample::class_views(v@)) == spec_cells_upto(
                views(fields@),
                11,
            ),
            None => spec_cells_upto(views(fields@), 11) is None,
        },
{
    let mut out: Vec<crate::sample::ClassCounter> = Vec::new();
    let mut k: usize = 1;
    proof {
        assert(crate::sample::class_views(out@) =~= Seq::<
            crate::sample::ClassCounterView,
        >::empty());
        assert(Some(crate::sample::class_views(out@)) == spec_cells_upto(views(fields@), 1));
    }
    while k < 11
        invariant
            1 <= k <= 11,
            fields@.len() == 11,
            Some(crate::sample::class_views(out@)) == spec_cells_upto(views(fields@), k as int),
        decreases 11 - k,
    {
        proof {
            assert(views(fields@)[k as int] == fields@[k as int]@);
        }
        let ghost acc0 = crate::sample::class_views(out@);
        let t = MutationType::from_code((k - 1) as u8);
        if fields[k].len() > 0 {
            match crate::counts::DefaultCounter::from_text(&fields[k]) {
                Some(counter) => {
                    let cc = crate::sample::ClassCounter { mutation_type: t, counter };
                    let ghost cv = cc@;
                    out.push(cc);
                    proof {
                        assert(crate::sample::class_views(out@) =~= acc0.push(cv));
                        assert(acc0.push(cv) =~= acc0 + opt_seq(Some(cv)));
                    }
                },
                None => {
                    proof {
                        assert(spec_parse_cell(
                            views(fields@)[k as int],
                            MutationType::spec_from_code((k - 1) as u8),
                        ) is None);
                        assert(spec_cells_upto(views(fields@), k as int + 1) is None);
                        lemma_cells_none_after(views(fields@), k as int + 1);
                    }
                    return None;
                },
            }
        } else {
            proof {
                assert(crate::sample::class_views(out@) =~= acc0 + opt_seq(
                    None::<crate::sample::ClassCounterView>,
                ));
            }
        }
        k = k + 1;
    }
    Some(out)
}

/// Parse the sampled-mutations artifact.
#[verifier::rlimit(100)]
pub fn read_sampled_mutations(data: &[u8]) -> (r: Result<
    crate::sample::SampledMutations,
    crate::error::ParseError,
>)
    ensures
        r is Ok <==> spec_parse_sampled(
            spec_split(data@, ('\n' as u8)),
            spec_split(data@, ('\n' as u8)).len() as int,
        ) is Some,
        r is Ok ==> Some(crate::sample::sampled_views(r->Ok_0@)) == Some(
            (spec_parse_sampled(
                spec_split(data@, ('\n' as u8)),
                spec_split(data@, ('\n' as u8)).len() as int,
            )->0).0,
        ),
{
    let lines = split(data, '\n' as u8);
    let ghost lns = spec_split(data@, ('\n' as u8));
    let mut result: crate::sample::SampledMutations = Vec::new();
    let mut seen_header = false;
    let mut i: usize = 0;
    proof {
        assert(crate::sample::sampled_views(result@) =~= Seq::<
            crate::sample::RegionSampledView,
        >::empty());
        assert(Some((crate::sample::sampled_views(result@), seen_header)) == spec_parse_sampled(
            lns,
            0,
        ));
    }
    while i < lines.len()
        invariant
            0 <= i <= lines@.len(),
            lns == spec_split(data@, ('\n' as u8)),
            views(lines@) == lns,
            Some((crate::sample::sampled_views(result@), seen_header)) == spec_parse_sampled(
                lns,
                i as int,
            ),
        decreases lines@.len() - i,
    {
        let line = &lines[i];
        proof {
            assert(views(lines@)[i as int] == lines@[i as int]@);
        }
        let ghost acc0 = crate::sample::sampled_views(result@);
        if line.len() == 0 {
            i = i + 1;
            continue ;
        }
        if !seen_header {
            seen_header = true;
            i = i + 1;
            continue ;
        }
        let fields = split(line.as_slice(), '\t' as u8);
        let ghost fvs = spec_split(line@, ('\t' as u8));
        proof {
            assert(views(fields@) == fvs);
        }
        if fields.len() != 11 {
            proof {
                assert(spec_parse_sampled_row(lns[i as int]) is None);
                assert(spec_parse_sampled(lns, i as int + 1) is None);
                lemma_parse_sampled_none_after(lns, i as int + 1);
            }
            return Err(crate::error::ParseError::new(parse_msg(i + 1)));
        }
        let distributions = match parse_sampled_cells(&fields) {
            Some(v) => v,
            None => {
                proof {
                    assert(spec_parse_sampled_row(lns[i as int]) is None);
                    assert(spec_parse_sampled(lns, i as int + 1) is None);
                    lemma_parse_sampled_none_after(lns, i as int + 1);
                }
                return Err(crate::error::ParseError::new(parse_msg(i + 1)));
            },
        };
        proof {
            assert(views(fields@)[0] == fields@[0]@);
        }
        let entry = crate::sample::RegionSampled {
            region: clone_slice(&fields[0]),
            distributions,
        };
        let ghost sv = entry@;
        result.push(entry);
        proof {
            assert(Some(sv) == spec_parse_sampled_row(lns[i as int]));
            assert(crate::sample::sampled_views(result@) =~= acc0.push(sv));
        }
        i = i + 1;
    }
    Ok(result)
}

/// A change rendered as `REF->ALT`.
pub open spec fn spec_render_change(c: crate::observed::ChangeView) -> Seq<u8> {
    match c {
        crate::observed::ChangeView::PointMutation(f, t) => seq![f, ('-' as u8), ('>' as u8), t],
        crate::observed::ChangeView::Indel(f, t) => f + seq![('-' as u8), ('>' as u8)] + t,
    }
}

/// The region column of a classified row: the region name, or empty.
pub open spec fn spec_region_field(m: crate::observed::MutationView) -> Seq<u8> {
    match m.region {
        Some(r) => r,
        None => Seq::empty(),
    }
}

/// One row of the classified-mutations artifact.
pub open spec fn spec_classified_row(m: crate::observed::MutationView) -> Seq<u8> {
    crate::text::spec_join(
        seq![
            spec_region_field(m),
            m.chromosome,
            dec_digits(m.position as nat),
            m.mutation_type.spec_name(),
            spec_render_change(m.change),
        ],
        ('\t' as u8),
    ) + seq![('\n' as u8)]
}

pub open spec fn classified_header() -> Seq<u8> {
    seq![
        ('r' as u8), ('e' as u8), ('g' as u8), ('i' as u8), ('o' as u8), ('n' as u8), ('\t' as u8),
        ('c' as u8), ('h' as u8), ('r' as u8), ('o' as u8), ('m' as u8), ('o' as u8), ('s' as u8),
        ('o' as u8), ('m' as u8), ('e' as u8), ('\t' as u8), ('p' as u8), ('o' as u8), ('s' as u8),
        ('i' as u8), ('t' as u8), ('i' as u8), ('o' as u8), ('n' as u8), ('\t' as u8), ('m' as u8),
        ('u' as u8), ('t' as u8), ('a' as u8), ('t' as u8), ('i' as u8), ('o' as u8), ('n' as u8),
        ('_' as u8), ('t' as u8), ('y' as u8), ('p' as u8), ('e' as u8), ('\t' as u8), ('c' as u8),
        ('h' as u8), ('a' as u8), ('n' as u8), ('g' as u8), ('e' as u8), ('\n' as u8),
    ]
}

/// The first `i` rows of the classified-mutations artifact.
pub open spec fn spec_render_classified(ms: Seq<crate::observed::MutationView>, i: int) -> Seq<u8>
    decreases i,
{
    if i <= 0 {
        classified_header()
    } else {
        spec_render_classified(ms, i - 1) + spec_classified_row(ms[i - 1])
    }
}

#[verifier::rlimit(100)]
fn exec_classified_header() -> (r: Vec<u8>)
    ensures
        r@ == classified_header(),
{
    let mut r: Vec<u8> = Vec::new();
    r.push('r' as u8);
    r.push('e' as u8);
    r.push('g' as u8);
    r.push('i' as u8);
    r.push('o' as u8);
    r.push('n' as u8);
    r.push('\t' as u8);
    r.push('c' as u8);
    r.push('h' as u8);
    r.push('r' as u8);
    r.push('o' as u8);
    r.push('m' as u8);
    r.push('o' as u8);
    r.push('s' as u8);
    r.push('o' as u8);
    r.push('m' as u8);
    r.push('e' as u8);
    r.push('\t' as u8);
    r.push('p' as u8);
    r.push('o' as u8);
    r.push('s' as u8);
    r.push('i' as u8);
    r.push('t' as u8);
    r.push('i' as u8);
    r.push('o' as u8);
    r.push('n' as u8);
    r.push('\t' as u8);
    r.push('m' as u8);
    r.push('u' as u8);
    r.push('t' as u8);
    r.push('a' as u8);
    r.push('t' as u8);
    r.push('i' as u8);
    r.push('o' as u8);
    r.push('n' as u8);
    r.push('_' as u8);
    r.push('t' as u8);
    r.push('y' as u8);
    r.push('p' as u8);
    r.push('e' as u8);
    r.push('\t' as u8);
    r.push('c' as u8);
    r.push('h' as u8);
    r.push('a' as u8);
    r.push('n' as u8);
    r.push('g' as u8);
    r.push('e' as u8);
    r.push('\n' as u8);
    proof {
        assert(r@ =~= classified_header());
    }
    r
}

fn render_change(c: &crate::observed::Change) -> (r: Vec<u8>)
    ensures
        r@ == spec_render_change(c@),
{
    let mut r: Vec<u8> = Vec::new();
    match c {
        crate::observed::Change::PointMutation(f, t) => {
            r.push(*f);
            r.push('-' as u8);
            r.push('>' as u8);
            r.push(*t);
            proof {
                assert(r@ =~= spec_render_change(c@));
            }
        },
        crate::observed::Change::Indel(f, t) => {
            append_bytes(&mut r, f);
            r.push('-' as u8);
            r.push('>' as u8);
            append_bytes(&mut r, t);
            proof {
                assert(r@ =~= spec_render_change(c@));
            }
        },
    }
    r
}

/// Render the classified-mutations artifact: a header, then one row per
/// variant.
pub fn write_classified_mutations(mutations: &Vec<crate::observed::Mutation>) -> (r: Vec<u8>)
    ensures
        r@ == spec_render_classified(
            crate::observed::mutation_views(mutations@),
            mutations@.len() as int,
        ),
{
    let ghost ms = crate::observed::mutation_views(mutations@);
    let mut out = exec_classified_header();
    let mut i: usize = 0;
    while i < mutations.len()
        invariant
            0 <= i <= mutations@.len(),
            ms == crate::observed::mutation_views(mutations@),
            out@ == spec_render_classified(ms, i as int),
        decreases mutations@.len() - i,
    {
        let m = &mutations[i];
        proof {
            assert(ms[i as int] == m@);
        }
        let mut pieces: Vec<Vec<u8>> = Vec::new();
        let region_field = match &m.region {
            Some(rg) => crate::observed::clone_bytes(rg),
            None => Vec::new(),
        };
        proof {
            assert(region_field@ =~= spec_region_field(m@));
        }
        pieces.push(region_field);
        pieces.push(crate::observed::clone_bytes(&m.chromosome));
        pieces.push(render_usize(m.position));
        pieces.push(m.mutation_type.name());
        pieces.push(render_change(&m.change));
        proof {
            assert(views(pieces@) =~~= seq![
                spec_region_field(m@),
                m@.chromosome,
                dec_digits(m@.position as nat),
                m@.mutation_type.spec_name(),
                spec_render_change(m@.change),
            ]);
        }
        let row = crate::text::join(&pieces, '\t' as u8);
        let ghost prev0 = out@;
        append_bytes(&mut out, &row);
        out.push('\n' as u8);
        proof {
            assert(spec_classified_row(ms[i as int]) =~= row@ + seq![('\n' as u8)]);
            assert(out@ =~= prev0 + (row@ + seq![('\n' as u8)]));
            assert(out@ =~= spec_render_classified(ms, i as int + 1));
        }
        i = i + 1;
    }
    out
}

/// The class a display name denotes.
pub open spec fn spec_type_of_name(s: Seq<u8>) -> Option<MutationType> {
    if s == MutationType::Unknown.spec_name() {
        Some(MutationType::Unknown)
    } else if s == MutationType::Synonymous.spec_name() {
        Some(MutationType::Synonymous)
    } else if s == MutationType::Missense.spec_name() {
        Some(MutationType::Missense)
    } else if s == MutationType::Nonsense.spec_name() {
        Some(MutationType::Nonsense)
    } else if s == MutationType::StartCodon.spec_name() {
        Some(MutationType::StartCodon)
    } else if s == MutationType::StopLoss.spec_name() {
        Some(MutationType::StopLoss)
    } else if s == MutationType::SpliceSite.spec_name() {
        Some(MutationType::SpliceSite)
    } else if s == MutationType::Intronic.spec_name() {
        Some(MutationType::Intronic)
    } else if s == MutationType::InFrameIndel.spec_name() {
        Some(MutationType::InFrameIndel)
    } else if s == MutationType::FrameshiftIndel.spec_name() {
        Some(MutationType::FrameshiftIndel)
    } else {
        None
    }
}

fn type_of_name(s: &[u8]) -> (r: Option<MutationType>)
    ensures
        r == spec_type_of_name(s@),
{
    let n = MutationType::Unknown.name();
    if bytes_eq(n.as_slice(), s) {
        proof {
            assert(MutationType::Unknown.spec_name() == s@);
        }
        return Some(MutationType::Unknown);
    }
    let n = MutationType::Synonymous.name();
    if bytes_eq(n.as_slice(), s) {
        proof {
            assert(MutationType::Synonymous.spec_name() == s@);
        }
        return Some(MutationType::Synonymous);
    }
    let n = MutationType::Missense.name();
    if bytes_eq(n.as_slice(), s) {
        proof {
            assert(MutationType::Missense.spec_name() == s@);
        }
        return Some(MutationType::Missense);
    }
    let n = MutationType::Nonsense.name();
    if bytes_eq(n.as_slice(), s) {
        proof {
            assert(MutationType::Nonsense.spec_name() == s@);
        }
        return Some(MutationType::Nonsense);
    }
    let n = MutationType::StartCodon.name();
    if bytes_eq(n.as_slice(), s) {
        proof {
            assert(MutationType::StartCodon.spec_name() == s@);
        }
        return Some(MutationType::StartCodon);
    }
    let n = MutationType::StopLoss.name();
    if bytes_eq(n.as_slice(), s) {
        proof {
            assert(MutationType::StopLoss.spec_name() == s@);
        }
        return Some(MutationType::StopLoss);
    }
    let n = MutationType::SpliceSite.name();
    if bytes_eq(n.as_slice(), s) {
        proof {
            assert(MutationType::SpliceSite.spec_name() == s@);
        }
        return Some(MutationType::SpliceSite);
    }
    let n = MutationType::Intronic.name();
    if bytes_eq(n.as_slice(), s) {
        proof {
            assert(MutationType::Intronic.spec_name() == s@);
        }
        return Some(MutationType::Intronic);
    }
    let n = MutationType::InFrameIndel.name();
    if bytes_eq(n.as_slice(), s) {
        proof {
            assert(MutationType::InFrameIndel.spec_name() == s@);
        }
        return Some(MutationType::InFrameIndel);
    }
    let n = MutationType::FrameshiftIndel.name();
    if bytes_eq(n.as_slice(), s) {
        proof {
            assert(MutationType::FrameshiftIndel.spec_name() == s@);
        }
        return Some(MutationType::FrameshiftIndel);
    }
    None
}

/// An arrow `->` starts at index `j` of `s`.
pub open spec fn arrow_at(s: Seq<u8>, j: int) -> bool {
    0 <= j && j + 1 < s.len() && s[j] == ('-' as u8) && s[j + 1] == ('>' as u8)
}

/// Index of the first arrow `->` in `s`, if any.
pub open spec fn spec_first_arrow(s: Seq<u8>) -> Option<int>
    decreases s.len(),
{
    if s.len() < 2 {
        None
    } else if s[0] == ('-' as u8) && s[1] == ('>' as u8) {
        Some(0)
    } else {
        match spec_first_arrow(s.skip(1)) {
            Some(i) => Some(i + 1),
            None => None,
        }
    }
}

/// The first arrow is an arrow with none before it; no first arrow means
/// no arrow at all.
proof fn lemma_first_arrow_char(s: Seq<u8>)
    ensures
        match spec_first_arrow(s) {
            Some(i) => arrow_at(s, i) && (forall|k: int| 0 <= k < i ==> !arrow_at(s, k)),
            None => forall|j: int| !arrow_at(s, j),
        },
    decreases s.len(),
{
    if s.len() < 2 {
    } else if s[0] == ('-' as u8) && s[1] == ('>' as u8) {
    } else {
        lemma_first_arrow_char(s.skip(1));
        assert(forall|k: int| arrow_at(s, k + 1) == arrow_at(s.skip(1), k));
        match spec_first_arrow(s.skip(1)) {
            Some(i) => {
                assert(arrow_at(s.skip(1), i));
                assert(arrow_at(s, i + 1));
                assert forall|k: int| 0 <= k < i + 1 implies !arrow_at(s, k) by {
                    if k == 0 {
                    } else {
                        assert(!arrow_at(s.skip(1), k - 1));
                    }
                }
            },
            None => {
                assert forall|j: int| !arrow_at(s, j) by {
                    if j >= 1 {
                        assert(!arrow_at(s.skip(1), j - 1));
                    }
                }
            },
        }
    }
}

/// The change a `REF->ALT` field denotes: the field splits at its only
/// arrow into two nonempty sides; single bases on both sides make a point
/// mutation, anything else an indel.
pub open spec fn spec_parse_change(f: Seq<u8>) -> Option<crate::observed::ChangeView> {
    match spec_first_arrow(f) {
        Some(i) => {
            let from = f.take(i);
            let to = f.skip(i + 2);
            if from.len() >= 1 && to.len() >= 1 && spec_first_arrow(to) is None {
                if from.len() == 1 && to.len() == 1 {
                    Some(crate::observed::ChangeView::PointMutation(from[0], to[0]))
                } else {
                    Some(crate::observed::ChangeView::Indel(from, to))
                }
            } else {
                None
            }
        },
        None => None,
    }
}

/// Index of the first arrow, by a left-to-right scan.
fn first_arrow(f: &[u8]) -> (r: Option<usize>)
    ensures
        match r {
            Some(i) => Some(i as int) == spec_first_arrow(f@),
            None => spec_first_arrow(f@) is None,
        },
{
    let n = f.len();
    if n < 2 {
        proof {
            lemma_first_arrow_char(f@);
        }
        return None;
    }
    let mut i: usize = 0;
    while i + 1 < n
        invariant
            0 <= i <= n - 1,
            n == f@.len(),
            n >= 2,
            forall|k: int| 0 <= k < i ==> !arrow_at(f@, k),
        decreases n - i,
    {
        if f[i] == '-' as u8 && f[i + 1] == '>' as u8 {
            proof {
                lemma_first_arrow_char(f@);
                assert(arrow_at(f@, i as int));
                match spec_first_arrow(f@) {
                    Some(fi) => {
                        if fi < i as int {
                            assert(!arrow_at(f@, fi));
                        }
                        if fi > i as int {
                            assert(!arrow_at(f@, i as int));
                        }
                    },
                    None => {
                        assert(!arrow_at(f@, i as int));
                    },
                }
            }
            return Some(i);
        }
        i = i + 1;
    }
    proof {
        lemma_first_arrow_char(f@);
        match spec_first_arrow(f@) {
            Some(fi) => {
                assert(arrow_at(f@, fi));
                assert(0 <= fi < n - 1);
                assert(!arrow_at(f@, fi));
            },
            None => {},
        }
    }
    None
}

/// Copy a byte range of a slice.
fn copy_range(s: &[u8], lo: usize, hi: usize) -> (r: Vec<u8>)
    requires
        0 <= lo <= hi <= s@.len(),
    ensures
        r@ == s@.subrange(lo as int, hi as int),
{
    let mut r: Vec<u8> = Vec::new();
    let mut k: usize = lo;
    while k < hi
        invariant
            lo <= k <= hi <= s@.len(),
            r@ == s@.subrange(lo as int, k as int),
        decreases hi - k,
    {
        r.push(s[k]);
        proof {
            assert(r@ =~= s@.subrange(lo as int, k as int + 1));
        }
        k = k + 1;
    }
    r
}

fn parse_change(f: &[u8]) -> (r: Option<crate::observed::Change>)
    ensures
        match r {
            Some(c) => Some(c@) == spec_parse_change(f@),
            None => spec_parse_change(f@) is None,
        },
{
    let i = match first_arrow(f) {
        Some(i) => i,
        None => {
            return None;
        },
    };
    let n = f.len();
    proof {
        lemma_first_arrow_char(f@);
        assert(arrow_at(f@, i as int));
        assert(i + 2 <= n);
    }
    let from = copy_range(f, 0, i);
    let to = copy_range(f, i + 2, n);
    proof {
        assert(from@ =~= f@.take(i as int));
        assert(to@ =~= f@.skip(i as int + 2));
    }
    if from.len() < 1 || to.len() < 1 {
        return None;
    }
    if first_arrow(&to).is_some() {
        return None;
    }
    if from.len() == 1 && to.len() == 1 {
        Some(crate::observed::Change::PointMutation(from[0], to[0]))
    } else {
        Some(crate::observed::Change::Indel(from, to))
    }
}

/// The variant one classified-mutations row denotes.
pub open spec fn spec_parse_classified_row(line: Seq<u8>) -> Option<
    crate::observed::MutationView,
> {
    let fs = spec_split(line, ('\t' as u8));
    if fs.len() == 5 && fs[2].len() > 0 && all_digits(fs[2]) && dec_value(fs[2]) <= usize::MAX
        && spec_type_of_name(fs[3]) is Some && spec_parse_change(fs[4]) is Some {
        Some(
            crate::observed::MutationView {
                region: if fs[0].len() == 0 {
                    None
                } else {
                    Some(fs[0])
                },
                chromosome: fs[1],
                position: dec_value(fs[2]),
                mutation_type: spec_type_of_name(fs[3])->0,
                change: spec_parse_change(fs[4])->0,
            },
        )
    } else {
        None
    }
}

/// The classified-mutations table a file denotes: empty lines skipped,
/// the first remaining line the header.
pub open spec fn spec_parse_classified(lines: Seq<Seq<u8>>, i: int) -> Option<
    (Seq<crate::observed::MutationView>, bool),
>
    decreases i,
{
    if i <= 0 {
        Some((Seq::empty(), false))
    } else {
        match spec_parse_classified(lines, i - 1) {
            Some((acc, seen)) => {
                if lines[i - 1].len() == 0 {
                    Some((acc, seen))
                } else if !seen {
                    Some((acc, true))
                } else {
                    match spec_parse_classified_row(lines[i - 1]) {
                        Some(m) => Some((acc.push(m), true)),
                        None => None,
                    }
                }
            },
            None => None,
        }
    }
}

proof fn lemma_parse_classified_none_after(lines: Seq<Seq<u8>>, j: int)
    requires
        0 <= j <= lines.len(),
        spec_parse_classified(lines, j) is None,
    ensures
        spec_parse_classified(lines, lines.len() as int) is None,
    decreases lines.len() - j,
{
    if j < lines.len() {
        assert(spec_parse_classified(lines, j + 1) is None);
        lemma_parse_classified_none_after(lines, j + 1);
    }
}

/// Parse the classified-mutations artifact.
#[verifier::rlimit(100)]
pub fn read_classified_mutations(data: &[u8]) -> (r: Result<
    Vec<crate::observed::Mutation>,
    crate::error::ParseError,
>)
    ensures
        r is Ok <==> spec_parse_classified(
            spec_split(data@, ('\n' as u8)),
            spec_split(data@, ('\n' as u8)).len() as int,
        ) is Some,
        r is Ok ==> Some(crate::observed::mutation_views(r->Ok_0@)) == Some(
            (spec_parse_classified(
                spec_split(data@, ('\n' as u8)),
                spec_split(data@, ('\n' as u8)).len() as int,
            )->0).0,
        ),
{
    let lines = split(data, '\n' as u8);
    let ghost lns = spec_split(data@, ('\n' as u8));
    let mut result: Vec<crate::observed::Mutation> = Vec::new();
    let mut seen_header = false;
    let mut i: usize = 0;
    proof {
        assert(crate::observed::mutation_views(result@) =~= Seq::<
            crate::observed::MutationView,
        >::empty());
        assert(Some((crate::observed::mutation_views(result@), seen_header))
            == spec_parse_classified(lns, 0));
    }
    while i < lines.len()
        invariant
            0 <= i <= lines@.len(),
            lns == spec_split(data@, ('\n' as u8)),
            views(lines@) == lns,
            Some((crate::observed::mutation_views(result@), seen_header)) == spec_parse_classified(
                lns,
                i as int,
            ),
        decreases lines@.len() - i,
    {
        let line = &lines[i];
        proof {
            assert(views(lines@)[i as int] == lines@[i as int]@);
        }
        let ghost acc0 = crate::observed::mutation_views(result@);
        if line.len() == 0 {
            i = i + 1;
            continue ;
        }
        if !seen_header {
            seen_header = true;
            i = i + 1;
            continue ;
        }
        let fields = split(line.as_slice(), '\t' as u8);
        let ghost fvs = spec_split(line@, ('\t' as u8));
        proof {
            assert(views(fields@) == fvs);
        }
        if fields.len() != 5 {
            proof {
                assert(spec_parse_classified_row(lns[i as int]) is None);
                assert(spec_parse_classified(lns, i as int + 1) is None);
                lemma_parse_classified_none_after(lns, i as int + 1);
            }
            return Err(crate::error::ParseError::new(parse_msg(i + 1)));
        }
        proof {
            assert(views(fields@)[0] == fields@[0]@);
            assert(views(fields@)[1] == fields@[1]@);
            assert(views(fields@)[2] == fields@[2]@);
            assert(views(fields@)[3] == fields@[3]@);
            assert(views(fields@)[4] == fields@[4]@);
        }
        let position = match parse_usize(&fields[2]) {
            Some(v) => v,
            None => {
                proof {
                    assert(spec_parse_classified_row(lns[i as int]) is None);
                    assert(spec_parse_classified(lns, i as int + 1) is None);
                    lemma_parse_classified_none_after(lns, i as int + 1);
                }
                return Err(crate::error::ParseError::new(parse_msg(i + 1)));
            },
        };
        let mutation_type = match type_of_name(&fields[3]) {
            Some(v) => v,
            None => {
                proof {
                    assert(spec_parse_classified_row(lns[i as int]) is None);
                    assert(spec_parse_classified(lns, i as int + 1) is None);
                    lemma_parse_classified_none_after(lns, i as int + 1);
                }
                return Err(crate::error::ParseError::new(parse_msg(i + 1)));
            },
        };
        let change = match parse_change(&fields[4]) {
            Some(v) => v,
            None => {
                proof {
                    assert(spec_parse_classified_row(lns[i as int]) is None);
                    assert(spec_parse_classified(lns, i as int + 1) is None);
                    lemma_parse_classified_none_after(lns, i as int + 1);
                }
                return Err(crate::error::ParseError::new(parse_msg(i + 1)));
            },
        };
        let region = if fields[0].len() == 0 {
            None
        } else {
            Some(clone_slice(&fields[0]))
        };
        let entry = crate::observed::Mutation {
            region,
            chromosome: clone_slice(&fields[1]),
            position,
            mutation_type,
            change,
        };
        let ghost mv = entry@;
        result.push(entry);
        proof {
            assert(Some(mv) == spec_parse_classified_row(lns[i as int]));
            assert(crate::observed::mutation_views(result@) =~= acc0.push(mv));
        }
        i = i + 1;
    }
    Ok(result)
}

/// A p-value column: the fraction as a truncated fixed-point decimal, or
/// `nan` when the sampling total was zero.
pub open spec fn spec_render_p_value(p: crate::counts::Fraction) -> Seq<u8> {
    if p.den == 0 {
        seq![('n' as u8), ('a' as u8), ('n' as u8)]
    } else {
        crate::text::spec_render_fixed((p.num * crate::text::FRAC_UNIT) / (p.den as int))
    }
}

fn render_p_value(p: &crate::counts::Fraction) -> (r: Vec<u8>)
    ensures
        r@ == spec_render_p_value(*p),
{
    if p.den == 0 {
        let mut r: Vec<u8> = Vec::new();
        r.push('n' as u8);
        r.push('a' as u8);
        r.push('n' as u8);
        proof {
            assert(r@ =~= spec_render_p_value(*p));
        }
        r
    } else {
        proof {
            vstd::arithmetic::mul::lemma_mul_upper_bound(
                p.num as int,
                u64::MAX as int,
                crate::text::FRAC_UNIT as int,
                crate::text::FRAC_UNIT as int,
            );
            vstd::arithmetic::mul::lemma_mul_nonnegative(
                p.num as int,
                crate::text::FRAC_UNIT as int,
            );
            vstd::arithmetic::div_mod::lemma_div_is_ordered_by_denominator(
                (p.num as int) * (crate::text::FRAC_UNIT as int),
                1,
                p.den as int,
            );
            vstd::arithmetic::div_mod::lemma_div_basics(
                (p.num as int) * (crate::text::FRAC_UNIT as int),
            );
        }
        let v = (p.num as u128) * (crate::text::FRAC_UNIT as u128) / (p.den as u128);
        crate::text::render_fixed(v)
    }
}

pub open spec fn significant_header() -> Seq<u8> {
    seq![
        ('r' as u8), ('e' as u8), ('g' as u8), ('i' as u8), ('o' as u8), ('n' as u8), ('\t' as u8),
        ('m' as u8), ('u' as u8), ('t' as u8), ('a' as u8), ('t' as u8), ('i' as u8), ('o' as u8),
        ('n' as u8), ('_' as u8), ('t' as u8), ('y' as u8), ('p' as u8), ('e' as u8), ('\t' as u8),
        ('o' as u8), ('b' as u8), ('s' as u8), ('e' as u8), ('r' as u8), ('v' as u8), ('e' as u8),
        ('d' as u8), ('\t' as u8), ('e' as u8), ('x' as u8), ('p' as u8), ('e' as u8), ('c' as u8),
        ('t' as u8), ('e' as u8), ('d' as u8), ('\t' as u8), ('p' as u8), ('_' as u8),
        ('v' as u8), ('a' as u8), ('l' as u8), ('u' as u8), ('e' as u8), ('\n' as u8),
    ]
}

/// One row of the significance table.
pub open spec fn spec_significant_row(c: crate::compare::ComparedView) -> Seq<u8> {
    crate::text::spec_join(
        seq![
            c.region,
            c.mutation_type.spec_name(),
            dec_digits(c.observed as nat),
            crate::text::spec_render_fixed(c.expected),
            spec_render_p_value(c.p_value),
        ],
        ('\t' as u8),
    ) + seq![('\n' as u8)]
}

/// The first `i` rows of the significance table, after the header.
pub open spec fn spec_render_significant(cs: Seq<crate::compare::ComparedView>, i: int) -> Seq<u8>
    decreases i,
{
    if i <= 0 {
        significant_header()
    } else {
        spec_render_significant(cs, i - 1) + spec_significant_row(cs[i - 1])
    }
}

#[verifier::rlimit(100)]
fn exec_significant_header() -> (r: Vec<u8>)
    ensures
        r@ == significant_header(),
{
    let mut r: Vec<u8> = Vec::new();
    r.push('r' as u8);
    r.push('e' as u8);
    r.push('g' as u8);
    r.push('i' as u8);
    r.push('o' as u8);
    r.push('n' as u8);
    r.push('\t' as u8);
    r.push('m' as u8);
    r.push('u' as u8);
    r.push('t' as u8);
    r.push('a' as u8);
    r.push('t' as u8);
    r.push('i' as u8);
    r.push('o' as u8);
    r.push('n' as u8);
    r.push('_' as u8);
    r.push('t' as u8);
    r.push('y' as u8);
    r.push('p' as u8);
    r.push('e' as u8);
    r.push('\t' as u8);
    r.push('o' as u8);
    r.push('b' as u8);
    r.push('s' as u8);
    r.push('e' as u8);
    r.push('r' as u8);
    r.push('v' as u8);
    r.push('e' as u8);
    r.push('d' as u8);
    r.push('\t' as u8);
    r.push('e' as u8);
    r.push('x' as u8);
    r.push('p' as u8);
    r.push('e' as u8);
    r.push('c' as u8);
    r.push('t' as u8);
    r.push('e' as u8);
    r.push('d' as u8);
    r.push('\t' as u8);
    r.push('p' as u8);
    r.push('_' as u8);
    r.push('v' as u8);
    r.push('a' as u8);
    r.push('l' as u8);
    r.push('u' as u8);
    r.push('e' as u8);
    r.push('\n' as u8);
    proof {
        assert(r@ =~= significant_header());
    }
    r
}

/// Render the significance table: a header, then one row per comparison.
pub fn write_compared_mutations(compared: &Vec<crate::compare::ComparedMutations>) -> (r: Vec<u8>)
    ensures
        r@ == spec_render_significant(
            crate::compare::compared_views(compared@),
            compared@.len() as int,
        ),
{
    let ghost cvs = crate::compare::compared_views(compared@);
    let mut out = exec_significant_header();
    let mut i: usize = 0;
    while i < compared.len()
        invariant
            0 <= i <= compared@.len(),
            cvs == crate::compare::compared_views(compared@),
            out@ == spec_render_significant(cvs, i as int),
        decreases compared@.len() - i,
    {
        let c = &compared[i];
        proof {
            assert(cvs[i as int] == c@);
        }
        let mut pieces: Vec<Vec<u8>> = Vec::new();
        pieces.push(crate::observed::clone_bytes(&c.region));
        pieces.push(c.mutation_type.name());
        pieces.push(render_usize(c.observed));
        pieces.push(crate::text::render_fixed(c.expected));
        pieces.push(render_p_value(&c.p_value));
        proof {
            assert(views(pieces@) =~~= seq![
                c@.region,
                c@.mutation_type.spec_name(),
                dec_digits(c@.observed as nat),
                crate::text::spec_render_fixed(c@.expected),
                spec_render_p_value(c@.p_value),
            ]);
        }
        let row = crate::text::join(&pieces, '\t' as u8);
        let ghost prev0 = out@;
        append_bytes(&mut out, &row);
        out.push('\n' as u8);
        proof {
            assert(spec_significant_row(cvs[i as int]) =~= row@ + seq![('\n' as u8)]);
            assert(out@ =~= prev0 + (row@ + seq![('\n' as u8)]));
            assert(out@ =~= spec_render_significant(cvs, i as int + 1));
        }
        i = i + 1;
    }
    out
}

/// One row of the per-transcript tally table.
pub open spec fn spec_tally_row(ov: crate::compare::RegionObservedView) -> Seq<u8> {
    crate::text::spec_join(
        seq![
            ov.region,
            dec_digits(ov.counts.unknown as nat),
            dec_digits(ov.counts.synonymous as nat),
            dec_digits(ov.counts.missense as nat),
            dec_digits(ov.counts.nonsense as nat),
            dec_digits(ov.counts.start_codon as nat),
            dec_digits(ov.counts.stop_loss as nat),
            dec_digits(ov.counts.splice_site as nat),
            dec_digits(ov.counts.intronic as nat),
            dec_digits(ov.counts.inframe_indel as nat),
            dec_digits(ov.counts.frameshift_indel as nat),
        ],
        ('\t' as u8),
    ) + seq![('\n' as u8)]
}

/// The first `i` rows of the tally table, after the header.
pub open spec fn spec_render_tally(os: Seq<crate::compare::RegionObservedView>, i: int) -> Seq<u8>
    decreases i,
{
    if i <= 0 {
        spec_table_header(seq![('n' as u8), ('a' as u8), ('m' as u8), ('e' as u8)])
    } else {
        spec_render_tally(os, i - 1) + spec_tally_row(os[i - 1])
    }
}

fn name_label() -> (r: Vec<u8>)
    ensures
        r@ == seq![('n' as u8), ('a' as u8), ('m' as u8), ('e' as u8)],
{
    let mut r: Vec<u8> = Vec::new();
    r.push('n' as u8);
    r.push('a' as u8);
    r.push('m' as u8);
    r.push('e' as u8);
    proof {
        assert(r@ =~= seq![('n' as u8), ('a' as u8), ('m' as u8), ('e' as u8)]);
    }
    r
}

pub open spec fn observed_views(v: Seq<crate::compare::RegionObserved>) -> Seq<
    crate::compare::RegionObservedView,
> {
    v.map_values(|o: crate::compare::RegionObserved| o@)
}

/// Render the per-transcript tally table: a header, then one row per
/// region with the observed counts per class.
pub fn write_tally(tally: &Vec<crate::compare::RegionObserved>) -> (r: Vec<u8>)
    ensures
        r@ == spec_render_tally(observed_views(tally@), tally@.len() as int),
{
    let ghost ovs = observed_views(tally@);
    let mut out = table_header(name_label());
    let mut i: usize = 0;
    while i < tally.len()
        invariant
            0 <= i <= tally@.len(),
            ovs == observed_views(tally@),
            out@ == spec_render_tally(ovs, i as int),
        decreases tally@.len() - i,
    {
        let o = &tally[i];
        proof {
            assert(ovs[i as int] == o@);
        }
        let mut pieces: Vec<Vec<u8>> = Vec::new();
        pieces.push(crate::observed::clone_bytes(&o.region));
        pieces.push(render_usize(o.counts.unknown));
        pieces.push(render_usize(o.counts.synonymous));
        pieces.push(render_usize(o.counts.missense));
        pieces.push(render_usize(o.counts.nonsense));
        pieces.push(render_usize(o.counts.start_codon));
        pieces.push(render_usize(o.counts.stop_loss));
        pieces.push(render_usize(o.counts.splice_site));
        pieces.push(render_usize(o.counts.intronic));
        pieces.push(render_usize(o.counts.inframe_indel));
        pieces.push(render_usize(o.counts.frameshift_indel));
        proof {
            assert(views(pieces@) =~~= seq![
                o@.region,
                dec_digits(o@.counts.unknown as nat),
                dec_digits(o@.counts.synonymous as nat),
                dec_digits(o@.counts.missense as nat),
                dec_digits(o@.counts.nonsense as nat),
                dec_digits(o@.counts.start_codon as nat),
                dec_digits(o@.counts.stop_loss as nat),
                dec_digits(o@.counts.splice_site as nat),
                dec_digits(o@.counts.intronic as nat),
                dec_digits(o@.counts.inframe_indel as nat),
                dec_digits(o@.counts.frameshift_indel as nat),
            ]);
        }
        let row = crate::text::join(&pieces, '\t' as u8);
        let ghost prev0 = out@;
        append_bytes(&mut out, &row);
        out.push('\n' as u8);
        proof {
            assert(spec_tally_row(ovs[i as int]) =~= row@ + seq![('\n' as u8)]);
            assert(out@ =~= prev0 + (row@ + seq![('\n' as u8)]));
            assert(out@ =~= spec_render_tally(ovs, i as int + 1));
        }
        i = i + 1;
    }
    out
}

/// The fields of one observed-variant line: space-separated tokens, empty
/// tokens dropped.
pub open spec fn spec_tokens(line: Seq<u8>) -> Seq<Seq<u8>> {
    spec_split(line, (' ' as u8)).filter(|p: Seq<u8>| p.len() > 0)
}

fn tokens(line: &[u8]) -> (r: Vec<Vec<u8>>)
    ensures
        views(r@) == spec_tokens(line@),
{
    let pieces = split(line, ' ' as u8);
    let ghost ps = spec_split(line@, (' ' as u8));
    let mut out: Vec<Vec<u8>> = Vec::new();
    let mut i: usize = 0;
    proof {
        assert(ps.take(0) =~= Seq::<Seq<u8>>::empty());
        assert(views(out@) =~= ps.take(0).filter(|p: Seq<u8>| p.len() > 0));
    }
    while i < pieces.len()
        invariant
            0 <= i <= pieces@.len(),
            ps == spec_split(line@, (' ' as u8)),
            views(pieces@) == ps,
            views(out@) == ps.take(i as int).filter(|p: Seq<u8>| p.len() > 0),
        decreases pieces@.len() - i,
    {
        proof {
            assert(views(pieces@)[i as int] == pieces@[i as int]@);
            let pred = |p: Seq<u8>| p.len() > 0;
            let prefix = ps.take(i as int);
            assert(prefix.push(ps[i as int]) =~= ps.take(i as int + 1));
            prefix.lemma_filter_push(ps[i as int], pred);
        }
        if pieces[i].len() > 0 {
            let ghost prev = views(out@);
            out.push(clone_slice(&pieces[i]));
            proof {
                assert(views(out@) =~= prev.push(ps[i as int]));
            }
        }
        i = i + 1;
    }
    proof {
        assert(ps.take(ps.len() as int) =~= ps);
    }
    out
}

/// The variant one observed-mutations input line denotes: chromosome,
/// 1-based position, reference and alternative alleles, adjusted by
/// `adjust` toward 0-based coordinates.
pub open spec fn spec_parse_observed_line(line: Seq<u8>, adjust: int) -> Option<
    crate::observed::MutationView,
> {
    let ts = spec_tokens(line);
    if ts.len() >= 4 && ts[1].len() > 0 && all_digits(ts[1]) && dec_value(ts[1]) <= usize::MAX
        && dec_value(ts[1]) + adjust >= 0 && dec_value(ts[1]) + adjust <= usize::MAX {
        Some(
            crate::observed::MutationView {
                region: None,
                chromosome: ts[0],
                position: dec_value(ts[1]) + adjust,
                mutation_type: MutationType::Unknown,
                change: if ts[2].len() == 1 && ts[3].len() == 1 {
                    crate::observed::ChangeView::PointMutation(ts[2][0], ts[3][0])
                } else {
                    crate::observed::ChangeView::Indel(ts[2], ts[3])
                },
            },
        )
    } else {
        None
    }
}

/// The observed variants a file denotes: empty lines and lines starting
/// with `#` are skipped.
pub open spec fn spec_parse_observed(lines: Seq<Seq<u8>>, adjust: int, i: int) -> Option<
    Seq<crate::observed::MutationView>,
>
    decreases i,
{
    if i <= 0 {
        Some(Seq::empty())
    } else {
        match spec_parse_observed(lines, adjust, i - 1) {
            Some(acc) => {
                if lines[i - 1].len() == 0 || lines[i - 1][0] == ('#' as u8) {
                    Some(acc)
                } else {
                    match spec_parse_observed_line(lines[i - 1], adjust) {
                        Some(m) => Some(acc.push(m)),
                        None => None,
                    }
                }
            },
            None => None,
        }
    }
}

proof fn lemma_parse_observed_none_after(lines: Seq<Seq<u8>>, adjust: int, j: int)
    requires
        0 <= j <= lines.len(),
        spec_parse_observed(lines, adjust, j) is None,
    ensures
        spec_parse_observed(lines, adjust, lines.len() as int) is None,
    decreases lines.len() - j,
{
    if j < lines.len() {
        assert(spec_parse_observed(lines, adjust, j + 1) is None);
        lemma_parse_observed_none_after(lines, adjust, j + 1);
    }
}

/// Parse the observed-mutations input: whitespace-delimited lines of
/// chromosome, position, reference allele and alternative allele, with
/// `#` comment lines; positions are shifted by `adjust` (minus one takes
/// 1-based input to 0-based coordinates).
#[verifier::rlimit(100)]
pub fn read_mutations_from_file(data: &[u8], adjust: i64) -> (r: Result<
    Vec<crate::observed::Mutation>,
    crate::error::ParseError,
>)
    ensures
        r is Ok <==> spec_parse_observed(
            spec_split(data@, ('\n' as u8)),
            adjust as int,
            spec_split(data@, ('\n' as u8)).len() as int,
        ) is Some,
        r is Ok ==> Some(crate::observed::mutation_views(r->Ok_0@)) == spec_parse_observed(
            spec_split(data@, ('\n' as u8)),
            adjust as int,
            spec_split(data@, ('\n' as u8)).len() as int,
        ),
{
    let lines = split(data, '\n' as u8);
    let ghost lns = spec_split(data@, ('\n' as u8));
    let mut result: Vec<crate::observed::Mutation> = Vec::new();
    let mut i: usize = 0;
    proof {
        assert(crate::observed::mutation_views(result@) =~= Seq::<
            crate::observed::MutationView,
        >::empty());
        assert(Some(crate::observed::mutation_views(result@)) == spec_parse_observed(
            lns,
            adjust as int,
            0,
        ));
    }
    while i < lines.len()
        invariant
            0 <= i <= lines@.len(),
            lns == spec_split(data@, ('\n' as u8)),
            views(lines@) == lns,
            Some(crate::observed::mutation_views(result@)) == spec_parse_observed(
                lns,
                adjust as int,
                i as int,
            ),
        decreases lines@.len() - i,
    {
        let line = &lines[i];
        proof {
            assert(views(lines@)[i as int] == lines@[i as int]@);
        }
        let ghost acc0 = crate::observed::mutation_views(result@);
        if line.len() == 0 || line[0] == '#' as u8 {
            i = i + 1;
            continue ;
        }
        let ts = tokens(line.as_slice());
        let ghost tvs = spec_tokens(line@);
        proof {
            assert(views(ts@) == tvs);
        }
        if ts.len() < 4 {
            proof {
                assert(spec_parse_observed_line(lns[i as int], adjust as int) is None);
                assert(spec_parse_observed(lns, adjust as int, i as int + 1) is None);
                lemma_parse_observed_none_after(lns, adjust as int, i as int + 1);
            }
            return Err(crate::error::ParseError::new(parse_msg(i + 1)));
        }
        proof {
            assert(views(ts@)[0] == ts@[0]@);
            assert(views(ts@)[1] == ts@[1]@);
            assert(views(ts@)[2] == ts@[2]@);
            assert(views(ts@)[3] == ts@[3]@);
        }
        let raw = match parse_usize(&ts[1]) {
            Some(v) => v,
            None => {
                proof {
                    assert(spec_parse_observed_line(lns[i as int], adjust as int) is None);
                    assert(spec_parse_observed(lns, adjust as int, i as int + 1) is None);
                    lemma_parse_observed_none_after(lns, adjust as int, i as int + 1);
                }
                return Err(crate::error::ParseError::new(parse_msg(i + 1)));
            },
        };
        let position: usize = if adjust >= 0 {
            let a = adjust as u64;
            if raw as u64 > u64::MAX - a || (raw as u64 + a) as u128 > usize::MAX as u128 {
                proof {
                    assert(dec_value(tvs[1]) + (adjust as int) > usize::MAX);
                    assert(spec_parse_observed_line(lns[i as int], adjust as int) is None);
                    assert(spec_parse_observed(lns, adjust as int, i as int + 1) is None);
                    lemma_parse_observed_none_after(lns, adjust as int, i as int + 1);
                }
                return Err(crate::error::ParseError::new(parse_msg(i + 1)));
            }
            (raw as u64 + a) as usize
        } else {
            let a = (-(adjust as i128)) as u64;
            if (raw as u64) < a {
                proof {
                    assert(dec_value(tvs[1]) + (adjust as int) < 0);
                    assert(spec_parse_observed_line(lns[i as int], adjust as int) is None);
                    assert(spec_parse_observed(lns, adjust as int, i as int + 1) is None);
                    lemma_parse_observed_none_after(lns, adjust as int, i as int + 1);
                }
                return Err(crate::error::ParseError::new(parse_msg(i + 1)));
            }
            (raw as u64 - a) as usize
        };
        let from = clone_slice(&ts[2]);
        let to = clone_slice(&ts[3]);
        let change = if from.len() == 1 && to.len() == 1 {
            crate::observed::Change::PointMutation(from[0], to[0])
        } else {
            crate::observed::Change::Indel(from, to)
        };
        let entry = crate::observed::Mutation {
            region: None,
            chromosome: clone_slice(&ts[0]),
            position,
            mutation_type: MutationType::Unknown,
            change,
        };
        let ghost mv = entry@;
        result.push(entry);
        proof {
            assert(Some(mv) == spec_parse_observed_line(lns[i as int], adjust as int));
            assert(crate::observed::mutation_views(result@) =~= acc0.push(mv));
        }
        i = i + 1;
    }
    Ok(result)
}

/// Append one byte string to another.
pub fn append_bytes(out: &mut Vec<u8>, piece: &Vec<u8>)
    ensures
        final(out)@ == old(out)@ + piece@,
{
    let mut k: usize = 0;
    let ghost base = out@;
    while k < piece.len()
        invariant
            0 <= k <= piece@.len(),
            out@ == base + piece@.take(k as int),
        decreases piece@.len() - k,
    {
        let b = piece[k];
        out.push(b);
        proof {
            assert(out@ =~= base + piece@.take(k as int + 1));
        }
        k = k + 1;
    }
    proof {
        assert(piece@.take(piece@.len() as int) =~= piece@);
    }
}

/// The lines of the first `j` event lines of a region.
pub open spec fn spec_event_line(e: crate::enumerate::MutationEvent) -> Seq<u8> {
    dec_digits(e.mutation_type.spec_code() as nat) + seq![(':' as u8)]
        + crate::text::spec_render_fixed(e.probability as int)
}

pub open spec fn spec_event_lines(evs: Seq<crate::enumerate::MutationEvent>, j: int) -> Seq<
    Seq<u8>,
>
    decreases j,
{
    if j <= 0 {
        Seq::empty()
    } else {
        spec_event_lines(evs, j - 1).push(spec_event_line(evs[j - 1]))
    }
}

/// The lines of the first `i` region blocks.
pub open spec fn spec_possible_lines(rs: Seq<crate::enumerate::RegionEventsView>, i: int) -> Seq<
    Seq<u8>,
>
    decreases i,
{
    if i <= 0 {
        Seq::empty()
    } else {
        spec_possible_lines(rs, i - 1) + seq![seq![('#' as u8)] + rs[i - 1].region]
            + spec_event_lines(rs[i - 1].events, rs[i - 1].events.len() as int)
    }
}

/// Lines joined with a newline after each one.
pub open spec fn spec_nl_join(lines: Seq<Seq<u8>>) -> Seq<u8>
    decreases lines.len(),
{
    if lines.len() == 0 {
        Seq::empty()
    } else {
        spec_nl_join(lines.drop_last()) + lines.last() + seq![('\n' as u8)]
    }
}

proof fn lemma_nl_join_push(lines: Seq<Seq<u8>>, l: Seq<u8>)
    ensures
        spec_nl_join(lines.push(l)) == spec_nl_join(lines) + l + seq![('\n' as u8)],
{
    assert(lines.push(l).drop_last() =~= lines);
    assert(lines.push(l).last() == l);
}

proof fn lemma_nl_join_add(a: Seq<Seq<u8>>, b: Seq<Seq<u8>>)
    ensures
        spec_nl_join(a + b) =~= spec_nl_join(a) + spec_nl_join(b),
    decreases b.len(),
{
    if b.len() == 0 {
        assert(a + b =~= a);
    } else {
        lemma_nl_join_add(a, b.drop_last());
        assert((a + b).drop_last() =~= a + b.drop_last());
        assert((a + b).last() == b.last());
        assert(spec_nl_join(b) == spec_nl_join(b.drop_last()) + b.last() + seq![('\n' as u8)]);
    }
}

/// The rendered events are their lines joined with newlines.
proof fn lemma_render_events_lines(evs: Seq<crate::enumerate::MutationEvent>, j: int)
    requires
        0 <= j,
    ensures
        spec_render_events(evs, j) =~= spec_nl_join(spec_event_lines(evs, j)),
    decreases j,
{
    if j > 0 {
        lemma_render_events_lines(evs, j - 1);
        lemma_nl_join_push(spec_event_lines(evs, j - 1), spec_event_line(evs[j - 1]));
    }
}

/// The rendered artifact is its lines joined with newlines.
proof fn lemma_render_possible_lines(rs: Seq<crate::enumerate::RegionEventsView>, i: int)
    requires
        0 <= i,
    ensures
        spec_render_possible(rs, i) =~= spec_nl_join(spec_possible_lines(rs, i)),
    decreases i,
{
    if i > 0 {
        lemma_render_possible_lines(rs, i - 1);
        let name_line = seq![('#' as u8)] + rs[i - 1].region;
        let ev_lines = spec_event_lines(rs[i - 1].events, rs[i - 1].events.len() as int);
        lemma_nl_join_add(
            spec_possible_lines(rs, i - 1) + seq![name_line],
            ev_lines,
        );
        lemma_nl_join_push(spec_possible_lines(rs, i - 1), name_line);
        assert(spec_possible_lines(rs, i - 1).push(name_line) =~= spec_possible_lines(rs, i - 1)
            + seq![name_line]);
        lemma_render_events_lines(rs[i - 1].events, rs[i - 1].events.len() as int);
    }
}

/// Splitting newline-joined, newline-free lines recovers the lines, plus
/// the final empty piece.
proof fn lemma_split_nl_join(lines: Seq<Seq<u8>>)
    requires
        forall|i: int|
            0 <= i < lines.len() ==> crate::text::piece_free(#[trigger] lines[i], ('\n' as u8)),
    ensures
        spec_split(spec_nl_join(lines), ('\n' as u8)) =~~= lines.push(Seq::empty()),
    decreases lines.len(),
{
    if lines.len() == 0 {
        assert(spec_nl_join(lines) =~= Seq::<u8>::empty());
    } else {
        // peel the first line off the front
        let first = lines[0];
        let rest = lines.drop_first();
        assert(lines =~= seq![first] + rest);
        lemma_nl_join_add(seq![first], rest);
        assert(spec_nl_join(seq![first]) =~= first + seq![('\n' as u8)]) by {
            assert(seq![first].drop_last() =~= Seq::<Seq<u8>>::empty());
            assert(spec_nl_join(Seq::<Seq<u8>>::empty()) =~= Seq::<u8>::empty());
            assert(seq![first].last() == first);
        };
        assert(spec_nl_join(lines) =~= first + seq![('\n' as u8)] + spec_nl_join(rest));
        crate::text::lemma_split_peel(first, spec_nl_join(rest), ('\n' as u8));
        assert(forall|i: int|
            0 <= i < rest.len() ==> crate::text::piece_free(#[trigger] rest[i], ('\n' as u8)));
        lemma_split_nl_join(rest);
        assert(seq![first] + rest.push(Seq::<u8>::empty()) =~~= lines.push(Seq::empty()));
    }
}

/// A left fold of the parsing step over a sequence of lines.
pub open spec fn spec_fold_lines(
    acc: Seq<crate::enumerate::RegionEventsView>,
    lines: Seq<Seq<u8>>,
) -> Option<Seq<crate::enumerate::RegionEventsView>>
    decreases lines.len(),
{
    if lines.len() == 0 {
        Some(acc)
    } else {
        match spec_possible_step(acc, lines[0]) {
            Some(acc2) => spec_fold_lines(acc2, lines.drop_first()),
            None => None,
        }
    }
}

/// Folding one line is one parsing step.
proof fn lemma_fold_single(acc: Seq<crate::enumerate::RegionEventsView>, l: Seq<u8>)
    ensures
        spec_fold_lines(acc, seq![l]) == spec_possible_step(acc, l),
{
    assert(seq![l][0] == l);
    match spec_possible_step(acc, l) {
        Some(acc2) => {
            assert(seq![l].drop_first() =~= Seq::<Seq<u8>>::empty());
            assert(spec_fold_lines(acc2, seq![l].drop_first()) == Some(acc2));
        },
        None => {},
    }
}

proof fn lemma_fold_lines_add(
    acc: Seq<crate::enumerate::RegionEventsView>,
    a: Seq<Seq<u8>>,
    b: Seq<Seq<u8>>,
)
    ensures
        spec_fold_lines(acc, a + b) == (match spec_fold_lines(acc, a) {
            Some(acc2) => spec_fold_lines(acc2, b),
            None => None,
        }),
    decreases a.len(),
{
    if a.len() == 0 {
        assert(a + b =~= b);
    } else {
        assert((a + b)[0] == a[0]);
        match spec_possible_step(acc, a[0]) {
            Some(acc2) => {
                assert((a + b).drop_first() =~= a.drop_first() + b);
                lemma_fold_lines_add(acc2, a.drop_first(), b);
            },
            None => {},
        }
    }
}

/// The prefix fold and the left fold agree.
proof fn lemma_parse_is_fold(lines: Seq<Seq<u8>>, i: int)
    requires
        0 <= i <= lines.len(),
    ensures
        spec_parse_possible(lines, i) == spec_fold_lines(Seq::empty(), lines.take(i)),
    decreases i,
{
    if i > 0 {
        lemma_parse_is_fold(lines, i - 1);
        assert(lines.take(i) =~= lines.take(i - 1) + seq![lines[i - 1]]);
        lemma_fold_lines_add(Seq::empty(), lines.take(i - 1), seq![lines[i - 1]]);
        match spec_parse_possible(lines, i - 1) {
            Some(acc) => {
                lemma_fold_single(acc, lines[i - 1]);
            },
            None => {},
        }
    }
}

/// Folding the event lines of one region extends the last region's
/// events, one event per line.
proof fn lemma_fold_event_lines(
    acc: Seq<crate::enumerate::RegionEventsView>,
    rv: crate::enumerate::RegionEventsView,
    j: int,
)
    requires
        0 <= j <= rv.events.len(),
        acc.len() > 0,
        acc.last().region == rv.region,
        acc.last().events =~= rv.events.take(j),
    ensures
        spec_fold_lines(acc, spec_event_lines(rv.events, rv.events.len() as int).skip(j))
            =~~= Some(
            acc.update(
                acc.len() - 1,
                crate::enumerate::RegionEventsView { region: acc.last().region, events: rv.events },
            ),
        ),
    decreases rv.events.len() - j,
{
    let all_lines = spec_event_lines(rv.events, rv.events.len() as int);
    lemma_event_lines_index(rv.events, rv.events.len() as int);
    if j == rv.events.len() {
        assert(all_lines.skip(j).len() == 0);
        assert(acc.last().events =~= rv.events);
        assert(acc.update(
            acc.len() - 1,
            crate::enumerate::RegionEventsView { region: acc.last().region, events: rv.events },
        ) =~~= acc);
    } else {
        let e = rv.events[j];
        let line = spec_event_line(e);
        assert(all_lines.skip(j)[0] == all_lines[j]);
        assert(all_lines[j] == line);
        // the step on an event line appends the event to the last region
        let code_digits = dec_digits(e.mutation_type.spec_code() as nat);
        let prob_text = crate::text::spec_render_fixed(e.probability as int);
        crate::text::lemma_dec_digits_are_digits(e.mutation_type.spec_code() as nat);
        crate::text::lemma_dec_value_of_digits(e.mutation_type.spec_code() as nat);
        assert(crate::text::piece_free(code_digits, (':' as u8))) by {
            assert(forall|x: int|
                0 <= x < code_digits.len() ==> crate::text::is_digit(
                    #[trigger] code_digits[x],
                ));
        };
        crate::text::lemma_split_peel(code_digits, prob_text, (':' as u8));
        assert(prob_text.len() > 0) by {
            crate::text::lemma_dec_digits_are_digits(
                ((e.probability as int) / (crate::text::FRAC_UNIT as int)) as nat,
            );
        };
        assert(crate::text::piece_free(prob_text, (':' as u8))) by {
            crate::text::lemma_dec_digits_are_digits(
                ((e.probability as int) / (crate::text::FRAC_UNIT as int)) as nat,
            );
            crate::text::lemma_dec_pad_are_digits(
                ((e.probability as int) % (crate::text::FRAC_UNIT as int)) as nat,
                crate::text::FRAC_DIGITS as nat,
            );
            assert(forall|x: int|
                0 <= x < prob_text.len() ==> prob_text[x] != (':' as u8));
        };
        crate::text::lemma_split_free(prob_text, (':' as u8));
        let ps = spec_split(line, (':' as u8));
        assert(ps =~~= seq![code_digits] + seq![prob_text]);
        assert(ps.len() == 2 && ps[0] == code_digits && ps[1] == prob_text);
        crate::text::lemma_fixed_round_trip(e.probability as nat);
        assert(line.len() > 0 && line[0] != ('#' as u8) && line[0] != 0) by {
            assert(crate::text::is_digit(code_digits[0]));
            assert(line[0] == code_digits[0]);
        };
        let stepped = spec_possible_step(acc, line);
        assert(MutationType::spec_from_code(e.mutation_type.spec_code())
            == e.mutation_type) by {
            MutationType::lemma_code_injective(
                MutationType::spec_from_code(e.mutation_type.spec_code()),
                e.mutation_type,
            );
        };
        let acc2 = acc.update(
            acc.len() - 1,
            crate::enumerate::RegionEventsView {
                region: acc.last().region,
                events: acc.last().events.push(e),
            },
        );
        assert(stepped =~~= Some(acc2)) by {
            assert(acc[acc.len() - 1] == acc.last());
        };
        assert(acc2.last().events =~= rv.events.take(j + 1)) by {
            assert(rv.events.take(j).push(e) =~= rv.events.take(j + 1));
        };
        lemma_fold_event_lines(acc2, rv, j + 1);
        assert(all_lines.skip(j).drop_first() =~= all_lines.skip(j + 1));
        assert(acc2.update(
            acc2.len() - 1,
            crate::enumerate::RegionEventsView { region: acc2.last().region, events: rv.events },
        ) =~~= acc.update(
            acc.len() - 1,
            crate::enumerate::RegionEventsView { region: acc.last().region, events: rv.events },
        ));
    }
}

proof fn lemma_event_lines_index(evs: Seq<crate::enumerate::MutationEvent>, j: int)
    requires
        0 <= j,
    ensures
        spec_event_lines(evs, j).len() == j,
        forall|x: int| 0 <= x < j ==> #[trigger] spec_event_lines(evs, j)[x] == spec_event_line(
            evs[x],
        ),
    decreases j,
{
    if j > 0 {
        lemma_event_lines_index(evs, j - 1);
    }
}

/// A region's name line and event lines, folded onto any parsed prefix,
/// append exactly that region.
proof fn lemma_fold_region(
    acc: Seq<crate::enumerate::RegionEventsView>,
    rv: crate::enumerate::RegionEventsView,
)
    ensures
        spec_fold_lines(
            acc,
            seq![seq![('#' as u8)] + rv.region] + spec_event_lines(
                rv.events,
                rv.events.len() as int,
            ),
        ) =~~= Some(acc.push(rv)),
{
    let name_line = seq![('#' as u8)] + rv.region;
    let ev_lines = spec_event_lines(rv.events, rv.events.len() as int);
    let all = seq![name_line] + ev_lines;
    assert(all[0] == name_line);
    assert(name_line.len() > 0 && name_line[0] == ('#' as u8));
    let opened = crate::enumerate::RegionEventsView {
        region: name_line.skip(1),
        events: Seq::empty(),
    };
    assert(name_line.skip(1) =~= rv.region);
    let acc2 = acc.push(crate::enumerate::RegionEventsView {
        region: name_line.skip(1),
        events: Seq::<crate::enumerate::MutationEvent>::empty(),
    });
    assert(spec_possible_step(acc, name_line) =~~= Some(acc2));
    assert(all.drop_first() =~= ev_lines);
    assert(acc2.last().region == rv.region);
    assert(acc2.last().events =~= rv.events.take(0));
    lemma_fold_event_lines(acc2, rv, 0);
    assert(ev_lines.skip(0) =~= ev_lines);
    assert(acc2.update(
        acc2.len() - 1,
        crate::enumerate::RegionEventsView { region: acc2.last().region, events: rv.events },
    ) =~~= acc.push(rv));
}

/// Every region name is free of newlines.
pub open spec fn possible_wf(rs: Seq<crate::enumerate::RegionEventsView>) -> bool {
    forall|i: int|
        0 <= i < rs.len() ==> crate::text::piece_free((#[trigger] rs[i]).region, ('\n' as u8))
}

proof fn lemma_possible_lines_free(rs: Seq<crate::enumerate::RegionEventsView>, i: int)
    requires
        possible_wf(rs),
        0 <= i <= rs.len(),
    ensures
        forall|x: int|
            0 <= x < spec_possible_lines(rs, i).len() ==> crate::text::piece_free(
                #[trigger] spec_possible_lines(rs, i)[x],
                ('\n' as u8),
            ),
    decreases i,
{
    if i > 0 {
        lemma_possible_lines_free(rs, i - 1);
        lemma_event_lines_index(rs[i - 1].events, rs[i - 1].events.len() as int);
        assert forall|x: int|
            0 <= x < spec_possible_lines(rs, i).len() implies crate::text::piece_free(
            #[trigger] spec_possible_lines(rs, i)[x],
            ('\n' as u8),
        ) by {
            let prev = spec_possible_lines(rs, i - 1);
            let name_line = seq![('#' as u8)] + rs[i - 1].region;
            let evl = spec_event_lines(rs[i - 1].events, rs[i - 1].events.len() as int);
            if x < prev.len() {
                assert(spec_possible_lines(rs, i)[x] == prev[x]);
            } else if x == prev.len() {
                assert(spec_possible_lines(rs, i)[x] == name_line);
                assert(crate::text::piece_free(rs[i - 1].region, ('\n' as u8)));
            } else {
                let e = rs[i - 1].events[x - prev.len() - 1];
                assert(spec_possible_lines(rs, i)[x] == spec_event_line(e));
                lemma_event_line_free(e);
            }
        }
    }
}

proof fn lemma_event_line_free(e: crate::enumerate::MutationEvent)
    ensures
        crate::text::piece_free(spec_event_line(e), ('\n' as u8)),
{
    crate::text::lemma_dec_digits_are_digits(e.mutation_type.spec_code() as nat);
    crate::text::lemma_dec_digits_are_digits(
        ((e.probability as int) / (crate::text::FRAC_UNIT as int)) as nat,
    );
    crate::text::lemma_dec_pad_are_digits(
        ((e.probability as int) % (crate::text::FRAC_UNIT as int)) as nat,
        crate::text::FRAC_DIGITS as nat,
    );
    assert(forall|x: int|
        0 <= x < spec_event_line(e).len() ==> spec_event_line(e)[x] != ('\n' as u8));
}

/// Reading a written possible-mutations artifact gives back the regions:
/// the round trip law of the artifact, for region names free of newlines.
pub proof fn lemma_possible_round_trip(rs: Seq<crate::enumerate::RegionEventsView>)
    requires
        possible_wf(rs),
    ensures
        spec_parse_possible(
            spec_split(spec_render_possible(rs, rs.len() as int), ('\n' as u8)),
            spec_split(spec_render_possible(rs, rs.len() as int), ('\n' as u8)).len() as int,
        ) =~~= Some(rs),
{
    let n = rs.len() as int;
    lemma_render_possible_lines(rs, n);
    lemma_possible_lines_free(rs, n);
    lemma_split_nl_join(spec_possible_lines(rs, n));
    let lines = spec_possible_lines(rs, n).push(Seq::<u8>::empty());
    assert(spec_split(spec_render_possible(rs, n), ('\n' as u8)) =~~= lines);
    lemma_parse_is_fold(lines, lines.len() as int);
    assert(lines.take(lines.len() as int) =~= lines);
    // fold region by region
    lemma_fold_possible_lines(rs, n);
    lemma_fold_lines_add(
        Seq::empty(),
        spec_possible_lines(rs, n),
        seq![Seq::<u8>::empty()],
    );
    assert(lines =~= spec_possible_lines(rs, n) + seq![Seq::<u8>::empty()]);
    assert(spec_fold_lines(rs.take(n), seq![Seq::<u8>::empty()]) =~~= Some(rs.take(n))) by {
        lemma_fold_single(rs.take(n), Seq::<u8>::empty());
    };
    assert(rs.take(n) =~= rs);
}

proof fn lemma_fold_possible_lines(rs: Seq<crate::enumerate::RegionEventsView>, i: int)
    requires
        0 <= i <= rs.len(),
    ensures
        spec_fold_lines(Seq::empty(), spec_possible_lines(rs, i)) =~~= Some(rs.take(i)),
    decreases i,
{
    if i == 0 {
        assert(rs.take(0) =~= Seq::<crate::enumerate::RegionEventsView>::empty());
    } else {
        lemma_fold_possible_lines(rs, i - 1);
        let prev = spec_possible_lines(rs, i - 1);
        let block = seq![seq![('#' as u8)] + rs[i - 1].region] + spec_event_lines(
            rs[i - 1].events,
            rs[i - 1].events.len() as int,
        );
        assert(spec_possible_lines(rs, i) =~= prev + block);
        lemma_fold_lines_add(Seq::empty(), prev, block);
        lemma_fold_region(rs.take(i - 1), rs[i - 1]);
        assert(rs.take(i - 1).push(rs[i - 1]) =~= rs.take(i));
    }
}

proof fn lemma_digits_semicolon_free(n: nat)
    ensures
        crate::text::piece_free(dec_digits(n), (';' as u8)),
        crate::text::piece_free(dec_digits(n), ('-' as u8)),
        crate::text::piece_free(dec_digits(n), ('\t' as u8)),
        crate::text::piece_free(dec_digits(n), ('\n' as u8)),
{
    crate::text::lemma_dec_digits_are_digits(n);
    assert(forall|i: int|
        0 <= i < dec_digits(n).len() ==> crate::text::is_digit(#[trigger] dec_digits(n)[i]));
}

proof fn lemma_interval_field_free(iv: Interval)
    ensures
        crate::text::piece_free(spec_render_interval(iv), (';' as u8)),
        crate::text::piece_free(spec_render_interval(iv), ('\t' as u8)),
        crate::text::piece_free(spec_render_interval(iv), ('\n' as u8)),
{
    lemma_digits_semicolon_free(iv.start as nat);
    lemma_digits_semicolon_free(iv.stop as nat);
}

/// Parsing a rendered interval list gives back the list.
proof fn lemma_interval_list_round_trip(ivs: Seq<Interval>)
    requires
        forall|j: int| 0 <= j < ivs.len() ==> (#[trigger] ivs[j]).wf(),
    ensures
        spec_parse_interval_list(spec_render_intervals(ivs)) == Some(ivs),
{
    let pieces = ivs.map_values(|iv: Interval| spec_render_interval(iv));
    if ivs.len() == 0 {
        assert(spec_render_intervals(ivs).len() == 0) by {
            assert(pieces.len() == 0);
        };
        assert(spec_parse_interval_list(spec_render_intervals(ivs)) =~~= Some(
            Seq::<Interval>::empty(),
        ));
        assert(Some(Seq::<Interval>::empty()) =~~= Some(ivs));
    } else {
        assert forall|j: int| 0 <= j < pieces.len() implies crate::text::piece_free(
            #[trigger] pieces[j],
            (';' as u8),
        ) by {
            lemma_interval_field_free(ivs[j]);
        }
        crate::text::lemma_split_join(pieces, (';' as u8));
        let f = spec_render_intervals(ivs);
        assert(f.len() > 0) by {
            // a rendered interval is never empty, so the first piece and
            // hence the joined field is nonempty
            crate::text::lemma_dec_digits_are_digits(ivs[0].start as nat);
            crate::text::lemma_split_nonempty(f, (';' as u8));
            if f.len() == 0 {
                assert(spec_split(f, (';' as u8)) =~~= seq![Seq::<u8>::empty()]);
                assert(pieces[0].len() == 0);
            }
        };
        let ps = spec_split(f, (';' as u8));
        assert(ps == pieces);
        assert forall|j: int| 0 <= j < ps.len() implies spec_parse_interval(
            #[trigger] ps[j],
        ) is Some by {
            lemma_interval_round_trip(ivs[j]);
        }
        assert(spec_parse_interval_list(f) is Some);
        let back = spec_parse_interval_list(f)->0;
        assert forall|j: int| 0 <= j < ivs.len() implies back[j] == ivs[j] by {
            lemma_interval_round_trip(ivs[j]);
        }
        assert(back =~= ivs);
    }
}

/// Parsing a rendered phase list gives back the list.
proof fn lemma_phase_list_round_trip(cdss: Seq<CDS>)
    ensures
        spec_parse_phase_list(spec_render_phases(cdss)) == Some(
            cdss.map_values(|c: CDS| c.phase),
        ),
{
    let pieces = cdss.map_values(|c: CDS| seq![(('0' as u8) + c.phase.spec_value()) as u8]);
    if cdss.len() == 0 {
        assert(spec_render_phases(cdss).len() == 0) by {
            assert(pieces.len() == 0);
        };
        assert(spec_parse_phase_list(spec_render_phases(cdss)) =~~= Some(Seq::<Phase>::empty()));
        assert(cdss.map_values(|c: CDS| c.phase) =~= Seq::<Phase>::empty());
    } else {
        assert forall|j: int| 0 <= j < pieces.len() implies crate::text::piece_free(
            #[trigger] pieces[j],
            (';' as u8),
        ) by {
            assert(pieces[j] =~= seq![(('0' as u8) + cdss[j].phase.spec_value()) as u8]);
        }
        crate::text::lemma_split_join(pieces, (';' as u8));
        let f = spec_render_phases(cdss);
        assert(f.len() > 0) by {
            crate::text::lemma_split_nonempty(f, (';' as u8));
            if f.len() == 0 {
                assert(spec_split(f, (';' as u8)) =~~= seq![Seq::<u8>::empty()]);
                assert(pieces[0].len() == 0);
                assert(pieces[0] =~= seq![(('0' as u8) + cdss[0].phase.spec_value()) as u8]);
            }
        };
        let ps = spec_split(f, (';' as u8));
        assert(ps == pieces);
        assert forall|j: int| 0 <= j < ps.len() implies (#[trigger] ps[j]).len() == 1 && (ps[j][0]
            == ('0' as u8) || ps[j][0] == ('1' as u8) || ps[j][0] == ('2' as u8)) by {
            assert(ps[j] =~= seq![(('0' as u8) + cdss[j].phase.spec_value()) as u8]);
        }
        assert(spec_parse_phase_list(f) is Some);
        let back = spec_parse_phase_list(f)->0;
        assert forall|j: int| 0 <= j < cdss.len() implies back[j] == cdss[j].phase by {
            assert(ps[j] =~= seq![(('0' as u8) + cdss[j].phase.spec_value()) as u8]);
        }
        assert(back =~= cdss.map_values(|c: CDS| c.phase));
    }
}

/// A transcript record that can stand in the tab-separated regions
/// artifact: name and chromosome free of separators, every interval
/// nonempty.
pub open spec fn region_wf(a: AnnotationView) -> bool {
    &&& crate::text::piece_free(a.name, ('\t' as u8))
    &&& crate::text::piece_free(a.name, ('\n' as u8))
    &&& crate::text::piece_free(a.chr, ('\t' as u8))
    &&& crate::text::piece_free(a.chr, ('\n' as u8))
    &&& a.range.wf()
    &&& forall|j: int| 0 <= j < a.exons.len() ==> (#[trigger] a.exons[j]).wf()
    &&& forall|j: int|
        0 <= j < a.coding_sequences.len() ==> (#[trigger] a.coding_sequences[j]).range.wf()
}

/// Parsing a rendered regions line gives back the record.
#[verifier::rlimit(100)]
#[verifier::spinoff_prover]
proof fn lemma_region_line_round_trip(a: AnnotationView)
    requires
        region_wf(a),
    ensures
        spec_parse_region_line(spec_render_region_line(a)) =~~= Some(a),
{
    let f_strand = spec_render_strand(a.strand);
    let f_range = spec_render_interval(a.range);
    let f_exons = spec_render_intervals(a.exons);
    let cds_ranges = a.coding_sequences.map_values(|c: CDS| c.range);
    let f_cds = spec_render_intervals(cds_ranges);
    let f_phases = spec_render_phases(a.coding_sequences);
    let fields = seq![a.name, a.chr, f_strand, f_range, f_exons, f_cds, f_phases];
    assert(spec_render_region_line(a) =~= crate::text::spec_join(fields, ('\t' as u8))) by {
        let t = seq![('\t' as u8)];
        let r6 = seq![a.chr, f_strand, f_range, f_exons, f_cds, f_phases];
        let r5 = seq![f_strand, f_range, f_exons, f_cds, f_phases];
        let r4 = seq![f_range, f_exons, f_cds, f_phases];
        let r3 = seq![f_exons, f_cds, f_phases];
        let r2 = seq![f_cds, f_phases];
        let r1 = seq![f_phases];
        assert(fields.skip(1) =~~= r6);
        assert(r6.skip(1) =~~= r5);
        assert(r5.skip(1) =~~= r4);
        assert(r4.skip(1) =~~= r3);
        assert(r3.skip(1) =~~= r2);
        assert(r2.skip(1) =~~= r1);
        assert(crate::text::spec_join(r1, ('\t' as u8)) == f_phases);
        assert(crate::text::spec_join(r2, ('\t' as u8)) == f_cds + t + f_phases);
        assert(crate::text::spec_join(r3, ('\t' as u8)) == f_exons + t + (f_cds + t + f_phases));
        assert(crate::text::spec_join(r4, ('\t' as u8)) == f_range + t + (f_exons + t + (f_cds + t
            + f_phases)));
        assert(crate::text::spec_join(r5, ('\t' as u8)) == f_strand + t + (f_range + t + (f_exons
            + t + (f_cds + t + f_phases))));
        assert(crate::text::spec_join(r6, ('\t' as u8)) == a.chr + t + (f_strand + t + (f_range
            + t + (f_exons + t + (f_cds + t + f_phases)))));
        assert(crate::text::spec_join(fields, ('\t' as u8)) == a.name + t + (a.chr + t + (f_strand
            + t + (f_range + t + (f_exons + t + (f_cds + t + f_phases))))));
    };
    assert forall|j: int| 0 <= j < fields.len() implies crate::text::piece_free(
        #[trigger] fields[j],
        ('\t' as u8),
    ) by {
        lemma_fields_tab_free(a, fields, j);
    }
    crate::text::lemma_split_join(fields, ('\t' as u8));
    let ps = spec_split(spec_render_region_line(a), ('\t' as u8));
    assert(ps == fields);
    assert(spec_strand_of(f_strand) == Some(a.strand)) by {
        if a.strand == Strand::Plus {
            assert(f_strand =~= seq![('+' as u8)]);
        } else {
            assert(f_strand =~= seq![('-' as u8)]);
            if f_strand =~= seq![('+' as u8)] {
                assert(f_strand[0] == ('+' as u8));
                assert(f_strand[0] == ('-' as u8));
            }
        }
    };
    lemma_interval_round_trip(a.range);
    lemma_interval_list_round_trip(a.exons);
    lemma_interval_list_round_trip(cds_ranges);
    lemma_phase_list_round_trip(a.coding_sequences);
    let parsed = spec_parse_region_line(spec_render_region_line(a))->0;
    assert(parsed.coding_sequences =~= a.coding_sequences) by {
        assert(cds_ranges.len() == a.coding_sequences.len());
        assert(forall|k: int|
            0 <= k < a.coding_sequences.len() ==> #[trigger] parsed.coding_sequences[k] == (CDS {
                range: cds_ranges[k],
                phase: a.coding_sequences.map_values(|c: CDS| c.phase)[k],
            }));
    };
    assert(parsed.exons =~= a.exons);
}

proof fn lemma_fields_tab_free(a: AnnotationView, fields: Seq<Seq<u8>>, j: int)
    requires
        region_wf(a),
        fields =~= seq![
            a.name,
            a.chr,
            spec_render_strand(a.strand),
            spec_render_interval(a.range),
            spec_render_intervals(a.exons),
            spec_render_intervals(a.coding_sequences.map_values(|c: CDS| c.range)),
            spec_render_phases(a.coding_sequences),
        ],
        0 <= j < fields.len(),
    ensures
        crate::text::piece_free(fields[j], ('\t' as u8)),
        crate::text::piece_free(fields[j], ('\n' as u8)),
{
    if j == 2 {
        assert(crate::text::piece_free(spec_render_strand(a.strand), ('\t' as u8)));
        assert(crate::text::piece_free(spec_render_strand(a.strand), ('\n' as u8)));
    } else if j == 3 {
        lemma_interval_field_free(a.range);
    } else if j == 4 {
        lemma_list_field_free(a.exons);
    } else if j == 5 {
        lemma_list_field_free(a.coding_sequences.map_values(|c: CDS| c.range));
    } else if j == 6 {
        lemma_phase_field_free(a.coding_sequences);
    }
}

proof fn lemma_list_field_free(ivs: Seq<Interval>)
    ensures
        crate::text::piece_free(spec_render_intervals(ivs), ('\t' as u8)),
        crate::text::piece_free(spec_render_intervals(ivs), ('\n' as u8)),
    decreases ivs.len(),
{
    let pieces = ivs.map_values(|iv: Interval| spec_render_interval(iv));
    lemma_join_free(pieces, ivs);
}

proof fn lemma_join_free(pieces: Seq<Seq<u8>>, ivs: Seq<Interval>)
    requires
        pieces =~= ivs.map_values(|iv: Interval| spec_render_interval(iv)),
    ensures
        crate::text::piece_free(crate::text::spec_join(pieces, (';' as u8)), ('\t' as u8)),
        crate::text::piece_free(crate::text::spec_join(pieces, (';' as u8)), ('\n' as u8)),
    decreases pieces.len(),
{
    if pieces.len() == 0 {
    } else if pieces.len() == 1 {
        lemma_interval_field_free(ivs[0]);
        assert(crate::text::spec_join(pieces, (';' as u8)) == pieces[0]);
    } else {
        lemma_interval_field_free(ivs[0]);
        lemma_join_free(pieces.skip(1), ivs.skip(1));
        assert(pieces.skip(1) =~= ivs.skip(1).map_values(|iv: Interval| spec_render_interval(iv)));
        assert(crate::text::spec_join(pieces, (';' as u8)) == pieces[0] + seq![(';' as u8)]
            + crate::text::spec_join(pieces.skip(1), (';' as u8)));
    }
}

proof fn lemma_phase_field_free(cdss: Seq<CDS>)
    ensures
        crate::text::piece_free(spec_render_phases(cdss), ('\t' as u8)),
        crate::text::piece_free(spec_render_phases(cdss), ('\n' as u8)),
    decreases cdss.len(),
{
    let pieces = cdss.map_values(|c: CDS| seq![(('0' as u8) + c.phase.spec_value()) as u8]);
    lemma_phase_join_free(pieces, cdss);
}

proof fn lemma_phase_join_free(pieces: Seq<Seq<u8>>, cdss: Seq<CDS>)
    requires
        pieces =~= cdss.map_values(|c: CDS| seq![(('0' as u8) + c.phase.spec_value()) as u8]),
    ensures
        crate::text::piece_free(crate::text::spec_join(pieces, (';' as u8)), ('\t' as u8)),
        crate::text::piece_free(crate::text::spec_join(pieces, (';' as u8)), ('\n' as u8)),
    decreases pieces.len(),
{
    if pieces.len() == 0 {
    } else if pieces.len() == 1 {
        assert(pieces[0] =~= seq![(('0' as u8) + cdss[0].phase.spec_value()) as u8]);
        assert(crate::text::spec_join(pieces, (';' as u8)) == pieces[0]);
    } else {
        assert(pieces[0] =~= seq![(('0' as u8) + cdss[0].phase.spec_value()) as u8]);
        lemma_phase_join_free(pieces.skip(1), cdss.skip(1));
        assert(pieces.skip(1) =~= cdss.skip(1).map_values(
            |c: CDS| seq![(('0' as u8) + c.phase.spec_value()) as u8],
        ));
        assert(crate::text::spec_join(pieces, (';' as u8)) == pieces[0] + seq![(';' as u8)]
            + crate::text::spec_join(pieces.skip(1), (';' as u8)));
    }
}

/// Reading a written regions artifact gives back the transcripts: the
/// round trip law of the genomic-regions format, for names and
/// chromosomes free of tabs and newlines, without a region filter.
pub proof fn lemma_regions_round_trip(annos: Seq<AnnotationView>)
    requires
        forall|i: int| 0 <= i < annos.len() ==> region_wf(#[trigger] annos[i]),
    ensures
        spec_parse_regions(
            spec_split(
                spec_render_regions(annos, annos.len() as int),
                ('\n' as u8),
            ),
            spec_split(
                spec_render_regions(annos, annos.len() as int),
                ('\n' as u8),
            ).len() as int,
            None,
        ) =~~= Some(annos),
{
    let n = annos.len() as int;
    lemma_regions_render_lines(annos, n);
    let lines = annos.map_values(|a: AnnotationView| spec_render_region_line(a));
    assert forall|i: int| 0 <= i < lines.len() implies crate::text::piece_free(
        #[trigger] lines[i],
        ('\n' as u8),
    ) by {
        lemma_region_line_free(annos[i]);
    }
    lemma_split_nl_join(lines);
    let all = lines.push(Seq::<u8>::empty());
    assert(annos.take(n) =~= annos);
    assert(annos.take(n).map_values(|a: AnnotationView| spec_render_region_line(a)) =~~= lines);
    assert(spec_split(spec_render_regions(annos, n), ('\n' as u8)) =~~= all);
    lemma_regions_fold(annos, all);
}

proof fn lemma_region_line_free(a: AnnotationView)
    requires
        region_wf(a),
    ensures
        crate::text::piece_free(spec_render_region_line(a), ('\n' as u8)),
{
    lemma_interval_field_free(a.range);
    lemma_list_field_free(a.exons);
    lemma_list_field_free(a.coding_sequences.map_values(|c: CDS| c.range));
    lemma_phase_field_free(a.coding_sequences);
    assert(forall|x: int|
        0 <= x < spec_render_region_line(a).len() ==> spec_render_region_line(a)[x] != (
        '\n' as u8));
}

proof fn lemma_regions_render_lines(annos: Seq<AnnotationView>, i: int)
    requires
        0 <= i <= annos.len(),
    ensures
        spec_render_regions(annos, i) =~= spec_nl_join(
            annos.take(i).map_values(|a: AnnotationView| spec_render_region_line(a)),
        ),
    decreases i,
{
    if i > 0 {
        lemma_regions_render_lines(annos, i - 1);
        let lines_i = annos.take(i).map_values(|a: AnnotationView| spec_render_region_line(a));
        let lines_p = annos.take(i - 1).map_values(
            |a: AnnotationView| spec_render_region_line(a),
        );
        assert(lines_i =~= lines_p.push(spec_render_region_line(annos[i - 1])));
        lemma_nl_join_push(lines_p, spec_render_region_line(annos[i - 1]));
    } else {
        assert(annos.take(0).map_values(|a: AnnotationView| spec_render_region_line(a)).len()
            == 0);
    }
}

proof fn lemma_regions_fold(annos: Seq<AnnotationView>, all: Seq<Seq<u8>>)
    requires
        forall|i: int| 0 <= i < annos.len() ==> region_wf(#[trigger] annos[i]),
        all =~~= annos.map_values(|a: AnnotationView| spec_render_region_line(a)).push(
            Seq::<u8>::empty(),
        ),
    ensures
        spec_parse_regions(all, all.len() as int, None) =~~= Some(annos),
{
    lemma_regions_fold_upto(annos, all, annos.len() as int);
    assert(spec_parse_regions(all, all.len() as int, None) == (
    match spec_parse_regions(all, all.len() as int - 1, None) {
        Some(acc) => Some(acc),
        None => None,
    })) by {
        assert(all[all.len() - 1].len() == 0);
        match spec_parse_regions(all, all.len() as int - 1, None) {
            Some(acc) => {},
            None => {},
        }
    };
    assert(annos.take(annos.len() as int) =~= annos);
}

proof fn lemma_regions_fold_upto(annos: Seq<AnnotationView>, all: Seq<Seq<u8>>, i: int)
    requires
        forall|x: int| 0 <= x < annos.len() ==> region_wf(#[trigger] annos[x]),
        all =~~= annos.map_values(|a: AnnotationView| spec_render_region_line(a)).push(
            Seq::<u8>::empty(),
        ),
        0 <= i <= annos.len(),
    ensures
        spec_parse_regions(all, i, None) =~~= Some(annos.take(i)),
    decreases i,
{
    if i == 0 {
        assert(annos.take(0).len() == 0);
    } else {
        lemma_regions_fold_upto(annos, all, i - 1);
        assert(all[i - 1] == spec_render_region_line(annos[i - 1]));
        lemma_region_line_round_trip(annos[i - 1]);
        assert(all[i - 1].len() > 0) by {
            // a regions line is never empty: it holds at least the name
            // field's separator structure
            let ps = spec_split(all[i - 1], ('\t' as u8));
            if all[i - 1].len() == 0 {
                assert(ps =~~= seq![Seq::<u8>::empty()]);
                assert(spec_parse_region_line(all[i - 1]) is None);
            }
        };
        assert(annos.take(i - 1).push(annos[i - 1]) =~= annos.take(i));
    }
}

/// Looking a display name back up finds the same class.
proof fn lemma_type_name_round_trip(t: MutationType)
    ensures
        spec_type_of_name(t.spec_name()) == Some(t),
{
    assert(MutationType::Missense.spec_name()[0] == ('m' as u8));
    assert(MutationType::Nonsense.spec_name()[0] == ('n' as u8));
    assert(MutationType::Intronic.spec_name()[0] == ('i' as u8));
    assert(MutationType::StartCodon.spec_name()[1] == ('t' as u8));
    assert(MutationType::SpliceSite.spec_name()[1] == ('p' as u8));
}

/// A change whose sides can stand in a `REF->ALT` field: free of tabs,
/// newlines and arrows, and an indel's sides nonempty with at least one
/// side longer than a single base.
pub open spec fn change_wf_text(c: crate::observed::ChangeView) -> bool {
    match c {
        crate::observed::ChangeView::PointMutation(f, t) => {
            f != ('\t' as u8) && f != ('\n' as u8) && t != ('\t' as u8) && t != ('\n' as u8)
        },
        crate::observed::ChangeView::Indel(f, t) => {
            &&& f.len() >= 1
            &&& t.len() >= 1
            &&& !(f.len() == 1 && t.len() == 1)
            &&& spec_first_arrow(f) is None
            &&& spec_first_arrow(t) is None
            &&& crate::text::piece_free(f, ('\t' as u8))
            &&& crate::text::piece_free(f, ('\n' as u8))
            &&& crate::text::piece_free(t, ('\t' as u8))
            &&& crate::text::piece_free(t, ('\n' as u8))
        },
    }
}

/// The first arrow of `from ++ -> ++ to` sits right after `from`, when
/// `from` itself holds none.
proof fn lemma_arrow_after(from: Seq<u8>, to: Seq<u8>)
    requires
        spec_first_arrow(from) is None,
    ensures
        spec_first_arrow(from + seq![('-' as u8), ('>' as u8)] + to) == Some(from.len() as int),
{
    let s = from + seq![('-' as u8), ('>' as u8)] + to;
    lemma_first_arrow_char(from);
    lemma_first_arrow_char(s);
    assert(arrow_at(s, from.len() as int)) by {
        assert(s[from.len() as int] == ('-' as u8));
        assert(s[from.len() as int + 1] == ('>' as u8));
    };
    assert forall|k: int| 0 <= k < from.len() implies !arrow_at(s, k) by {
        if k < from.len() - 1 {
            assert(s[k] == from[k]);
            assert(s[k + 1] == from[k + 1]);
            assert(!arrow_at(from, k));
        } else {
            // the byte after the last of `from` is the dash, not `>`
            assert(s[k + 1] == ('-' as u8));
        }
    }
    match spec_first_arrow(s) {
        Some(i) => {
            if i < from.len() {
                assert(!arrow_at(s, i));
            }
            if i > from.len() {
                assert(!arrow_at(s, from.len() as int));
            }
        },
        None => {
            assert(!arrow_at(s, from.len() as int));
        },
    }
}

/// Parsing a rendered change gives back the change.
proof fn lemma_change_round_trip(c: crate::observed::ChangeView)
    requires
        change_wf_text(c),
    ensures
        spec_parse_change(spec_render_change(c)) == Some(c),
{
    match c {
        crate::observed::ChangeView::PointMutation(f, t) => {
            let from = seq![f];
            let to = seq![t];
            let s = spec_render_change(c);
            assert(s =~= from + seq![('-' as u8), ('>' as u8)] + to);
            assert(spec_first_arrow(from) is None) by {
                lemma_first_arrow_char(from);
                match spec_first_arrow(from) {
                    Some(i) => {
                        assert(arrow_at(from, i));
                    },
                    None => {},
                }
            };
            lemma_arrow_after(from, to);
            assert(s.take(from.len() as int) =~= from);
            assert(s.skip(from.len() as int + 2) =~= to);
            assert(spec_first_arrow(to) is None) by {
                lemma_first_arrow_char(to);
                match spec_first_arrow(to) {
                    Some(i) => {
                        assert(arrow_at(to, i));
                    },
                    None => {},
                }
            };
        },
        crate::observed::ChangeView::Indel(from, to) => {
            let s = spec_render_change(c);
            assert(s =~= from + seq![('-' as u8), ('>' as u8)] + to);
            lemma_arrow_after(from, to);
            assert(s.take(from.len() as int) =~= from);
            assert(s.skip(from.len() as int + 2) =~= to);
        },
    }
}

/// A classified row without its closing newline.
pub open spec fn spec_classified_line(m: crate::observed::MutationView) -> Seq<u8> {
    crate::text::spec_join(
        seq![
            spec_region_field(m),
            m.chromosome,
            dec_digits(m.position as nat),
            m.mutation_type.spec_name(),
            spec_render_change(m.change),
        ],
        ('\t' as u8),
    )
}

/// A variant whose text fields can stand in the classified artifact.
pub open spec fn classified_wf(m: crate::observed::MutationView) -> bool {
    &&& match m.region {
        Some(r) => r.len() > 0 && crate::text::piece_free(r, ('\t' as u8))
            && crate::text::piece_free(r, ('\n' as u8)),
        None => true,
    }
    &&& crate::text::piece_free(m.chromosome, ('\t' as u8))
    &&& crate::text::piece_free(m.chromosome, ('\n' as u8))
    &&& 0 <= m.position <= usize::MAX
    &&& change_wf_text(m.change)
}

/// Parsing a rendered classified row gives back the variant.
#[verifier::rlimit(100)]
#[verifier::spinoff_prover]
proof fn lemma_classified_row_round_trip(m: crate::observed::MutationView)
    requires
        classified_wf(m),
    ensures
        spec_parse_classified_row(spec_classified_line(m)) =~~= Some(m),
{
    let f_region = spec_region_field(m);
    let f_pos = dec_digits(m.position as nat);
    let f_type = m.mutation_type.spec_name();
    let f_change = spec_render_change(m.change);
    let fields = seq![f_region, m.chromosome, f_pos, f_type, f_change];
    let row = spec_classified_line(m);
    assert(row == crate::text::spec_join(fields, ('\t' as u8)));
    assert forall|j: int| 0 <= j < fields.len() implies crate::text::piece_free(
        #[trigger] fields[j],
        ('\t' as u8),
    ) by {
        if j == 2 {
            lemma_digits_semicolon_free(m.position as nat);
        } else if j == 3 {
            lemma_type_name_tab_free(m.mutation_type);
        } else if j == 4 {
            lemma_change_field_free(m.change);
        }
    }
    crate::text::lemma_split_join(fields, ('\t' as u8));
    let ps = spec_split(row, ('\t' as u8));
    assert(ps == fields);
    crate::text::lemma_dec_digits_are_digits(m.position as nat);
    crate::text::lemma_dec_value_of_digits(m.position as nat);
    lemma_type_name_round_trip(m.mutation_type);
    lemma_change_round_trip(m.change);
    match m.region {
        Some(r) => {
            assert(f_region == r);
            assert(f_region.len() > 0);
        },
        None => {
            assert(f_region.len() == 0);
        },
    }
    let parsed = spec_parse_classified_row(row)->0;
    assert(parsed.region == m.region);
    assert(parsed =~~= m);
}

proof fn lemma_type_name_tab_free(t: MutationType)
    ensures
        crate::text::piece_free(t.spec_name(), ('\t' as u8)),
        crate::text::piece_free(t.spec_name(), ('\n' as u8)),
{
}

proof fn lemma_change_field_free(c: crate::observed::ChangeView)
    requires
        change_wf_text(c),
    ensures
        crate::text::piece_free(spec_render_change(c), ('\t' as u8)),
        crate::text::piece_free(spec_render_change(c), ('\n' as u8)),
{
    match c {
        crate::observed::ChangeView::PointMutation(f, t) => {
            assert(spec_render_change(c) =~= seq![f, ('-' as u8), ('>' as u8), t]);
        },
        crate::observed::ChangeView::Indel(f, t) => {
            let s = spec_render_change(c);
            assert(forall|x: int| 0 <= x < f.len() ==> s[x] == f[x]);
            assert(s[f.len() as int] == ('-' as u8));
            assert(s[f.len() as int + 1] == ('>' as u8));
            assert(forall|x: int| 0 <= x < t.len() ==> s[f.len() + 2 + x] == t[x]);
            assert(forall|x: int| 0 <= x < s.len() ==> s[x] != ('\t' as u8) && s[x] != (
            '\n' as u8));
        },
    }
}

/// Reading a written classified-mutations artifact gives back the
/// variants: the round trip law of the classified format, for variants
/// whose text fields are representable.
pub proof fn lemma_classified_round_trip(ms: Seq<crate::observed::MutationView>)
    requires
        forall|i: int| 0 <= i < ms.len() ==> classified_wf(#[trigger] ms[i]),
    ensures
        spec_parse_classified(
            spec_split(
                spec_render_classified(ms, ms.len() as int),
                ('\n' as u8),
            ),
            spec_split(
                spec_render_classified(ms, ms.len() as int),
                ('\n' as u8),
            ).len() as int,
        ) =~~= Some((ms, true)),
{
    let n = ms.len() as int;
    let row_lines = ms.map_values(|m: crate::observed::MutationView| spec_classified_line(m));
    let header = seq![
        ('r' as u8), ('e' as u8), ('g' as u8), ('i' as u8), ('o' as u8), ('n' as u8), ('\t' as u8),
        ('c' as u8), ('h' as u8), ('r' as u8), ('o' as u8), ('m' as u8), ('o' as u8), ('s' as u8),
        ('o' as u8), ('m' as u8), ('e' as u8), ('\t' as u8), ('p' as u8), ('o' as u8), ('s' as u8),
        ('i' as u8), ('t' as u8), ('i' as u8), ('o' as u8), ('n' as u8), ('\t' as u8), ('m' as u8),
        ('u' as u8), ('t' as u8), ('a' as u8), ('t' as u8), ('i' as u8), ('o' as u8), ('n' as u8),
        ('_' as u8), ('t' as u8), ('y' as u8), ('p' as u8), ('e' as u8), ('\t' as u8), ('c' as u8),
        ('h' as u8), ('a' as u8), ('n' as u8), ('g' as u8), ('e' as u8),
    ];
    let lines = seq![header] + row_lines;
    lemma_classified_render_lines(ms, n, header, row_lines);
    assert forall|i: int| 0 <= i < lines.len() implies crate::text::piece_free(
        #[trigger] lines[i],
        ('\n' as u8),
    ) by {
        if i == 0 {
            assert(forall|x: int| 0 <= x < header.len() ==> header[x] != ('\n' as u8));
        } else {
            lemma_classified_line_free(ms[i - 1]);
            assert(lines[i] == row_lines[i - 1]);
        }
    }
    lemma_split_nl_join(lines);
    let all = lines.push(Seq::<u8>::empty());
    assert(row_lines.take(n) =~= row_lines);
    assert(seq![header] + row_lines.take(n) =~~= lines);
    assert(spec_render_classified(ms, n) =~= spec_nl_join(lines));
    assert(spec_split(spec_render_classified(ms, n), ('\n' as u8)) =~~= all);
    lemma_classified_fold(ms, all, header, row_lines, n);
    assert(spec_parse_classified(all, all.len() as int) == (
    match spec_parse_classified(all, all.len() as int - 1) {
        Some((acc, seen)) => Some((acc, seen)),
        None => None,
    })) by {
        assert(all[all.len() - 1].len() == 0);
        match spec_parse_classified(all, all.len() as int - 1) {
            Some((acc, seen)) => {},
            None => {},
        }
    };
    assert(ms.take(n) =~= ms);
}

proof fn lemma_classified_line_free(m: crate::observed::MutationView)
    requires
        classified_wf(m),
    ensures
        crate::text::piece_free(spec_classified_line(m), ('\n' as u8)),
{
    let fields = seq![
        spec_region_field(m),
        m.chromosome,
        dec_digits(m.position as nat),
        m.mutation_type.spec_name(),
        spec_render_change(m.change),
    ];
    lemma_digits_semicolon_free(m.position as nat);
    lemma_type_name_tab_free(m.mutation_type);
    lemma_change_field_free(m.change);
    lemma_join_nl_free(fields);
}

proof fn lemma_join_nl_free(fields: Seq<Seq<u8>>)
    requires
        forall|j: int|
            0 <= j < fields.len() ==> crate::text::piece_free(#[trigger] fields[j], ('\n' as u8)),
    ensures
        crate::text::piece_free(
            crate::text::spec_join(fields, ('\t' as u8)),
            ('\n' as u8),
        ),
    decreases fields.len(),
{
    if fields.len() <= 1 {
    } else {
        assert(forall|j: int|
            0 <= j < fields.skip(1).len() ==> crate::text::piece_free(
                #[trigger] fields.skip(1)[j],
                ('\n' as u8),
            ));
        lemma_join_nl_free(fields.skip(1));
        let joined = crate::text::spec_join(fields, ('\t' as u8));
        let rest = crate::text::spec_join(fields.skip(1), ('\t' as u8));
        assert(joined == fields[0] + seq![('\t' as u8)] + rest);
        assert(forall|x: int| 0 <= x < joined.len() ==> joined[x] != ('\n' as u8)) by {
            assert(forall|x: int| 0 <= x < fields[0].len() ==> joined[x] == fields[0][x]);
            assert(joined[fields[0].len() as int] == ('\t' as u8));
            assert(forall|x: int|
                0 <= x < rest.len() ==> joined[fields[0].len() + 1 + x] == rest[x]);
        };
    }
}

proof fn lemma_classified_render_lines(
    ms: Seq<crate::observed::MutationView>,
    i: int,
    header: Seq<u8>,
    row_lines: Seq<Seq<u8>>,
)
    requires
        0 <= i <= ms.len(),
        header =~= classified_header().take(classified_header().len() - 1),
        row_lines =~= ms.map_values(|m: crate::observed::MutationView| spec_classified_line(m)),
    ensures
        spec_render_classified(ms, i) =~= spec_nl_join(seq![header] + row_lines.take(i)),
    decreases i,
{
    if i == 0 {
        assert(seq![header] + row_lines.take(0) =~= seq![header]);
        assert(spec_nl_join(seq![header]) =~= header + seq![('\n' as u8)]) by {
            assert(seq![header].drop_last() =~= Seq::<Seq<u8>>::empty());
            assert(spec_nl_join(Seq::<Seq<u8>>::empty()) =~= Seq::<u8>::empty());
        };
        assert(classified_header() =~= header + seq![('\n' as u8)]);
    } else {
        lemma_classified_render_lines(ms, i - 1, header, row_lines);
        assert(seq![header] + row_lines.take(i) =~= (seq![header] + row_lines.take(i - 1)).push(
            row_lines[i - 1],
        ));
        lemma_nl_join_push(seq![header] + row_lines.take(i - 1), row_lines[i - 1]);
        assert(spec_classified_row(ms[i - 1]) =~= row_lines[i - 1] + seq![('\n' as u8)]) by {
            assert(row_lines[i - 1] == spec_classified_line(ms[i - 1]));
        };
    }
}

proof fn lemma_classified_fold(
    ms: Seq<crate::observed::MutationView>,
    all: Seq<Seq<u8>>,
    header: Seq<u8>,
    row_lines: Seq<Seq<u8>>,
    i: int,
)
    requires
        forall|x: int| 0 <= x < ms.len() ==> classified_wf(#[trigger] ms[x]),
        0 <= i <= ms.len(),
        header.len() > 0,
        header[0] != ('\n' as u8),
        all =~~= seq![header] + row_lines + seq![Seq::<u8>::empty()],
        row_lines =~= ms.map_values(|m: crate::observed::MutationView| spec_classified_line(m)),
    ensures
        spec_parse_classified(all, i + 1) =~~= Some((ms.take(i), true)),
    decreases i,
{
    if i == 0 {
        assert(all[0] == header);
        assert(spec_parse_classified(all, 0) == Some((
            Seq::<crate::observed::MutationView>::empty(),
            false,
        )));
        assert(ms.take(0).len() == 0);
    } else {
        lemma_classified_fold(ms, all, header, row_lines, i - 1);
        assert(all[i] == row_lines[i - 1]);
        lemma_classified_row_round_trip(ms[i - 1]);
        let row = row_lines[i - 1];
        assert(spec_parse_classified_row(row) =~~= Some(ms[i - 1])) by {
            assert(row == spec_classified_line(ms[i - 1]));
        };
        assert(row.len() > 0) by {
            crate::text::lemma_dec_digits_are_digits(ms[i - 1].position as nat);
            if row.len() == 0 {
                assert(spec_split(row, ('\t' as u8)) =~~= seq![Seq::<u8>::empty()]);
                assert(spec_parse_classified_row(row) is None);
            }
        };
        assert(ms.take(i - 1).push(ms[i - 1]) =~= ms.take(i));
    }
}

/// An expected-mutations row without its closing newline.
pub open spec fn spec_expected_line(ev: crate::expect::RegionExpectedView) -> Seq<u8> {
    crate::text::spec_join(
        seq![
            ev.region,
            crate::text::spec_render_fixed(ev.counts.unknown as int),
            crate::text::spec_render_fixed(ev.counts.synonymous as int),
            crate::text::spec_render_fixed(ev.counts.missense as int),
            crate::text::spec_render_fixed(ev.counts.nonsense as int),
            crate::text::spec_render_fixed(ev.counts.start_codon as int),
            crate::text::spec_render_fixed(ev.counts.stop_loss as int),
            crate::text::spec_render_fixed(ev.counts.splice_site as int),
            crate::text::spec_render_fixed(ev.counts.intronic as int),
            crate::text::spec_render_fixed(ev.counts.inframe_indel as int),
            crate::text::spec_render_fixed(ev.counts.frameshift_indel as int),
        ],
        ('\t' as u8),
    )
}

proof fn lemma_fixed_field_free(v: int)
    requires
        0 <= v <= u128::MAX,
    ensures
        crate::text::piece_free(crate::text::spec_render_fixed(v), ('\t' as u8)),
        crate::text::piece_free(crate::text::spec_render_fixed(v), ('\n' as u8)),
{
    crate::text::lemma_dec_digits_are_digits((v / (crate::text::FRAC_UNIT as int)) as nat);
    crate::text::lemma_dec_pad_are_digits(
        (v % (crate::text::FRAC_UNIT as int)) as nat,
        crate::text::FRAC_DIGITS as nat,
    );
    let s = crate::text::spec_render_fixed(v);
    let ip = dec_digits((v / (crate::text::FRAC_UNIT as int)) as nat);
    let fp = crate::text::dec_pad(
        (v % (crate::text::FRAC_UNIT as int)) as nat,
        crate::text::FRAC_DIGITS as nat,
    );
    assert(forall|x: int| 0 <= x < ip.len() ==> s[x] == ip[x]);
    assert(s[ip.len() as int] == ('.' as u8));
    assert(forall|x: int| 0 <= x < fp.len() ==> s[ip.len() + 1 + x] == fp[x]);
    assert(forall|x: int| 0 <= x < s.len() ==> s[x] != ('\t' as u8) && s[x] != ('\n' as u8));
}

/// A region name that can stand in a tab-separated table.
pub open spec fn name_wf(name: Seq<u8>) -> bool {
    crate::text::piece_free(name, ('\t' as u8)) && crate::text::piece_free(name, ('\n' as u8))
}

/// Parsing a rendered expected-mutations row gives back the counts.
#[verifier::rlimit(100)]
#[verifier::spinoff_prover]
proof fn lemma_expected_row_round_trip(ev: crate::expect::RegionExpectedView)
    requires
        name_wf(ev.region),
    ensures
        spec_parse_expected_row(spec_expected_line(ev)) =~~= Some(ev),
{
    let fields = seq![
        ev.region,
        crate::text::spec_render_fixed(ev.counts.unknown as int),
        crate::text::spec_render_fixed(ev.counts.synonymous as int),
        crate::text::spec_render_fixed(ev.counts.missense as int),
        crate::text::spec_render_fixed(ev.counts.nonsense as int),
        crate::text::spec_render_fixed(ev.counts.start_codon as int),
        crate::text::spec_render_fixed(ev.counts.stop_loss as int),
        crate::text::spec_render_fixed(ev.counts.splice_site as int),
        crate::text::spec_render_fixed(ev.counts.intronic as int),
        crate::text::spec_render_fixed(ev.counts.inframe_indel as int),
        crate::text::spec_render_fixed(ev.counts.frameshift_indel as int),
    ];
    let row = spec_expected_line(ev);
    assert(row == crate::text::spec_join(fields, ('\t' as u8)));
    assert forall|j: int| 0 <= j < fields.len() implies crate::text::piece_free(
        #[trigger] fields[j],
        ('\t' as u8),
    ) by {
        if j == 1 {
            lemma_fixed_field_free(ev.counts.unknown as int);
        } else if j == 2 {
            lemma_fixed_field_free(ev.counts.synonymous as int);
        } else if j == 3 {
            lemma_fixed_field_free(ev.counts.missense as int);
        } else if j == 4 {
            lemma_fixed_field_free(ev.counts.nonsense as int);
        } else if j == 5 {
            lemma_fixed_field_free(ev.counts.start_codon as int);
        } else if j == 6 {
            lemma_fixed_field_free(ev.counts.stop_loss as int);
        } else if j == 7 {
            lemma_fixed_field_free(ev.counts.splice_site as int);
        } else if j == 8 {
            lemma_fixed_field_free(ev.counts.intronic as int);
        } else if j == 9 {
            lemma_fixed_field_free(ev.counts.inframe_indel as int);
        } else if j == 10 {
            lemma_fixed_field_free(ev.counts.frameshift_indel as int);
        }
    }
    crate::text::lemma_split_join(fields, ('\t' as u8));
    let ps = spec_split(row, ('\t' as u8));
    assert(ps == fields);
    crate::text::lemma_fixed_round_trip(ev.counts.unknown as nat);
    crate::text::lemma_fixed_round_trip(ev.counts.synonymous as nat);
    crate::text::lemma_fixed_round_trip(ev.counts.missense as nat);
    crate::text::lemma_fixed_round_trip(ev.counts.nonsense as nat);
    crate::text::lemma_fixed_round_trip(ev.counts.start_codon as nat);
    crate::text::lemma_fixed_round_trip(ev.counts.stop_loss as nat);
    crate::text::lemma_fixed_round_trip(ev.counts.splice_site as nat);
    crate::text::lemma_fixed_round_trip(ev.counts.intronic as nat);
    crate::text::lemma_fixed_round_trip(ev.counts.inframe_indel as nat);
    crate::text::lemma_fixed_round_trip(ev.counts.frameshift_indel as nat);
    assert forall|k: int| 1 <= k < 11 implies crate::text::spec_parse_fixed(
        #[trigger] ps[k],
    ) is Some && crate::text::spec_parse_fixed(ps[k])->0 <= u128::MAX by {
    }
    let parsed = spec_parse_expected_row(row)->0;
    assert(parsed.counts == ev.counts);
}

proof fn lemma_expected_line_free(ev: crate::expect::RegionExpectedView)
    requires
        name_wf(ev.region),
    ensures
        crate::text::piece_free(spec_expected_line(ev), ('\n' as u8)),
{
    let fields = seq![
        ev.region,
        crate::text::spec_render_fixed(ev.counts.unknown as int),
        crate::text::spec_render_fixed(ev.counts.synonymous as int),
        crate::text::spec_render_fixed(ev.counts.missense as int),
        crate::text::spec_render_fixed(ev.counts.nonsense as int),
        crate::text::spec_render_fixed(ev.counts.start_codon as int),
        crate::text::spec_render_fixed(ev.counts.stop_loss as int),
        crate::text::spec_render_fixed(ev.counts.splice_site as int),
        crate::text::spec_render_fixed(ev.counts.intronic as int),
        crate::text::spec_render_fixed(ev.counts.inframe_indel as int),
        crate::text::spec_render_fixed(ev.counts.frameshift_indel as int),
    ];
    assert forall|j: int| 0 <= j < fields.len() implies crate::text::piece_free(
        #[trigger] fields[j],
        ('\n' as u8),
    ) by {
        if j == 1 {
            lemma_fixed_field_free(ev.counts.unknown as int);
        } else if j == 2 {
            lemma_fixed_field_free(ev.counts.synonymous as int);
        } else if j == 3 {
            lemma_fixed_field_free(ev.counts.missense as int);
        } else if j == 4 {
            lemma_fixed_field_free(ev.counts.nonsense as int);
        } else if j == 5 {
            lemma_fixed_field_free(ev.counts.start_codon as int);
        } else if j == 6 {
            lemma_fixed_field_free(ev.counts.stop_loss as int);
        } else if j == 7 {
            lemma_fixed_field_free(ev.counts.splice_site as int);
        } else if j == 8 {
            lemma_fixed_field_free(ev.counts.intronic as int);
        } else if j == 9 {
            lemma_fixed_field_free(ev.counts.inframe_indel as int);
        } else if j == 10 {
            lemma_fixed_field_free(ev.counts.frameshift_indel as int);
        }
    }
    lemma_join_nl_free(fields);
}

/// Reading a written expected-mutations artifact gives back the regions:
/// the round trip law of the expected counts format, for pairwise
/// distinct region names free of tabs and newlines.
pub proof fn lemma_expected_round_trip(evs: Seq<crate::expect::RegionExpectedView>)
    requires
        forall|i: int| 0 <= i < evs.len() ==> name_wf((#[trigger] evs[i]).region),
        forall|i: int, j: int|
            0 <= i < j < evs.len() ==> (#[trigger] evs[i]).region != (#[trigger] evs[j]).region,
    ensures
        spec_parse_expected(
            spec_split(
                spec_render_expected(evs, evs.len() as int),
                ('\n' as u8),
            ),
            spec_split(
                spec_render_expected(evs, evs.len() as int),
                ('\n' as u8),
            ).len() as int,
        ) =~~= Some((evs, true)),
{
    let n = evs.len() as int;
    let row_lines = evs.map_values(
        |ev: crate::expect::RegionExpectedView| spec_expected_line(ev),
    );
    let header_full = spec_table_header(
        seq![('r' as u8), ('e' as u8), ('g' as u8), ('i' as u8), ('o' as u8), ('n' as u8)],
    );
    let header = header_full.take(header_full.len() - 1);
    assert(header_full =~= header + seq![('\n' as u8)]) by {
        assert(header_full.last() == ('\n' as u8)) by {
            lemma_table_header_shape();
        };
    };
    let lines = seq![header] + row_lines;
    lemma_expected_render_lines(evs, n, header, row_lines);
    assert forall|i: int| 0 <= i < lines.len() implies crate::text::piece_free(
        #[trigger] lines[i],
        ('\n' as u8),
    ) by {
        if i == 0 {
            lemma_table_header_shape();
        } else {
            lemma_expected_line_free(evs[i - 1]);
            assert(lines[i] == row_lines[i - 1]);
        }
    }
    lemma_split_nl_join(lines);
    let all = lines.push(Seq::<u8>::empty());
    assert(row_lines.take(n) =~= row_lines);
    assert(seq![header] + row_lines.take(n) =~~= lines);
    assert(spec_render_expected(evs, n) =~= spec_nl_join(lines));
    assert(spec_split(spec_render_expected(evs, n), ('\n' as u8)) =~~= all);
    lemma_expected_fold(evs, all, header, row_lines, n);
    assert(spec_parse_expected(all, all.len() as int) == (
    match spec_parse_expected(all, all.len() as int - 1) {
        Some((acc, seen)) => Some((acc, seen)),
        None => None,
    })) by {
        assert(all[all.len() - 1].len() == 0);
        match spec_parse_expected(all, all.len() as int - 1) {
            Some((acc, seen)) => {},
            None => {},
        }
    };
    assert(evs.take(n) =~= evs);
}

/// The header of the expected table is nonempty, newline-free until its
/// closing newline, and does not start with a newline.
proof fn lemma_table_header_shape()
    ensures
        ({
            let h = spec_table_header(
                seq![('r' as u8), ('e' as u8), ('g' as u8), ('i' as u8), ('o' as u8), ('n' as u8)],
            );
            let body = h.take(h.len() - 1);
            &&& h.len() > 1
            &&& h.last() == ('\n' as u8)
            &&& body.len() > 0
            &&& crate::text::piece_free(body, ('\n' as u8))
        }),
{
    let label = seq![('r' as u8), ('e' as u8), ('g' as u8), ('i' as u8), ('o' as u8), ('n' as u8)];
    let pieces = seq![
        label,
        MutationType::Unknown.spec_name(),
        MutationType::Synonymous.spec_name(),
        MutationType::Missense.spec_name(),
        MutationType::Nonsense.spec_name(),
        MutationType::StartCodon.spec_name(),
        MutationType::StopLoss.spec_name(),
        MutationType::SpliceSite.spec_name(),
        MutationType::Intronic.spec_name(),
        MutationType::InFrameIndel.spec_name(),
        MutationType::FrameshiftIndel.spec_name(),
    ];
    assert forall|j: int| 0 <= j < pieces.len() implies crate::text::piece_free(
        #[trigger] pieces[j],
        ('\n' as u8),
    ) by {
        if j >= 1 {
            lemma_type_name_tab_free(MutationType::spec_from_code((j - 1) as u8));
            assert(pieces[j] == MutationType::spec_from_code((j - 1) as u8).spec_name());
        }
    }
    lemma_join_nl_free_tab(pieces);
    let joined = crate::text::spec_join(pieces, ('\t' as u8));
    let h = spec_table_header(label);
    assert(h =~= joined + seq![('\n' as u8)]);
    assert(h.take(h.len() - 1) =~= joined);
    assert(joined.len() > 0) by {
        crate::text::lemma_split_join(pieces, ('\t' as u8));
        if joined.len() == 0 {
            assert(spec_split(joined, ('\t' as u8)) =~~= seq![Seq::<u8>::empty()]);
        }
    };
}

proof fn lemma_join_nl_free_tab(fields: Seq<Seq<u8>>)
    requires
        forall|j: int|
            0 <= j < fields.len() ==> crate::text::piece_free(#[trigger] fields[j], ('\n' as u8)),
    ensures
        crate::text::piece_free(
            crate::text::spec_join(fields, ('\t' as u8)),
            ('\n' as u8),
        ),
{
    lemma_join_nl_free(fields);
}

proof fn lemma_expected_render_lines(
    evs: Seq<crate::expect::RegionExpectedView>,
    i: int,
    header: Seq<u8>,
    row_lines: Seq<Seq<u8>>,
)
    requires
        0 <= i <= evs.len(),
        ({
            let h = spec_table_header(
                seq![('r' as u8), ('e' as u8), ('g' as u8), ('i' as u8), ('o' as u8), ('n' as u8)],
            );
            header =~= h.take(h.len() - 1)
        }),
        row_lines =~= evs.map_values(
            |ev: crate::expect::RegionExpectedView| spec_expected_line(ev),
        ),
    ensures
        spec_render_expected(evs, i) =~= spec_nl_join(seq![header] + row_lines.take(i)),
    decreases i,
{
    if i == 0 {
        assert(seq![header] + row_lines.take(0) =~= seq![header]);
        assert(spec_nl_join(seq![header]) =~= header + seq![('\n' as u8)]) by {
            assert(seq![header].drop_last() =~= Seq::<Seq<u8>>::empty());
            assert(spec_nl_join(Seq::<Seq<u8>>::empty()) =~= Seq::<u8>::empty());
        };
        lemma_table_header_shape();
        let h = spec_table_header(
            seq![('r' as u8), ('e' as u8), ('g' as u8), ('i' as u8), ('o' as u8), ('n' as u8)],
        );
        assert(h =~= header + seq![('\n' as u8)]) by {
            assert(h.last() == ('\n' as u8));
            assert(header =~= h.take(h.len() - 1));
        };
    } else {
        lemma_expected_render_lines(evs, i - 1, header, row_lines);
        assert(seq![header] + row_lines.take(i) =~= (seq![header] + row_lines.take(i - 1)).push(
            row_lines[i - 1],
        ));
        lemma_nl_join_push(seq![header] + row_lines.take(i - 1), row_lines[i - 1]);
        assert(spec_expected_row(evs[i - 1]) =~= row_lines[i - 1] + seq![('\n' as u8)]) by {
            assert(row_lines[i - 1] == spec_expected_line(evs[i - 1]));
        };
    }
}

#[verifier::rlimit(100)]
#[verifier::spinoff_prover]
proof fn lemma_expected_fold(
    evs: Seq<crate::expect::RegionExpectedView>,
    all: Seq<Seq<u8>>,
    header: Seq<u8>,
    row_lines: Seq<Seq<u8>>,
    i: int,
)
    requires
        forall|x: int| 0 <= x < evs.len() ==> name_wf((#[trigger] evs[x]).region),
        forall|x: int, y: int|
            0 <= x < y < evs.len() ==> (#[trigger] evs[x]).region != (#[trigger] evs[y]).region,
        0 <= i <= evs.len(),
        header.len() > 0,
        header[0] != ('\n' as u8),
        all =~~= seq![header] + row_lines + seq![Seq::<u8>::empty()],
        row_lines =~= evs.map_values(
            |ev: crate::expect::RegionExpectedView| spec_expected_line(ev),
        ),
    ensures
        spec_parse_expected(all, i + 1) =~~= Some((evs.take(i), true)),
    decreases i,
{
    if i == 0 {
        assert(all[0] == header);
        assert(spec_parse_expected(all, 0) == Some((
            Seq::<crate::expect::RegionExpectedView>::empty(),
            false,
        )));
        assert(evs.take(0).len() == 0);
    } else {
        lemma_expected_fold(evs, all, header, row_lines, i - 1);
        assert(all[i] == row_lines[i - 1]);
        lemma_expected_row_round_trip(evs[i - 1]);
        let row = row_lines[i - 1];
        assert(spec_parse_expected_row(row) =~~= Some(evs[i - 1])) by {
            assert(row == spec_expected_line(evs[i - 1]));
        };
        assert(row.len() > 0) by {
            crate::text::lemma_dec_digits_are_digits(
                ((evs[i - 1].counts.unknown as int) / (crate::text::FRAC_UNIT as int)) as nat,
            );
            if row.len() == 0 {
                assert(spec_split(row, ('\t' as u8)) =~~= seq![Seq::<u8>::empty()]);
                assert(spec_parse_expected_row(row) is None);
            }
        };
        assert(!spec_has_expected_region(evs.take(i - 1), evs[i - 1].region)) by {
            if spec_has_expected_region(evs.take(i - 1), evs[i - 1].region) {
                let k = choose|k: int|
                    0 <= k < evs.take(i - 1).len() && (#[trigger] evs.take(i - 1)[k]).region
                        == evs[i - 1].region;
                assert(evs[k].region == evs[i - 1].region);
            }
        };
        assert(evs.take(i - 1).push(evs[i - 1]) =~= evs.take(i));
    }
}

/// Class codes strictly increase along the distribution list (so each
/// class appears at most once, in canonical order).
pub open spec fn classes_strictly_increasing(ds: Seq<crate::sample::ClassCounterView>) -> bool {
    forall|i: int, j: int|
        #![trigger ds[i], ds[j]]
        0 <= i < j < ds.len() ==> ds[i].mutation_type.spec_code()
            < ds[j].mutation_type.spec_code()
}

/// How many leading distributions carry a class code below `c`.
pub open spec fn spec_classes_below(ds: Seq<crate::sample::ClassCounterView>, c: int) -> int
    decreases ds.len(),
{
    if ds.len() == 0 {
        0
    } else if ds[0].mutation_type.spec_code() < c {
        1 + spec_classes_below(ds.skip(1), c)
    } else {
        0
    }
}

#[verifier::rlimit(100)]
#[verifier::spinoff_prover]
proof fn lemma_classes_below_bounds(ds: Seq<crate::sample::ClassCounterView>, c: int)
    requires
        classes_strictly_increasing(ds),
    ensures
        0 <= spec_classes_below(ds, c) <= ds.len(),
        forall|j: int|
            0 <= j < spec_classes_below(ds, c) ==> (#[trigger] ds[j]).mutation_type.spec_code()
                < c,
        forall|j: int|
            spec_classes_below(ds, c) <= j < ds.len()
                ==> (#[trigger] ds[j]).mutation_type.spec_code() >= c,
    decreases ds.len(),
{
    if ds.len() == 0 {
    } else if ds[0].mutation_type.spec_code() < c {
        assert(classes_strictly_increasing(ds.skip(1))) by {
            assert(forall|k: int|
                0 <= k < ds.skip(1).len() - 1 ==> (#[trigger] ds.skip(1)[k]).mutation_type.spec_code()
                    < ds.skip(1)[k + 1].mutation_type.spec_code());
        };
        lemma_classes_below_bounds(ds.skip(1), c);
        assert(forall|j: int| 1 <= j < ds.len() ==> ds[j] == ds.skip(1)[j - 1]);
    } else {
        assert forall|j: int| 0 <= j < ds.len() implies (#[trigger] ds[j]).mutation_type.spec_code()
            >= c by {
            if j > 0 {
                assert(ds[0].mutation_type.spec_code() < ds[j].mutation_type.spec_code());
            }
        }
    }
}

/// Looking a class up finds an entry of that class, or there is none.
#[verifier::rlimit(100)]
#[verifier::spinoff_prover]
proof fn lemma_lookup_class_found(ds: Seq<crate::sample::ClassCounterView>, t: MutationType)
    ensures
        match crate::compare::spec_lookup_class(ds, t) {
            Some(d) => exists|j: int|
                0 <= j < ds.len() && (#[trigger] ds[j]) == d && d.mutation_type == t,
            None => forall|j: int| 0 <= j < ds.len() ==> (#[trigger] ds[j]).mutation_type != t,
        },
    decreases ds.len(),
{
    if ds.len() > 0 && ds[0].mutation_type != t {
        lemma_lookup_class_found(ds.skip(1), t);
        assert(forall|j: int| 1 <= j < ds.len() ==> ds[j] == ds.skip(1)[j - 1]);
        match crate::compare::spec_lookup_class(ds.skip(1), t) {
            Some(d) => {
                let j = choose|j: int|
                    0 <= j < ds.skip(1).len() && (#[trigger] ds.skip(1)[j]) == d && d.mutation_type
                        == t;
                assert(ds[j + 1] == d);
            },
            None => {},
        }
    }
}

/// For a strictly increasing list, the class with code `c` sits exactly
/// at the boundary index, if anywhere, and the boundary advances by one
/// exactly when it is there.
#[verifier::rlimit(100)]
#[verifier::spinoff_prover]
proof fn lemma_class_boundary(ds: Seq<crate::sample::ClassCounterView>, c: int)
    requires
        classes_strictly_increasing(ds),
        0 <= c <= 9,
    ensures
        ({
            let p = spec_classes_below(ds, c);
            let t = MutationType::spec_from_code(c as u8);
            if p < ds.len() && ds[p].mutation_type.spec_code() == c {
                crate::compare::spec_lookup_class(ds, t) == Some(ds[p]) && spec_classes_below(
                    ds,
                    c + 1,
                ) == p + 1
            } else {
                crate::compare::spec_lookup_class(ds, t) is None && spec_classes_below(ds, c + 1)
                    == p
            }
        }),
{
    let p = spec_classes_below(ds, c);
    let t = MutationType::spec_from_code(c as u8);
    assert(t.spec_code() == c);
    lemma_classes_below_bounds(ds, c);
    lemma_classes_below_bounds(ds, c + 1);
    lemma_lookup_class_found(ds, t);
    let q = spec_classes_below(ds, c + 1);
    if p < ds.len() && ds[p].mutation_type.spec_code() == c {
        // the boundary entry is the class; the next boundary is one past
        assert(ds[p].mutation_type == t) by {
            MutationType::lemma_code_injective(ds[p].mutation_type, t);
        };
        assert(q == p + 1) by {
            if q <= p {
                assert(ds[p].mutation_type.spec_code() >= c + 1);
            }
            if q > p + 1 {
                assert(ds[p + 1].mutation_type.spec_code() < c + 1);
                assert(ds[p].mutation_type.spec_code() < ds[p + 1].mutation_type.spec_code());
            }
        };
        match crate::compare::spec_lookup_class(ds, t) {
            Some(d) => {
                let j = choose|j: int|
                    0 <= j < ds.len() && (#[trigger] ds[j]) == d && d.mutation_type == t;
                assert(j == p) by {
                    if j < p {
                        assert(ds[j].mutation_type.spec_code() < c);
                    }
                    if j > p {
                        assert(ds[p].mutation_type.spec_code() < ds[j].mutation_type.spec_code());
                    }
                };
            },
            None => {
                assert(ds[p].mutation_type != t);
            },
        }
    } else {
        // no entry carries code c: below the boundary codes are smaller,
        // from it on they are larger
        assert forall|j: int| 0 <= j < ds.len() implies (#[trigger] ds[j]).mutation_type != t by {
            if j < p {
                assert(ds[j].mutation_type.spec_code() < c);
            } else {
                assert(ds[j].mutation_type.spec_code() >= c);
                if ds[j].mutation_type.spec_code() == c {
                    if j > p {
                        assert(ds[p].mutation_type.spec_code() < ds[j].mutation_type.spec_code());
                    }
                }
            }
        }
        assert(q == p) by {
            if q > p {
                assert(ds[p].mutation_type.spec_code() < c + 1);
                assert(ds[p].mutation_type.spec_code() >= c);
            }
            if q < p {
                assert(ds[q].mutation_type.spec_code() < c);
                assert(ds[q].mutation_type.spec_code() >= c + 1);
            }
        };
        match crate::compare::spec_lookup_class(ds, t) {
            Some(d) => {
                let j = choose|j: int|
                    0 <= j < ds.len() && (#[trigger] ds[j]) == d && d.mutation_type == t;
                assert(ds[j].mutation_type != t);
            },
            None => {},
        }
    }
}

/// A nonempty histogram renders as nonempty text.
proof fn lemma_counter_text_nonempty(s: Seq<usize>)
    requires
        s.len() >= 1,
    ensures
        crate::counts::spec_counter_text(s).len() > 0,
{
    let pieces = s.map_values(|n: usize| dec_digits(n as nat));
    crate::text::lemma_dec_digits_are_digits(s[0] as nat);
    assert(pieces[0].len() >= 1);
    if pieces.len() == 1 {
        assert(crate::text::spec_join(pieces, ('|' as u8)) == pieces[0]);
    } else {
        assert(crate::text::spec_join(pieces, ('|' as u8)) == pieces[0] + seq![('|' as u8)]
            + crate::text::spec_join(pieces.skip(1), ('|' as u8)));
    }
}

/// Joined pieces free of a byte other than the separator stay free of it.
proof fn lemma_join_free_of(ps: Seq<Seq<u8>>, sep: u8, b: u8)
    requires
        b != sep,
        forall|j: int| 0 <= j < ps.len() ==> crate::text::piece_free(#[trigger] ps[j], b),
    ensures
        crate::text::piece_free(crate::text::spec_join(ps, sep), b),
    decreases ps.len(),
{
    if ps.len() <= 1 {
    } else {
        assert(forall|j: int|
            0 <= j < ps.skip(1).len() ==> crate::text::piece_free(#[trigger] ps.skip(1)[j], b));
        lemma_join_free_of(ps.skip(1), sep, b);
        let joined = crate::text::spec_join(ps, sep);
        let rest = crate::text::spec_join(ps.skip(1), sep);
        assert(joined == ps[0] + seq![sep] + rest);
        assert(forall|x: int| 0 <= x < joined.len() ==> joined[x] != b) by {
            assert(forall|x: int| 0 <= x < ps[0].len() ==> joined[x] == ps[0][x]);
            assert(joined[ps[0].len() as int] == sep);
            assert(forall|x: int| 0 <= x < rest.len() ==> joined[ps[0].len() + 1 + x] == rest[x]);
        };
    }
}

/// A histogram's text holds only digits and pipes.
proof fn lemma_counter_text_free(s: Seq<usize>)
    ensures
        crate::text::piece_free(crate::counts::spec_counter_text(s), ('\t' as u8)),
        crate::text::piece_free(crate::counts::spec_counter_text(s), ('\n' as u8)),
{
    let pieces = s.map_values(|n: usize| dec_digits(n as nat));
    assert forall|j: int| 0 <= j < pieces.len() implies crate::text::piece_free(
        #[trigger] pieces[j],
        ('\t' as u8),
    ) && crate::text::piece_free(pieces[j], ('\n' as u8)) by {
        crate::text::lemma_dec_digits_are_digits(s[j] as nat);
        assert(forall|x: int|
            0 <= x < pieces[j].len() ==> crate::text::is_digit(#[trigger] pieces[j][x]));
    }
    lemma_join_free_of(pieces, ('|' as u8), ('\t' as u8));
    lemma_join_free_of(pieces, ('|' as u8), ('\n' as u8));
}

/// A sampled region that the artifact can carry: a separator-free name,
/// classes in strictly increasing code order, every histogram nonempty.
pub open spec fn sampled_wf_text(sv: crate::sample::RegionSampledView) -> bool {
    &&& name_wf(sv.region)
    &&& classes_strictly_increasing(sv.distributions)
    &&& forall|k: int| 0 <= k < sv.distributions.len() ==> (#[trigger] sv.distributions[k]).counter.len() >= 1
}

/// A sampled row without its closing newline.
pub open spec fn spec_sampled_line(sv: crate::sample::RegionSampledView) -> Seq<u8> {
    crate::text::spec_join(
        seq![
            sv.region,
            spec_class_field(sv, MutationType::Unknown),
            spec_class_field(sv, MutationType::Synonymous),
            spec_class_field(sv, MutationType::Missense),
            spec_class_field(sv, MutationType::Nonsense),
            spec_class_field(sv, MutationType::StartCodon),
            spec_class_field(sv, MutationType::StopLoss),
            spec_class_field(sv, MutationType::SpliceSite),
            spec_class_field(sv, MutationType::Intronic),
            spec_class_field(sv, MutationType::InFrameIndel),
            spec_class_field(sv, MutationType::FrameshiftIndel),
        ],
        ('\t' as u8),
    )
}

proof fn lemma_class_field_free(sv: crate::sample::RegionSampledView, t: MutationType)
    ensures
        crate::text::piece_free(spec_class_field(sv, t), ('\t' as u8)),
        crate::text::piece_free(spec_class_field(sv, t), ('\n' as u8)),
{
    match crate::compare::spec_lookup_class(sv.distributions, t) {
        Some(c) => {
            lemma_counter_text_free(c.counter);
        },
        None => {},
    }
}

/// Parsing one class's rendered column yields that class's distribution.
#[verifier::rlimit(100)]
#[verifier::spinoff_prover]
proof fn lemma_cell_round_trip(sv: crate::sample::RegionSampledView, c: int)
    requires
        sampled_wf_text(sv),
        0 <= c <= 9,
    ensures
        ({
            let t = MutationType::spec_from_code(c as u8);
            spec_parse_cell(spec_class_field(sv, t), t) == Some(
                crate::compare::spec_lookup_class(sv.distributions, t),
            )
        }),
{
    let t = MutationType::spec_from_code(c as u8);
    lemma_lookup_class_found(sv.distributions, t);
    match crate::compare::spec_lookup_class(sv.distributions, t) {
        Some(d) => {
            let j = choose|j: int|
                0 <= j < sv.distributions.len() && (#[trigger] sv.distributions[j]) == d
                    && d.mutation_type == t;
            assert(d.counter.len() >= 1);
            lemma_counter_text_nonempty(d.counter);
            crate::counts::lemma_counter_round_trip(d.counter);
            assert(spec_parse_cell(spec_class_field(sv, t), t) == Some(
                Some(
                    crate::sample::ClassCounterView { mutation_type: t, counter: d.counter },
                ),
            ));
            assert(crate::sample::ClassCounterView { mutation_type: t, counter: d.counter }
                == d);
        },
        None => {
            assert(spec_class_field(sv, t).len() == 0);
        },
    }
}

/// Folding the class columns up to code `c` rebuilds the distributions
/// with codes below `c`.
#[verifier::rlimit(100)]
#[verifier::spinoff_prover]
proof fn lemma_cells_round_trip(sv: crate::sample::RegionSampledView, fs: Seq<Seq<u8>>, k: int)
    requires
        sampled_wf_text(sv),
        1 <= k <= 11,
        fs.len() == 11,
        forall|x: int|
            1 <= x < 11 ==> #[trigger] fs[x] == spec_class_field(
                sv,
                MutationType::spec_from_code((x - 1) as u8),
            ),
    ensures
        spec_cells_upto(fs, k) == Some(
            sv.distributions.take(spec_classes_below(sv.distributions, k - 1)),
        ),
    decreases k,
{
    let ds = sv.distributions;
    if k == 1 {
        lemma_classes_below_bounds(ds, 0);
        assert(spec_classes_below(ds, 0) == 0) by {
            if ds.len() > 0 {
                assert(ds[0].mutation_type.spec_code() >= 0);
            }
        };
        assert(ds.take(0) =~= Seq::<crate::sample::ClassCounterView>::empty());
    } else {
        lemma_cells_round_trip(sv, fs, k - 1);
        let c = k - 2;
        let t = MutationType::spec_from_code(c as u8);
        lemma_cell_round_trip(sv, c);
        lemma_class_boundary(ds, c);
        lemma_classes_below_bounds(ds, c);
        let p = spec_classes_below(ds, c);
        assert(fs[k - 1] == spec_class_field(sv, t));
        match crate::compare::spec_lookup_class(ds, t) {
            Some(d) => {
                assert(d == ds[p]);
                assert(spec_classes_below(ds, c + 1) == p + 1);
                assert(ds.take(p).push(ds[p]) =~= ds.take(p + 1));
                assert(ds.take(p) + opt_seq(Some(d)) =~= ds.take(p + 1));
            },
            None => {
                assert(spec_classes_below(ds, c + 1) == p);
                assert(ds.take(p) + opt_seq(None::<crate::sample::ClassCounterView>) =~= ds.take(
                    p,
                ));
            },
        }
    }
}

/// Parsing a rendered sampled row gives back the region's distributions.
#[verifier::rlimit(100)]
#[verifier::spinoff_prover]
proof fn lemma_sampled_row_round_trip(sv: crate::sample::RegionSampledView)
    requires
        sampled_wf_text(sv),
    ensures
        spec_parse_sampled_row(spec_sampled_line(sv)) =~~= Some(sv),
{
    let fields = seq![
        sv.region,
        spec_class_field(sv, MutationType::Unknown),
        spec_class_field(sv, MutationType::Synonymous),
        spec_class_field(sv, MutationType::Missense),
        spec_class_field(sv, MutationType::Nonsense),
        spec_class_field(sv, MutationType::StartCodon),
        spec_class_field(sv, MutationType::StopLoss),
        spec_class_field(sv, MutationType::SpliceSite),
        spec_class_field(sv, MutationType::Intronic),
        spec_class_field(sv, MutationType::InFrameIndel),
        spec_class_field(sv, MutationType::FrameshiftIndel),
    ];
    let row = spec_sampled_line(sv);
    assert(row == crate::text::spec_join(fields, ('\t' as u8)));
    assert forall|j: int| 0 <= j < fields.len() implies crate::text::piece_free(
        #[trigger] fields[j],
        ('\t' as u8),
    ) by {
        if j >= 1 {
            lemma_class_field_free(sv, MutationType::spec_from_code((j - 1) as u8));
            assert(fields[j] == spec_class_field(sv, MutationType::spec_from_code((j - 1) as u8)));
        }
    }
    crate::text::lemma_split_join(fields, ('\t' as u8));
    let ps = spec_split(row, ('\t' as u8));
    assert(ps == fields);
    assert(forall|x: int|
        1 <= x < 11 ==> #[trigger] ps[x] == spec_class_field(
            sv,
            MutationType::spec_from_code((x - 1) as u8),
        ));
    lemma_cells_round_trip(sv, ps, 11);
    lemma_classes_below_bounds(sv.distributions, 10);
    assert(spec_classes_below(sv.distributions, 10) == sv.distributions.len()) by {
        let p = spec_classes_below(sv.distributions, 10);
        if p < sv.distributions.len() {
            assert(sv.distributions[p].mutation_type.spec_code() >= 10);
        }
    };
    assert(sv.distributions.take(sv.distributions.len() as int) =~= sv.distributions);
}

/// Reading a written sampled-mutations artifact gives back the regions:
/// the round trip law of the sampled distributions format, for
/// separator-free names, classes in canonical order and nonempty
/// histograms (exactly what the sampler emits).
#[verifier::rlimit(100)]
#[verifier::spinoff_prover]
pub proof fn lemma_sampled_round_trip(svs: Seq<crate::sample::RegionSampledView>)
    requires
        forall|i: int| 0 <= i < svs.len() ==> sampled_wf_text(#[trigger] svs[i]),
    ensures
        spec_parse_sampled(
            spec_split(
                spec_render_sampled(svs, svs.len() as int),
                ('\n' as u8),
            ),
            spec_split(
                spec_render_sampled(svs, svs.len() as int),
                ('\n' as u8),
            ).len() as int,
        ) =~~= Some((svs, true)),
{
    let n = svs.len() as int;
    let row_lines = svs.map_values(
        |sv: crate::sample::RegionSampledView| spec_sampled_line(sv),
    );
    let header_full = spec_table_header(
        seq![('r' as u8), ('e' as u8), ('g' as u8), ('i' as u8), ('o' as u8), ('n' as u8)],
    );
    let header = header_full.take(header_full.len() - 1);
    lemma_table_header_shape();
    assert(header_full =~= header + seq![('\n' as u8)]);
    let lines = seq![header] + row_lines;
    lemma_sampled_render_lines(svs, n, header, row_lines);
    assert forall|i: int| 0 <= i < lines.len() implies crate::text::piece_free(
        #[trigger] lines[i],
        ('\n' as u8),
    ) by {
        if i == 0 {
        } else {
            lemma_sampled_line_free(svs[i - 1]);
            assert(lines[i] == row_lines[i - 1]);
        }
    }
    lemma_split_nl_join(lines);
    let all = lines.push(Seq::<u8>::empty());
    assert(row_lines.take(n) =~= row_lines);
    assert(seq![header] + row_lines.take(n) =~~= lines);
    assert(spec_render_sampled(svs, n) =~= spec_nl_join(lines));
    assert(spec_split(spec_render_sampled(svs, n), ('\n' as u8)) =~~= all);
    lemma_sampled_fold(svs, all, header, row_lines, n);
    assert(spec_parse_sampled(all, all.len() as int) == (
    match spec_parse_sampled(all, all.len() as int - 1) {
        Some((acc, seen)) => Some((acc, seen)),
        None => None,
    })) by {
        assert(all[all.len() - 1].len() == 0);
        match spec_parse_sampled(all, all.len() as int - 1) {
            Some((acc, seen)) => {},
            None => {},
        }
    };
    assert(svs.take(n) =~= svs);
}

#[verifier::rlimit(100)]
#[verifier::spinoff_prover]
proof fn lemma_sampled_line_free(sv: crate::sample::RegionSampledView)
    requires
        sampled_wf_text(sv),
    ensures
        crate::text::piece_free(spec_sampled_line(sv), ('\n' as u8)),
{
    let fields = seq![
        sv.region,
        spec_class_field(sv, MutationType::Unknown),
        spec_class_field(sv, MutationType::Synonymous),
        spec_class_field(sv, MutationType::Missense),
        spec_class_field(sv, MutationType::Nonsense),
        spec_class_field(sv, MutationType::StartCodon),
        spec_class_field(sv, MutationType::StopLoss),
        spec_class_field(sv, MutationType::SpliceSite),
        spec_class_field(sv, MutationType::Intronic),
        spec_class_field(sv, MutationType::InFrameIndel),
        spec_class_field(sv, MutationType::FrameshiftIndel),
    ];
    assert forall|j: int| 0 <= j < fields.len() implies crate::text::piece_free(
        #[trigger] fields[j],
        ('\n' as u8),
    ) by {
        if j >= 1 {
            lemma_class_field_free(sv, MutationType::spec_from_code((j - 1) as u8));
            assert(fields[j] == spec_class_field(sv, MutationType::spec_from_code((j - 1) as u8)));
        }
    }
    lemma_join_nl_free(fields);
}

#[verifier::rlimit(100)]
#[verifier::spinoff_prover]
proof fn lemma_sampled_render_lines(
    svs: Seq<crate::sample::RegionSampledView>,
    i: int,
    header: Seq<u8>,
    row_lines: Seq<Seq<u8>>,
)
    requires
        0 <= i <= svs.len(),
        ({
            let h = spec_table_header(
                seq![('r' as u8), ('e' as u8), ('g' as u8), ('i' as u8), ('o' as u8), ('n' as u8)],
            );
            header =~= h.take(h.len() - 1)
        }),
        row_lines =~= svs.map_values(
            |sv: crate::sample::RegionSampledView| spec_sampled_line(sv),
        ),
    ensures
        spec_render_sampled(svs, i) =~= spec_nl_join(seq![header] + row_lines.take(i)),
    decreases i,
{
    if i == 0 {
        assert(seq![header] + row_lines.take(0) =~= seq![header]);
        assert(spec_nl_join(seq![header]) =~= header + seq![('\n' as u8)]) by {
            assert(seq![header].drop_last() =~= Seq::<Seq<u8>>::empty());
            assert(spec_nl_join(Seq::<Seq<u8>>::empty()) =~= Seq::<u8>::empty());
        };
        lemma_table_header_shape();
        let h = spec_table_header(
            seq![('r' as u8), ('e' as u8), ('g' as u8), ('i' as u8), ('o' as u8), ('n' as u8)],
        );
        assert(h =~= header + seq![('\n' as u8)]) by {
            assert(h.last() == ('\n' as u8));
            assert(header =~= h.take(h.len() - 1));
        };
    } else {
        lemma_sampled_render_lines(svs, i - 1, header, row_lines);
        assert(seq![header] + row_lines.take(i) =~= (seq![header] + row_lines.take(i - 1)).push(
            row_lines[i - 1],
        ));
        lemma_nl_join_push(seq![header] + row_lines.take(i - 1), row_lines[i - 1]);
        assert(spec_sampled_row(svs[i - 1]) =~= row_lines[i - 1] + seq![('\n' as u8)]) by {
            assert(row_lines[i - 1] == spec_sampled_line(svs[i - 1]));
        };
    }
}

#[verifier::rlimit(100)]
#[verifier::spinoff_prover]
proof fn lemma_sampled_fold(
    svs: Seq<crate::sample::RegionSampledView>,
    all: Seq<Seq<u8>>,
    header: Seq<u8>,
    row_lines: Seq<Seq<u8>>,
    i: int,
)
    requires
        forall|x: int| 0 <= x < svs.len() ==> sampled_wf_text(#[trigger] svs[x]),
        0 <= i <= svs.len(),
        header.len() > 0,
        header[0] != ('\n' as u8),
        all =~~= seq![header] + row_lines + seq![Seq::<u8>::empty()],
        row_lines =~= svs.map_values(
            |sv: crate::sample::RegionSampledView| spec_sampled_line(sv),
        ),
    ensures
        spec_parse_sampled(all, i + 1) =~~= Some((svs.take(i), true)),
    decreases i,
{
    if i == 0 {
        assert(all[0] == header);
        assert(spec_parse_sampled(all, 0) == Some((
            Seq::<crate::sample::RegionSampledView>::empty(),
            false,
        )));
        assert(svs.take(0).len() == 0);
    } else {
        lemma_sampled_fold(svs, all, header, row_lines, i - 1);
        assert(all[i] == row_lines[i - 1]);
        lemma_sampled_row_round_trip(svs[i - 1]);
        let row = row_lines[i - 1];
        assert(spec_parse_sampled_row(row) =~~= Some(svs[i - 1])) by {
            assert(row == spec_sampled_line(svs[i - 1]));
        };
        assert(row.len() > 0) by {
            let fs = spec_split(row, ('\t' as u8));
            if row.len() == 0 {
                assert(fs =~~= seq![Seq::<u8>::empty()]);
                assert(spec_parse_sampled_row(row) is None);
            }
        };
        assert(svs.take(i - 1).push(svs[i - 1]) =~= svs.take(i));
    }
}

} // verus!