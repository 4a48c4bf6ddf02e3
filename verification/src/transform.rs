//! Flatten a GFF3 annotation feed into per-transcript records, and render
//! or parse the genomic-regions artifact.

use vstd::prelude::*;

use crate::annotation::SeqAnnotation;
use crate::error::ParseError;
use crate::interval::{Interval, Phase, Strand, CDS};
use crate::observed::{clone_bytes, filter_view, spec_passes_filter};
use crate::text::{bytes_eq, spec_split, split, views};

verus! {

/// Mathematical image of a transcript record.
pub struct AnnotationView {
    pub name: Seq<u8>,
    pub chr: Seq<u8>,
    pub range: Interval,
    pub strand: Strand,
    pub exons: Seq<Interval>,
    pub coding_sequences: Seq<CDS>,
}

impl View for SeqAnnotation {
    type V = AnnotationView;

    open spec fn view(&self) -> AnnotationView {
        AnnotationView {
            name: self.name@,
            chr: self.chr@,
            range: self.range,
            strand: self.strand,
            exons: self.exons@,
            coding_sequences: self.coding_sequences@,
        }
    }
}

pub open spec fn annotation_views(v: Seq<SeqAnnotation>) -> Seq<AnnotationView> {
    v.map_values(|a: SeqAnnotation| a@)
}

pub open spec fn kw_transcript() -> Seq<u8> {
    seq![
        ('t' as u8), ('r' as u8), ('a' as u8), ('n' as u8), ('s' as u8), ('c' as u8), ('r' as u8),
        ('i' as u8), ('p' as u8), ('t' as u8),
    ]
}

pub open spec fn kw_exon() -> Seq<u8> {
    seq![('e' as u8), ('x' as u8), ('o' as u8), ('n' as u8)]
}

pub open spec fn kw_cds() -> Seq<u8> {
    seq![('C' as u8), ('D' as u8), ('S' as u8)]
}

pub open spec fn kw_id() -> Seq<u8> {
    seq![('I' as u8), ('D' as u8)]
}

pub open spec fn kw_parent() -> Seq<u8> {
    seq![('P' as u8), ('a' as u8), ('r' as u8), ('e' as u8), ('n' as u8), ('t' as u8)]
}

/// The value of the first `key=value` attribute with the given key in a
/// semicolon-separated attribute string.
pub open spec fn spec_get_attribute(pieces: Seq<Seq<u8>>, name: Seq<u8>) -> Option<Seq<u8>>
    decreases pieces.len(),
{
    if pieces.len() == 0 {
        None
    } else {
        let kv = spec_split(pieces[0], ('=' as u8));
        if kv.len() == 2 && kv[0] == name {
            Some(kv[1])
        } else {
            spec_get_attribute(pieces.skip(1), name)
        }
    }
}

/// Look up an attribute such as `ID=...` in a GFF3 attribute string.
pub fn get_attribute(attr_str: &[u8], attribute_name: &[u8]) -> (r: Option<Vec<u8>>)
    ensures
        match r {
            Some(v) => Some(v@) == spec_get_attribute(
                spec_split(attr_str@, (';' as u8)),
                attribute_name@,
            ),
            None => spec_get_attribute(spec_split(attr_str@, (';' as u8)), attribute_name@)
                is None,
        },
{
    let pieces = split(attr_str, ';' as u8);
    let ghost ps = spec_split(attr_str@, (';' as u8));
    let mut i: usize = 0;
    proof {
        assert(ps.skip(0) =~= ps);
    }
    while i < pieces.len()
        invariant
            0 <= i <= pieces@.len(),
            ps == spec_split(attr_str@, (';' as u8)),
            views(pieces@) == ps,
            spec_get_attribute(ps, attribute_name@) == spec_get_attribute(
                ps.skip(i as int),
                attribute_name@,
            ),
        decreases pieces@.len() - i,
    {
        proof {
            let sk = ps.skip(i as int);
            assert(sk[0] == ps[i as int]);
            assert(sk.skip(1) =~= ps.skip(i as int + 1));
            assert(views(pieces@)[i as int] == pieces@[i as int]@);
        }
        let kv = split(&pieces[i], '=' as u8);
        if kv.len() == 2 {
            proof {
                assert(views(kv@)[0] == kv@[0]@);
                assert(views(kv@)[1] == kv@[1]@);
            }
            let is_key = bytes_eq(&kv[0], attribute_name);
            if is_key {
                let value = clone_bytes(&kv[1]);
                return Some(value);
            }
        }
        i = i + 1;
    }
    proof {
        assert(ps.skip(i as int).len() == 0);
    }
    None
}

/// One flush of the open transcript: kept when it passes the filter.
pub open spec fn spec_flush(st: Option<AnnotationView>, fil: Option<Seq<u8>>) -> Seq<AnnotationView> {
    match st {
        Some(a) => {
            if spec_passes_filter(fil, a.name) {
                seq![a]
            } else {
                Seq::<AnnotationView>::empty()
            }
        },
        None => Seq::<AnnotationView>::empty(),
    }
}

/// The strand a field denotes.
pub open spec fn spec_strand_of(f: Seq<u8>) -> Option<Strand> {
    if f =~= seq![('+' as u8)] {
        Some(Strand::Plus)
    } else if f =~= seq![('-' as u8)] {
        Some(Strand::Minus)
    } else {
        None
    }
}

/// The 1-based inclusive coordinates of a row as a 0-based half-open
/// interval.
pub open spec fn spec_row_interval(start_f: Seq<u8>, end_f: Seq<u8>) -> Option<Interval> {
    if start_f.len() > 0 && crate::text::all_digits(start_f) && crate::text::dec_value(start_f)
        <= usize::MAX && end_f.len() > 0 && crate::text::all_digits(end_f)
        && crate::text::dec_value(end_f) <= usize::MAX {
        let s = crate::text::dec_value(start_f);
        let e = crate::text::dec_value(end_f);
        if s >= 1 && s - 1 < e {
            Some(Interval { start: (s - 1) as usize, stop: e as usize })
        } else {
            None
        }
    } else {
        None
    }
}

/// Processing one GFF3 line: either the accumulated output and the open
/// transcript move on, or the file is rejected.
pub open spec fn spec_gff3_step(
    out: Seq<AnnotationView>,
    st: Option<AnnotationView>,
    line: Seq<u8>,
    fil: Option<Seq<u8>>,
) -> Option<(Seq<AnnotationView>, Option<AnnotationView>)> {
    if line.len() == 0 || line[0] == ('#' as u8) {
        Some((out, st))
    } else {
        let fields = spec_split(line, ('\t' as u8));
        if fields.len() < 9 {
            None
        } else {
            let ty = fields[2];
            let attrs = spec_split(fields[8], (';' as u8));
            if ty == kw_transcript() {
                match (
                    spec_get_attribute(attrs, kw_id()),
                    spec_row_interval(fields[3], fields[4]),
                    spec_strand_of(fields[6]),
                ) {
                    (Some(id), Some(range), Some(strand)) => {
                        Some(
                            (
                                out + spec_flush(st, fil),
                                Some(
                                    AnnotationView {
                                        name: id,
                                        chr: fields[0],
                                        range,
                                        strand,
                                        exons: Seq::empty(),
                                        coding_sequences: Seq::empty(),
                                    },
                                ),
                            ),
                        )
                    },
                    _ => None,
                }
            } else if ty == kw_exon() {
                match (st, spec_get_attribute(attrs, kw_id()), spec_get_attribute(attrs, kw_parent()), spec_row_interval(fields[3], fields[4])) {
                    (Some(a), Some(_id), Some(parent), Some(range)) => {
                        if parent == a.name {
                            Some((out, Some(AnnotationView { exons: a.exons.push(range), ..a })))
                        } else {
                            None
                        }
                    },
                    _ => None,
                }
            } else if ty == kw_cds() {
                match (st, spec_get_attribute(attrs, kw_id()), spec_get_attribute(attrs, kw_parent()), spec_row_interval(fields[3], fields[4])) {
                    (Some(a), Some(_id), Some(parent), Some(range)) => {
                        if parent == a.name && fields[7].len() == 1 && (fields[7][0] == ('0' as u8)
                            || fields[7][0] == ('1' as u8) || fields[7][0] == ('2' as u8)) {
                            let phase = if fields[7][0] == ('0' as u8) {
                                Phase::Zero
                            } else if fields[7][0] == ('1' as u8) {
                                Phase::One
                            } else {
                                Phase::Two
                            };
                            Some(
                                (
                                    out,
                                    Some(
                                        AnnotationView {
                                            coding_sequences: a.coding_sequences.push(
                                                CDS { range, phase },
                                            ),
                                            ..a
                                        },
                                    ),
                                ),
                            )
                        } else {
                            None
                        }
                    },
                    _ => None,
                }
            } else {
                Some((out, st))
            }
        }
    }
}

/// The fold of the first `i` lines of the feed.
pub open spec fn spec_gff3_fold(
    lines: Seq<Seq<u8>>,
    i: int,
    fil: Option<Seq<u8>>,
) -> Option<(Seq<AnnotationView>, Option<AnnotationView>)>
    decreases i,
{
    if i <= 0 {
        Some((Seq::empty(), None::<AnnotationView>))
    } else {
        match spec_gff3_fold(lines, i - 1, fil) {
            Some((out, st)) => spec_gff3_step(out, st, lines[i - 1], fil),
            None => None,
        }
    }
}

/// What transforming a whole feed yields: the fold of all lines, with the
/// last open transcript flushed.
pub open spec fn spec_transform(data: Seq<u8>, fil: Option<Seq<u8>>) -> Option<Seq<AnnotationView>> {
    let lines = spec_split(data, ('\n' as u8));
    match spec_gff3_fold(lines, lines.len() as int, fil) {
        Some((out, st)) => Some(out + spec_flush(st, fil)),
        None => None,
    }
}

fn exec_kw_transcript() -> (r: Vec<u8>)
    ensures
        r@ == kw_transcript(),
{
    let mut r: Vec<u8> = Vec::new();
    r.push('t' as u8);
    r.push('r' as u8);
    r.push('a' as u8);
    r.push('n' as u8);
    r.push('s' as u8);
    r.push('c' as u8);
    r.push('r' as u8);
    r.push('i' as u8);
    r.push('p' as u8);
    r.push('t' as u8);
    proof {
        assert(r@ =~= kw_transcript());
    }
    r
}

fn exec_kw_exon() -> (r: Vec<u8>)
    ensures
        r@ == kw_exon(),
{
    let mut r: Vec<u8> = Vec::new();
    r.push('e' as u8);
    r.push('x' as u8);
    r.push('o' as u8);
    r.push('n' as u8);
    proof {
        assert(r@ =~= kw_exon());
    }
    r
}

fn exec_kw_cds() -> (r: Vec<u8>)
    ensures
        r@ == kw_cds(),
{
    let mut r: Vec<u8> = Vec::new();
    r.push('C' as u8);
    r.push('D' as u8);
    r.push('S' as u8);
    proof {
        assert(r@ =~= kw_cds());
    }
    r
}

fn exec_kw_id() -> (r: Vec<u8>)
    ensures
        r@ == kw_id(),
{
    let mut r: Vec<u8> = Vec::new();
    r.push('I' as u8);
    r.push('D' as u8);
    proof {
        assert(r@ =~= kw_id());
    }
    r
}

fn exec_kw_parent() -> (r: Vec<u8>)
    ensures
        r@ == kw_parent(),
{
    let mut r: Vec<u8> = Vec::new();
    r.push('P' as u8);
    r.push('a' as u8);
    r.push('r' as u8);
    r.push('e' as u8);
    r.push('n' as u8);
    r.push('t' as u8);
    proof {
        assert(r@ =~= kw_parent());
    }
    r
}

/// Parse the `start` and `end` columns of a row into a 0-based half-open
/// interval.
fn row_interval(start_f: &[u8], end_f: &[u8]) -> (r: Option<Interval>)
    ensures
        r == spec_row_interval(start_f@, end_f@),
{
    let s = match crate::text::parse_usize(start_f) {
        Some(v) => v,
        None => {
            return None;
        },
    };
    let e = match crate::text::parse_usize(end_f) {
        Some(v) => v,
        None => {
            return None;
        },
    };
    if s >= 1 && s - 1 < e {
        Some(Interval { start: s - 1, stop: e })
    } else {
        None
    }
}

fn strand_of(f: &[u8]) -> (r: Option<Strand>)
    ensures
        r == spec_strand_of(f@),
{
    if f.len() == 1 && f[0] == '+' as u8 {
        proof {
            assert(f@ =~= seq![('+' as u8)]);
        }
        Some(Strand::Plus)
    } else if f.len() == 1 && f[0] == '-' as u8 {
        proof {
            assert(f@ =~= seq![('-' as u8)]);
            assert(!(f@ =~= seq![('+' as u8)]));
        }
        Some(Strand::Minus)
    } else {
        proof {
            if f@.len() == 1 {
                assert(!(f@ =~= seq![('+' as u8)]));
                assert(!(f@ =~= seq![('-' as u8)]));
            } else {
                assert(!(f@ =~= seq![('+' as u8)]));
                assert(!(f@ =~= seq![('-' as u8)]));
            }
        }
        None
    }
}

/// The open transcript being accumulated.
struct OpenTranscript {
    name: Vec<u8>,
    chr: Vec<u8>,
    range: Interval,
    strand: Strand,
    exons: Vec<Interval>,
    coding_sequences: Vec<CDS>,
}

impl OpenTranscript {
    spec fn view_opt(st: &Option<OpenTranscript>) -> Option<AnnotationView> {
        match st {
            Some(t) => Some(
                AnnotationView {
                    name: t.name@,
                    chr: t.chr@,
                    range: t.range,
                    strand: t.strand,
                    exons: t.exons@,
                    coding_sequences: t.coding_sequences@,
                },
            ),
            None => None,
        }
    }
}

/// Flatten a GFF3 feed (rows typed `transcript`, `exon` and `CDS`, each
/// child naming its parent) into per-transcript records with 0-based
/// half-open coordinates. A child row that does not name the open
/// transcript rejects the file as not an ordered tree structure, as does
/// any malformed row.
pub fn transform_gff3_annotations(data: &[u8], filter_for_id: Option<&Vec<u8>>) -> (r: Result<
    Vec<SeqAnnotation>,
    ParseError,
>)
    ensures
        r is Ok <==> spec_transform(data@, filter_view(filter_for_id)) is Some,
        r is Ok ==> Some(annotation_views(r->Ok_0@)) == spec_transform(
            data@,
            filter_view(filter_for_id),
        ),
{
    let ghost fil = filter_view(filter_for_id);
    let lines = split(data, '\n' as u8);
    let ghost lns = spec_split(data@, ('\n' as u8));
    let kw_tr = exec_kw_transcript();
    let kw_ex = exec_kw_exon();
    let kw_cd = exec_kw_cds();
    let kw_i = exec_kw_id();
    let kw_p = exec_kw_parent();
    let mut result: Vec<SeqAnnotation> = Vec::new();
    let mut current: Option<OpenTranscript> = None;
    let mut i: usize = 0;
    proof {
        assert(annotation_views(result@) =~= Seq::<AnnotationView>::empty());
        assert(Some((annotation_views(result@), OpenTranscript::view_opt(&current)))
            == spec_gff3_fold(lns, 0, fil));
    }
    while i < lines.len()
        invariant
            0 <= i <= lines@.len(),
            fil == filter_view(filter_for_id),
            lns == spec_split(data@, ('\n' as u8)),
            views(lines@) == lns,
            kw_tr@ == kw_transcript(),
            kw_ex@ == kw_exon(),
            kw_cd@ == kw_cds(),
            kw_i@ == kw_id(),
            kw_p@ == kw_parent(),
            Some((annotation_views(result@), OpenTranscript::view_opt(&current)))
                == spec_gff3_fold(lns, i as int, fil),
        decreases lines@.len() - i,
    {
        let line = &lines[i];
        proof {
            assert(views(lines@)[i as int] == lines@[i as int]@);
        }
        let ghost out0 = annotation_views(result@);
        let ghost st0 = OpenTranscript::view_opt(&current);
        if line.len() == 0 || line[0] == '#' as u8 {
            i = i + 1;
            continue ;
        }
        let fields = split(line.as_slice(), '\t' as u8);
        let ghost fvs = spec_split(line@, ('\t' as u8));
        proof {
            assert(views(fields@) == fvs);
        }
        if fields.len() < 9 {
            proof {
                assert(fvs.len() < 9);
                assert(spec_gff3_step(out0, st0, lns[i as int], fil) is None);
                lemma_fold_none_after(lns, i as int + 1, fil);
            }
            return Err(ParseError::new(msg_bad_row(i + 1)));
        }
        proof {
            assert(views(fields@)[0] == fields@[0]@);
            assert(views(fields@)[2] == fields@[2]@);
            assert(views(fields@)[3] == fields@[3]@);
            assert(views(fields@)[4] == fields@[4]@);
            assert(views(fields@)[6] == fields@[6]@);
            assert(views(fields@)[7] == fields@[7]@);
            assert(views(fields@)[8] == fields@[8]@);
        }
        if bytes_eq(&fields[2], &kw_tr) {
            let id = match get_attribute(&fields[8], &kw_i) {
                Some(v) => v,
                None => {
                    proof {
                        assert(spec_gff3_step(out0, st0, lns[i as int], fil) is None);
                        lemma_fold_none_after(lns, i as int + 1, fil);
                    }
                    return Err(ParseError::new(msg_missing_id(i + 1)));
                },
            };
            let range = match row_interval(&fields[3], &fields[4]) {
                Some(v) => v,
                None => {
                    proof {
                        assert(spec_gff3_step(out0, st0, lns[i as int], fil) is None);
                        lemma_fold_none_after(lns, i as int + 1, fil);
                    }
                    return Err(ParseError::new(msg_bad_coordinates(i + 1)));
                },
            };
            let strand = match strand_of(&fields[6]) {
                Some(v) => v,
                None => {
                    proof {
                        assert(spec_gff3_step(out0, st0, lns[i as int], fil) is None);
                        lemma_fold_none_after(lns, i as int + 1, fil);
                    }
                    return Err(ParseError::new(msg_bad_strand(i + 1)));
                },
            };
            // flush the previous transcript
            match &current {
                Some(t) => {
                    let keep = match filter_for_id {
                        Some(f) => {
                            let e = bytes_eq(f.as_slice(), t.name.as_slice());
                            proof {
                                if f@ =~= t.name@ {
                                    assert(f@ == t.name@);
                                }
                            }
                            e
                        },
                        None => true,
                    };
                    if keep {
                        let anno = SeqAnnotation {
                            name: clone_bytes(&t.name),
                            chr: clone_bytes(&t.chr),
                            range: t.range,
                            strand: t.strand,
                            exons: clone_intervals(&t.exons),
                            coding_sequences: clone_cdss(&t.coding_sequences),
                        };
                        let ghost av = anno@;
                        result.push(anno);
                        proof {
                            assert(annotation_views(result@) =~= out0.push(av));
                            assert(annotation_views(result@) =~= out0 + spec_flush(st0, fil));
                        }
                    } else {
                        proof {
                            assert(annotation_views(result@) =~= out0 + spec_flush(st0, fil));
                        }
                    }
                },
                None => {
                    proof {
                        assert(annotation_views(result@) =~= out0 + spec_flush(st0, fil));
                    }
                },
            }
            current = Some(
                OpenTranscript {
                    name: id,
                    chr: clone_bytes(&fields[0]),
                    range,
                    strand,
                    exons: Vec::new(),
                    coding_sequences: Vec::new(),
                },
            );
            proof {
                let stv = OpenTranscript::view_opt(&current);
                assert(stv->0.exons =~= Seq::<Interval>::empty());
                assert(stv->0.coding_sequences =~= Seq::<CDS>::empty());
                assert(Some((annotation_views(result@), stv)) == spec_gff3_step(
                    out0,
                    st0,
                    lns[i as int],
                    fil,
                ));
            }
        } else if bytes_eq(&fields[2], &kw_ex) {
            let t = match current {
                Some(t) => t,
                None => {
                    proof {
                        assert(spec_gff3_step(out0, st0, lns[i as int], fil) is None);
                        lemma_fold_none_after(lns, i as int + 1, fil);
                    }
                    return Err(ParseError::new(msg_not_a_tree(i + 1)));
                },
            };
            if get_attribute(&fields[8], &kw_i).is_none() {
                proof {
                    assert(spec_gff3_step(out0, st0, lns[i as int], fil) is None);
                    lemma_fold_none_after(lns, i as int + 1, fil);
                }
                return Err(ParseError::new(msg_missing_id(i + 1)));
            }
            let parent = match get_attribute(&fields[8], &kw_p) {
                Some(v) => v,
                None => {
                    proof {
                        assert(spec_gff3_step(out0, st0, lns[i as int], fil) is None);
                        lemma_fold_none_after(lns, i as int + 1, fil);
                    }
                    return Err(ParseError::new(msg_missing_parent(i + 1)));
                },
            };
            if !bytes_eq(parent.as_slice(), t.name.as_slice()) {
                proof {
                    assert(spec_gff3_step(out0, st0, lns[i as int], fil) is None);
                    lemma_fold_none_after(lns, i as int + 1, fil);
                }
                return Err(ParseError::new(msg_not_a_tree(i + 1)));
            }
            let range = match row_interval(&fields[3], &fields[4]) {
                Some(v) => v,
                None => {
                    proof {
                        assert(spec_gff3_step(out0, st0, lns[i as int], fil) is None);
                        lemma_fold_none_after(lns, i as int + 1, fil);
                    }
                    return Err(ParseError::new(msg_bad_coordinates(i + 1)));
                },
            };
            let mut t = t;
            t.exons.push(range);
            current = Some(t);
            proof {
                assert(Some((annotation_views(result@), OpenTranscript::view_opt(&current)))
                    == spec_gff3_step(out0, st0, lns[i as int], fil));
            }
        } else if bytes_eq(&fields[2], &kw_cd) {
            let t = match current {
                Some(t) => t,
                None => {
                    proof {
                        assert(spec_gff3_step(out0, st0, lns[i as int], fil) is None);
                        lemma_fold_none_after(lns, i as int + 1, fil);
                    }
                    return Err(ParseError::new(msg_not_a_tree(i + 1)));
                },
            };
            if get_attribute(&fields[8], &kw_i).is_none() {
                proof {
                    assert(spec_gff3_step(out0, st0, lns[i as int], fil) is None);
                    lemma_fold_none_after(lns, i as int + 1, fil);
                }
                return Err(ParseError::new(msg_missing_id(i + 1)));
            }
            let parent = match get_attribute(&fields[8], &kw_p) {
                Some(v) => v,
                None => {
                    proof {
                        assert(spec_gff3_step(out0, st0, lns[i as int], fil) is None);
                        lemma_fold_none_after(lns, i as int + 1, fil);
                    }
                    return Err(ParseError::new(msg_missing_parent(i + 1)));
                },
            };
            if !bytes_eq(parent.as_slice(), t.name.as_slice()) {
                proof {
                    assert(spec_gff3_step(out0, st0, lns[i as int], fil) is None);
                    lemma_fold_none_after(lns, i as int + 1, fil);
                }
                return Err(ParseError::new(msg_not_a_tree(i + 1)));
            }
            let range = match row_interval(&fields[3], &fields[4]) {
                Some(v) => v,
                None => {
                    proof {
                        assert(spec_gff3_step(out0, st0, lns[i as int], fil) is None);
                        lemma_fold_none_after(lns, i as int + 1, fil);
                    }
                    return Err(ParseError::new(msg_bad_coordinates(i + 1)));
                },
            };
            if fields[7].len() != 1 {
                proof {
                    assert(spec_gff3_step(out0, st0, lns[i as int], fil) is None);
                    lemma_fold_none_after(lns, i as int + 1, fil);
                }
                return Err(ParseError::new(msg_bad_phase(i + 1)));
            }
            let pd = fields[7][0];
            let phase = match Phase::from_digit(pd) {
                Some(p) => p,
                None => {
                    proof {
                        assert(spec_gff3_step(out0, st0, lns[i as int], fil) is None);
                        lemma_fold_none_after(lns, i as int + 1, fil);
                    }
                    return Err(ParseError::new(msg_bad_phase(i + 1)));
                },
            };
            proof {
                assert(pd == ('0' as u8) || pd == ('1' as u8) || pd == ('2' as u8));
            }
            let mut t = t;
            t.coding_sequences.push(CDS { range, phase });
            current = Some(t);
            proof {
                let stv = OpenTranscript::view_opt(&current);
                assert(stv->0.coding_sequences =~= st0->0.coding_sequences.push(
                    CDS { range, phase },
                ));
                assert(Some((annotation_views(result@), stv)) == spec_gff3_step(
                    out0,
                    st0,
                    lns[i as int],
                    fil,
                ));
            }
        } else {
            proof {
                assert(fields@[2]@ != kw_transcript());
                assert(fields@[2]@ != kw_exon());
                assert(fields@[2]@ != kw_cds());
            }
        }
        i = i + 1;
    }
    // flush the final transcript
    proof {
        assert(lns.len() == lines@.len());
    }
    let ghost out0 = annotation_views(result@);
    let ghost st0 = OpenTranscript::view_opt(&current);
    match &current {
        Some(t) => {
            let keep = match filter_for_id {
                Some(f) => {
                    let e = bytes_eq(f.as_slice(), t.name.as_slice());
                    proof {
                        if f@ =~= t.name@ {
                            assert(f@ == t.name@);
                        }
                    }
                    e
                },
                None => true,
            };
            if keep {
                let anno = SeqAnnotation {
                    name: clone_bytes(&t.name),
                    chr: clone_bytes(&t.chr),
                    range: t.range,
                    strand: t.strand,
                    exons: clone_intervals(&t.exons),
                    coding_sequences: clone_cdss(&t.coding_sequences),
                };
                let ghost av = anno@;
                result.push(anno);
                proof {
                    assert(annotation_views(result@) =~= out0.push(av));
                    assert(annotation_views(result@) =~= out0 + spec_flush(st0, fil));
                }
            } else {
                proof {
                    assert(annotation_views(result@) =~= out0 + spec_flush(st0, fil));
                }
            }
        },
        None => {
            proof {
                assert(annotation_views(result@) =~= out0 + spec_flush(st0, fil));
            }
        },
    }
    Ok(result)
}

/// Once a line rejects the file, the whole fold rejects it.
proof fn lemma_fold_none_after(lines: Seq<Seq<u8>>, j: int, fil: Option<Seq<u8>>)
    requires
        0 <= j <= lines.len(),
        spec_gff3_fold(lines, j, fil) is None,
    ensures
        spec_gff3_fold(lines, lines.len() as int, fil) is None,
    decreases lines.len() - j,
{
    if j < lines.len() {
        assert(spec_gff3_fold(lines, j + 1, fil) is None);
        lemma_fold_none_after(lines, j + 1, fil);
    }
}


/// A row with too few columns.
fn msg_bad_row(line: usize) -> (r: Vec<u8>)
    ensures
        r@.len() > 0,
{
    let mut r: Vec<u8> = Vec::new();
    r.push(('m' as u8));
    r.push(('a' as u8));
    r.push(('l' as u8));
    r.push(('f' as u8));
    r.push(('o' as u8));
    r.push(('r' as u8));
    r.push(('m' as u8));
    r.push(('e' as u8));
    r.push(('d' as u8));
    r.push((' ' as u8));
    r.push(('g' as u8));
    r.push(('f' as u8));
    r.push(('f' as u8));
    r.push(('3' as u8));
    r.push((' ' as u8));
    r.push(('r' as u8));
    r.push(('o' as u8));
    r.push(('w' as u8));
    let suffix = crate::text::line_suffix(line);
    let mut k: usize = 0;
    while k < suffix.len()
        invariant
            0 <= k <= suffix@.len(),
            r@.len() > 0,
        decreases suffix@.len() - k,
    {
        r.push(suffix[k]);
        k = k + 1;
    }
    r
}

/// A row without an ID attribute.
fn msg_missing_id(line: usize) -> (r: Vec<u8>)
    ensures
        r@.len() > 0,
{
    let mut r: Vec<u8> = Vec::new();
    r.push(('m' as u8));
    r.push(('i' as u8));
    r.push(('s' as u8));
    r.push(('s' as u8));
    r.push(('i' as u8));
    r.push(('n' as u8));
    r.push(('g' as u8));
    r.push((' ' as u8));
    r.push(('I' as u8));
    r.push(('D' as u8));
    r.push((' ' as u8));
    r.push(('a' as u8));
    r.push(('t' as u8));
    r.push(('t' as u8));
    r.push(('r' as u8));
    r.push(('i' as u8));
    r.push(('b' as u8));
    r.push(('u' as u8));
    r.push(('t' as u8));
    r.push(('e' as u8));
    let suffix = crate::text::line_suffix(line);
    let mut k: usize = 0;
    while k < suffix.len()
        invariant
            0 <= k <= suffix@.len(),
            r@.len() > 0,
        decreases suffix@.len() - k,
    {
        r.push(suffix[k]);
        k = k + 1;
    }
    r
}

/// Coordinates that are not a 1-based inclusive range.
fn msg_bad_coordinates(line: usize) -> (r: Vec<u8>)
    ensures
        r@.len() > 0,
{
    let mut r: Vec<u8> = Vec::new();
    r.push(('b' as u8));
    r.push(('a' as u8));
    r.push(('d' as u8));
    r.push((' ' as u8));
    r.push(('c' as u8));
    r.push(('o' as u8));
    r.push(('o' as u8));
    r.push(('r' as u8));
    r.push(('d' as u8));
    r.push(('i' as u8));
    r.push(('n' as u8));
    r.push(('a' as u8));
    r.push(('t' as u8));
    r.push(('e' as u8));
    r.push(('s' as u8));
    let suffix = crate::text::line_suffix(line);
    let mut k: usize = 0;
    while k < suffix.len()
        invariant
            0 <= k <= suffix@.len(),
            r@.len() > 0,
        decreases suffix@.len() - k,
    {
        r.push(suffix[k]);
        k = k + 1;
    }
    r
}

/// A strand column that is neither plus nor minus.
fn msg_bad_strand(line: usize) -> (r: Vec<u8>)
    ensures
        r@.len() > 0,
{
    let mut r: Vec<u8> = Vec::new();
    r.push(('b' as u8));
    r.push(('a' as u8));
    r.push(('d' as u8));
    r.push((' ' as u8));
    r.push(('s' as u8));
    r.push(('t' as u8));
    r.push(('r' as u8));
    r.push(('a' as u8));
    r.push(('n' as u8));
    r.push(('d' as u8));
    let suffix = crate::text::line_suffix(line);
    let mut k: usize = 0;
    while k < suffix.len()
        invariant
            0 <= k <= suffix@.len(),
            r@.len() > 0,
        decreases suffix@.len() - k,
    {
        r.push(suffix[k]);
        k = k + 1;
    }
    r
}

/// A child row that does not name the open transcript.
fn msg_not_a_tree(line: usize) -> (r: Vec<u8>)
    ensures
        r@.len() > 0,
{
    let mut r: Vec<u8> = Vec::new();
    r.push(('n' as u8));
    r.push(('o' as u8));
    r.push(('t' as u8));
    r.push((' ' as u8));
    r.push(('a' as u8));
    r.push(('n' as u8));
    r.push((' ' as u8));
    r.push(('o' as u8));
    r.push(('r' as u8));
    r.push(('d' as u8));
    r.push(('e' as u8));
    r.push(('r' as u8));
    r.push(('e' as u8));
    r.push(('d' as u8));
    r.push((' ' as u8));
    r.push(('t' as u8));
    r.push(('r' as u8));
    r.push(('e' as u8));
    r.push(('e' as u8));
    r.push((' ' as u8));
    r.push(('s' as u8));
    r.push(('t' as u8));
    r.push(('r' as u8));
    r.push(('u' as u8));
    r.push(('c' as u8));
    r.push(('t' as u8));
    r.push(('u' as u8));
    r.push(('r' as u8));
    r.push(('e' as u8));
    let suffix = crate::text::line_suffix(line);
    let mut k: usize = 0;
    while k < suffix.len()
        invariant
            0 <= k <= suffix@.len(),
            r@.len() > 0,
        decreases suffix@.len() - k,
    {
        r.push(suffix[k]);
        k = k + 1;
    }
    r
}

/// A child row without a Parent attribute.
fn msg_missing_parent(line: usize) -> (r: Vec<u8>)
    ensures
        r@.len() > 0,
{
    let mut r: Vec<u8> = Vec::new();
    r.push(('m' as u8));
    r.push(('i' as u8));
    r.push(('s' as u8));
    r.push(('s' as u8));
    r.push(('i' as u8));
    r.push(('n' as u8));
    r.push(('g' as u8));
    r.push((' ' as u8));
    r.push(('P' as u8));
    r.push(('a' as u8));
    r.push(('r' as u8));
    r.push(('e' as u8));
    r.push(('n' as u8));
    r.push(('t' as u8));
    r.push((' ' as u8));
    r.push(('a' as u8));
    r.push(('t' as u8));
    r.push(('t' as u8));
    r.push(('r' as u8));
    r.push(('i' as u8));
    r.push(('b' as u8));
    r.push(('u' as u8));
    r.push(('t' as u8));
    r.push(('e' as u8));
    let suffix = crate::text::line_suffix(line);
    let mut k: usize = 0;
    while k < suffix.len()
        invariant
            0 <= k <= suffix@.len(),
            r@.len() > 0,
        decreases suffix@.len() - k,
    {
        r.push(suffix[k]);
        k = k + 1;
    }
    r
}

/// A coding row whose phase is not a digit from zero to two.
fn msg_bad_phase(line: usize) -> (r: Vec<u8>)
    ensures
        r@.len() > 0,
{
    let mut r: Vec<u8> = Vec::new();
    r.push(('b' as u8));
    r.push(('a' as u8));
    r.push(('d' as u8));
    r.push((' ' as u8));
    r.push(('p' as u8));
    r.push(('h' as u8));
    r.push(('a' as u8));
    r.push(('s' as u8));
    r.push(('e' as u8));
    let suffix = crate::text::line_suffix(line);
    let mut k: usize = 0;
    while k < suffix.len()
        invariant
            0 <= k <= suffix@.len(),
            r@.len() > 0,
        decreases suffix@.len() - k,
    {
        r.push(suffix[k]);
        k = k + 1;
    }
    r
}

/// Copy a list of intervals.
fn clone_intervals(v: &Vec<Interval>) -> (r: Vec<Interval>)
    ensures
        r@ == v@,
{
    let mut r: Vec<Interval> = Vec::new();
    let mut i: usize = 0;
    while i < v.len()
        invariant
            0 <= i <= v@.len(),
            r@ == v@.take(i as int),
        decreases v@.len() - i,
    {
        r.push(v[i]);
        proof {
            assert(r@ =~= v@.take(i as int + 1));
        }
        i = i + 1;
    }
    proof {
        assert(v@.take(v@.len() as int) =~= v@);
    }
    r
}

/// Copy a list of coding segments.
fn clone_cdss(v: &Vec<CDS>) -> (r: Vec<CDS>)
    ensures
        r@ == v@,
{
    let mut r: Vec<CDS> = Vec::new();
    let mut i: usize = 0;
    while i < v.len()
        invariant
            0 <= i <= v@.len(),
            r@ == v@.take(i as int),
        decreases v@.len() - i,
    {
        r.push(v[i]);
        proof {
            assert(r@ =~= v@.take(i as int + 1));
        }
        i = i + 1;
    }
    proof {
        assert(v@.take(v@.len() as int) =~= v@);
    }
    r
}

} // verus!
