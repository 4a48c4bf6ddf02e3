//! Observed variants and their classification against transcripts.

use vstd::prelude::*;

use crate::annotation::SeqAnnotation;
use crate::classify::{classify_indel, classify_point, spec_classify_indel, spec_classify_point, FLANK};
use crate::mutation_type::MutationType;
use crate::text::bytes_eq;

verus! {

/// What an observed variant changes: a single-base substitution, or an
/// indel whose two sides share an anchor base.
#[derive(Debug, Clone, PartialEq)]
pub enum Change {
    PointMutation(u8, u8),
    Indel(Vec<u8>, Vec<u8>),
}

/// Mathematical image of a `Change`.
pub enum ChangeView {
    PointMutation(u8, u8),
    Indel(Seq<u8>, Seq<u8>),
}

impl View for Change {
    type V = ChangeView;

    open spec fn view(&self) -> ChangeView {
        match self {
            Change::PointMutation(f, t) => ChangeView::PointMutation(*f, *t),
            Change::Indel(f, t) => ChangeView::Indel(f@, t@),
        }
    }
}

impl ChangeView {
    /// Both sides of an indel carry at least the anchor base.
    pub open spec fn wf(self) -> bool {
        match self {
            ChangeView::PointMutation(_, _) => true,
            ChangeView::Indel(f, t) => f.len() >= 1 && t.len() >= 1,
        }
    }

    /// An indel shifts the reading frame exactly when its net length is
    /// not a multiple of three.
    pub open spec fn spec_is_frameshift(self) -> bool {
        match self {
            ChangeView::PointMutation(_, _) => false,
            ChangeView::Indel(f, t) => (t.len() - f.len()) % 3 != 0,
        }
    }
}

/// Negating an integer preserves divisibility by three.
proof fn lemma_neg_mod_3(d: int)
    requires
        d >= 0,
    ensures
        ((0 - d) % 3 == 0) <==> (d % 3 == 0),
{
    vstd::arithmetic::div_mod::lemma_fundamental_div_mod(d, 3);
    vstd::arithmetic::div_mod::lemma_mod_bound(d, 3);
    let q = d / 3;
    let r = d % 3;
    if r == 0 {
        vstd::arithmetic::div_mod::lemma_fundamental_div_mod_converse(0 - d, 3, 0 - q, 0);
    } else {
        vstd::arithmetic::div_mod::lemma_fundamental_div_mod_converse(0 - d, 3, 0 - q - 1, 3 - r);
    }
}

impl Change {
    pub fn is_frameshift(&self) -> (r: bool)
        ensures
            r == self@.spec_is_frameshift(),
    {
        match self {
            Change::PointMutation(_, _) => false,
            Change::Indel(f, t) => {
                let diff = if t.len() >= f.len() {
                    t.len() - f.len()
                } else {
                    f.len() - t.len()
                };
                proof {
                    if t@.len() < f@.len() {
                        lemma_neg_mod_3(f@.len() - t@.len());
                    }
                }
                diff % 3 != 0
            },
        }
    }
}

/// An observed variant: where it lies, what it changes, and (after
/// classification) its consequence class and region.
#[derive(Debug, Clone, PartialEq)]
pub struct Mutation {
    pub region: Option<Vec<u8>>,
    pub chromosome: Vec<u8>,
    pub position: usize,
    pub mutation_type: MutationType,
    pub change: Change,
}

/// Mathematical image of a `Mutation`.
pub struct MutationView {
    pub region: Option<Seq<u8>>,
    pub chromosome: Seq<u8>,
    pub position: int,
    pub mutation_type: MutationType,
    pub change: ChangeView,
}

impl View for Mutation {
    type V = MutationView;

    open spec fn view(&self) -> MutationView {
        MutationView {
            region: match &self.region {
                Some(r) => Some(r@),
                None => None,
            },
            chromosome: self.chromosome@,
            position: self.position as int,
            mutation_type: self.mutation_type,
            change: self.change@,
        }
    }
}

impl Mutation {
    /// A point mutation when both sides are single bases, an indel
    /// otherwise; both sides must be nonempty (the anchor base).
    pub fn new(
        region: Option<Vec<u8>>,
        chromosome: Vec<u8>,
        position: usize,
        from: Vec<u8>,
        to: Vec<u8>,
    ) -> (r: Mutation)
        requires
            from@.len() >= 1,
            to@.len() >= 1,
        ensures
            r@.region == match region {
                Some(v) => Some(v@),
                None => None::<Seq<u8>>,
            },
            r@.chromosome == chromosome@,
            r@.position == position as int,
            r@.mutation_type == MutationType::Unknown,
            r@.change == if from@.len() == 1 && to@.len() == 1 {
                ChangeView::PointMutation(from@[0], to@[0])
            } else {
                ChangeView::Indel(from@, to@)
            },
            r@.change.wf(),
    {
        let change = if from.len() == 1 && to.len() == 1 {
            Change::PointMutation(from[0], to[0])
        } else {
            Change::Indel(from, to)
        };
        Mutation { region, chromosome, position, change, mutation_type: MutationType::Unknown }
    }

    /// The reference base at the variant's position (the anchor base of
    /// an indel).
    pub fn ref_base(&self) -> (r: u8)
        requires
            self@.change.wf(),
        ensures
            r == self@.spec_ref_base(),
    {
        match &self.change {
            Change::PointMutation(n, _) => *n,
            Change::Indel(from, _) => from[0],
        }
    }

    /// The alternative base of a point mutation.
    pub fn alt_base(&self) -> (r: Option<u8>)
        ensures
            r == self@.spec_alt_base(),
    {
        if let Change::PointMutation(_, to) = &self.change {
            Some(*to)
        } else {
            None
        }
    }
}

impl MutationView {
    pub open spec fn spec_ref_base(self) -> u8 {
        match self.change {
            ChangeView::PointMutation(n, _) => n,
            ChangeView::Indel(f, _) => f[0],
        }
    }

    pub open spec fn spec_alt_base(self) -> Option<u8> {
        match self.change {
            ChangeView::PointMutation(_, t) => Some(t),
            ChangeView::Indel(_, _) => None,
        }
    }
}

/// Whether a region name passes the optional region-id filter.
pub open spec fn spec_passes_filter(filter: Option<Seq<u8>>, name: Seq<u8>) -> bool {
    match filter {
        Some(f) => f == name,
        None => true,
    }
}

/// A variant concerns an annotation when it lies on its chromosome inside
/// its range.
pub open spec fn spec_relevant(anno: SeqAnnotation, m: MutationView) -> bool {
    m.chromosome == anno.chr@ && anno.range.spec_contains(m.position)
}

/// The reference sequence agrees with a variant's stated reference base:
/// the base at the variant's position (offset by the flank) is the
/// variant's reference (the anchor base of an indel).
pub open spec fn spec_matches_reference(anno: SeqAnnotation, seq: Seq<u8>, m: MutationView) -> bool {
    m.change.wf() ==> seq[m.position - anno.range.start + FLANK] == m.spec_ref_base()
}

/// The classified copy of one relevant variant.
pub open spec fn spec_classify_one(anno: SeqAnnotation, seq: Seq<u8>, m: MutationView)
    -> MutationView {
    MutationView {
        region: Some(anno.name@),
        mutation_type: match m.change {
            ChangeView::PointMutation(_, to) => spec_classify_point(anno, seq, m.position, to),
            ChangeView::Indel(_, _) => spec_classify_indel(
                anno,
                m.position,
                m.change.spec_is_frameshift(),
            ),
        },
        ..m
    }
}

/// All variants relevant to one annotation, classified, in input order.
pub open spec fn spec_classify_region(
    anno: SeqAnnotation,
    seq: Seq<u8>,
    ms: Seq<MutationView>,
) -> Seq<MutationView>
    decreases ms.len(),
{
    if ms.len() == 0 {
        Seq::empty()
    } else {
        let rest = spec_classify_region(anno, seq, ms.skip(1));
        if spec_relevant(anno, ms[0]) {
            seq![spec_classify_one(anno, seq, ms[0])] + rest
        } else {
            rest
        }
    }
}

/// The classified variants of every annotation passing the filter, in
/// annotation order.
pub open spec fn spec_classify_all(
    annos: Seq<SeqAnnotation>,
    seqs: Seq<Seq<u8>>,
    ms: Seq<MutationView>,
    filter: Option<Seq<u8>>,
) -> Seq<MutationView>
    decreases annos.len(),
{
    if annos.len() == 0 {
        Seq::empty()
    } else {
        let head = if spec_passes_filter(filter, annos[0].name@) {
            spec_classify_region(annos[0], seqs[0], ms)
        } else {
            Seq::empty()
        };
        head + spec_classify_all(annos.skip(1), seqs.skip(1), ms, filter)
    }
}

proof fn lemma_classify_region_push(
    anno: SeqAnnotation,
    seq: Seq<u8>,
    ms: Seq<MutationView>,
    m: MutationView,
)
    ensures
        spec_classify_region(anno, seq, ms.push(m)) == spec_classify_region(anno, seq, ms) + if
            spec_relevant(anno, m) {
            seq![spec_classify_one(anno, seq, m)]
        } else {
            Seq::<MutationView>::empty()
        },
    decreases ms.len(),
{
    let tail = if spec_relevant(anno, m) {
        seq![spec_classify_one(anno, seq, m)]
    } else {
        Seq::<MutationView>::empty()
    };
    if ms.len() == 0 {
        assert(ms.push(m).skip(1) =~= ms);
        assert(ms.push(m)[0] == m);
        assert(spec_classify_region(anno, seq, ms) == Seq::<MutationView>::empty());
        assert(spec_classify_region(anno, seq, ms.push(m)) == if spec_relevant(anno, m) {
            seq![spec_classify_one(anno, seq, m)] + spec_classify_region(anno, seq, ms)
        } else {
            spec_classify_region(anno, seq, ms)
        });
        assert(spec_classify_region(anno, seq, ms.push(m)) =~= spec_classify_region(anno, seq, ms)
            + tail);
    } else {
        lemma_classify_region_push(anno, seq, ms.skip(1), m);
        assert(ms.push(m).skip(1) =~= ms.skip(1).push(m));
        assert(ms.push(m)[0] == ms[0]);
        assert(spec_classify_region(anno, seq, ms.push(m).skip(1)) == spec_classify_region(
            anno,
            seq,
            ms.skip(1),
        ) + tail);
        if spec_relevant(anno, ms[0]) {
            assert(spec_classify_region(anno, seq, ms.push(m)) == seq![
                spec_classify_one(anno, seq, ms[0]),
            ] + (spec_classify_region(anno, seq, ms.skip(1)) + tail));
            assert(spec_classify_region(anno, seq, ms) == seq![
                spec_classify_one(anno, seq, ms[0]),
            ] + spec_classify_region(anno, seq, ms.skip(1)));
        } else {
            assert(spec_classify_region(anno, seq, ms.push(m)) == spec_classify_region(
                anno,
                seq,
                ms.skip(1),
            ) + tail);
            assert(spec_classify_region(anno, seq, ms) == spec_classify_region(
                anno,
                seq,
                ms.skip(1),
            ));
        }
        assert(spec_classify_region(anno, seq, ms.push(m)) =~= spec_classify_region(anno, seq, ms)
            + tail);
    }
}

proof fn lemma_classify_all_push(
    annos: Seq<SeqAnnotation>,
    seqs: Seq<Seq<u8>>,
    ms: Seq<MutationView>,
    filter: Option<Seq<u8>>,
    a: SeqAnnotation,
    sq: Seq<u8>,
)
    requires
        annos.len() == seqs.len(),
    ensures
        spec_classify_all(annos.push(a), seqs.push(sq), ms, filter) == spec_classify_all(
            annos,
            seqs,
            ms,
            filter,
        ) + if spec_passes_filter(filter, a.name@) {
            spec_classify_region(a, sq, ms)
        } else {
            Seq::<MutationView>::empty()
        },
    decreases annos.len(),
{
    let tail = if spec_passes_filter(filter, a.name@) {
        spec_classify_region(a, sq, ms)
    } else {
        Seq::<MutationView>::empty()
    };
    if annos.len() == 0 {
        assert(annos.push(a).skip(1) =~= annos);
        assert(seqs.push(sq).skip(1) =~= seqs);
        assert(annos.push(a)[0] == a);
        assert(seqs.push(sq)[0] == sq);
        assert(spec_classify_all(annos, seqs, ms, filter) == Seq::<MutationView>::empty());
        assert(spec_classify_all(annos.push(a), seqs.push(sq), ms, filter) == tail
            + spec_classify_all(annos, seqs, ms, filter));
        assert(spec_classify_all(annos.push(a), seqs.push(sq), ms, filter) =~= spec_classify_all(
            annos,
            seqs,
            ms,
            filter,
        ) + tail);
    } else {
        lemma_classify_all_push(annos.skip(1), seqs.skip(1), ms, filter, a, sq);
        assert(annos.push(a).skip(1) =~= annos.skip(1).push(a));
        assert(seqs.push(sq).skip(1) =~= seqs.skip(1).push(sq));
        assert(annos.push(a)[0] == annos[0]);
        assert(seqs.push(sq)[0] == seqs[0]);
        let head = if spec_passes_filter(filter, annos[0].name@) {
            spec_classify_region(annos[0], seqs[0], ms)
        } else {
            Seq::<MutationView>::empty()
        };
        assert(spec_classify_all(annos.push(a), seqs.push(sq), ms, filter) == head
            + spec_classify_all(annos.skip(1).push(a), seqs.skip(1).push(sq), ms, filter));
        assert(spec_classify_all(annos.skip(1).push(a), seqs.skip(1).push(sq), ms, filter)
            == spec_classify_all(annos.skip(1), seqs.skip(1), ms, filter) + tail);
        assert(spec_classify_all(annos, seqs, ms, filter) == head + spec_classify_all(
            annos.skip(1),
            seqs.skip(1),
            ms,
            filter,
        ));
        assert(spec_classify_all(annos.push(a), seqs.push(sq), ms, filter) =~= spec_classify_all(
            annos,
            seqs,
            ms,
            filter,
        ) + tail);
    }
}

/// The views of a vector of mutations.
pub open spec fn mutation_views(v: Seq<Mutation>) -> Seq<MutationView> {
    v.map_values(|m: Mutation| m@)
}

/// The views of a vector of byte strings, as sequence contexts.
pub open spec fn seq_views(v: Seq<Vec<u8>>) -> Seq<Seq<u8>> {
    v.map_values(|s: Vec<u8>| s@)
}

pub open spec fn filter_view(f: Option<&Vec<u8>>) -> Option<Seq<u8>> {
    match f {
        Some(v) => Some(v@),
        None => None,
    }
}

/// Classify every observed variant against every annotation whose range
/// holds it. For each annotation passing the filter, `sequences[i]` must
/// hold the reference bases of `annotations[i]`'s range widened by
/// `FLANK` on each side and agree with each relevant variant's stated
/// reference base; the sequences of filtered-out annotations are never
/// read.
pub fn classify_mutations(
    observed_mutations: &Vec<Mutation>,
    annotations: &Vec<SeqAnnotation>,
    sequences: &Vec<Vec<u8>>,
    filter_for_id: Option<&Vec<u8>>,
) -> (r: Vec<Mutation>)
    requires
        annotations@.len() == sequences@.len(),
        forall|i: int|
            0 <= i < annotations@.len() && spec_passes_filter(
                filter_view(filter_for_id),
                annotations@[i].name@,
            ) ==> (#[trigger] sequences@[i])@.len() == annotations@[i].range.spec_len() + 2
                * FLANK,
        forall|i: int, j: int|
            0 <= i < annotations@.len() && 0 <= j < observed_mutations@.len()
                && spec_passes_filter(filter_view(filter_for_id), annotations@[i].name@)
                && spec_relevant(annotations@[i], #[trigger] observed_mutations@[j]@)
                ==> spec_matches_reference(
                annotations@[i],
                (#[trigger] sequences@[i])@,
                observed_mutations@[j]@,
            ),
    ensures
        mutation_views(r@) == spec_classify_all(
            annotations@,
            seq_views(sequences@),
            mutation_views(observed_mutations@),
            filter_view(filter_for_id),
        ),
{
    let mut result: Vec<Mutation> = Vec::new();
    let ghost ms = mutation_views(observed_mutations@);
    let ghost fil = filter_view(filter_for_id);
    let mut a: usize = 0;
    proof {
        assert(annotations@.take(0) =~= Seq::<SeqAnnotation>::empty());
        assert(seq_views(sequences@).take(0) =~= Seq::<Seq<u8>>::empty());
        assert(mutation_views(result@) =~= Seq::<MutationView>::empty());
    }
    while a < annotations.len()
        invariant
            0 <= a <= annotations@.len(),
            annotations@.len() == sequences@.len(),
            forall|i: int|
                0 <= i < annotations@.len() && spec_passes_filter(fil, annotations@[i].name@)
                    ==> (#[trigger] sequences@[i])@.len() == annotations@[i].range.spec_len() + 2
                    * FLANK,
            ms == mutation_views(observed_mutations@),
            fil == filter_view(filter_for_id),
            mutation_views(result@) == spec_classify_all(
                annotations@.take(a as int),
                seq_views(sequences@).take(a as int),
                ms,
                fil,
            ),
        decreases annotations@.len() - a,
    {
        let anno = &annotations[a];
        let keep = match filter_for_id {
            Some(f) => {
                let e = bytes_eq(f.as_slice(), anno.name.as_slice());
                proof {
                    if f@ =~= anno.name@ {
                        assert(f@ == anno.name@);
                    }
                }
                e
            },
            None => true,
        };
        let ghost prev = mutation_views(result@);
        if keep {
            proof {
                assert(spec_passes_filter(fil, anno.name@));
            }
            let seq = &sequences[a];
            let mut j: usize = 0;
            proof {
                assert(ms.take(0) =~= Seq::<MutationView>::empty());
                assert(spec_classify_region(*anno, seq@, ms.take(0)) =~= Seq::<
                    MutationView,
                >::empty());
            }
            while j < observed_mutations.len()
                invariant
                    0 <= j <= observed_mutations@.len(),
                    ms == mutation_views(observed_mutations@),
                    anno == &annotations@[a as int],
                    seq == &sequences@[a as int],
                    0 <= a < annotations@.len(),
                    annotations@.len() == sequences@.len(),
                    seq@.len() == anno.range.spec_len() + 2 * FLANK,
                    mutation_views(result@) == prev + spec_classify_region(
                        *anno,
                        seq@,
                        ms.take(j as int),
                    ),
                decreases observed_mutations@.len() - j,
            {
                let m = &observed_mutations[j];
                proof {
                    assert(ms[j as int] == m@);
                    assert(ms.take(j as int).push(m@) =~= ms.take(j as int + 1));
                    lemma_classify_region_push(*anno, seq@, ms.take(j as int), m@);
                }
                let relevant = bytes_eq(m.chromosome.as_slice(), anno.chr.as_slice())
                    && anno.range.contains(m.position);
                if relevant {
                    let mutation_type = match &m.change {
                        Change::PointMutation(_, to) => {
                            let alt = *to;
                            classify_point(anno, seq.as_slice(), m.position, alt)
                        },
                        Change::Indel(_, _) => {
                            let fs = m.change.is_frameshift();
                            if m.position < usize::MAX {
                                classify_indel(anno, m.position, fs)
                            } else {
                                // no coding segment can contain a position
                                // beyond the address space, so the span past
                                // the anchor is never coding here
                                proof {
                                    lemma_find_cds_none_beyond(
                                        anno.coding_sequences@,
                                        m.position + 1,
                                    );
                                }
                                MutationType::Intronic
                            }
                        },
                    };
                    let cl = Mutation {
                        region: Some(clone_bytes(&anno.name)),
                        chromosome: clone_bytes(&m.chromosome),
                        position: m.position,
                        mutation_type,
                        change: clone_change(&m.change),
                    };
                    let ghost rv = mutation_views(result@);
                    let ghost clv = cl@;
                    result.push(cl);
                    proof {
                        assert(clv == spec_classify_one(*anno, seq@, m@));
                        assert(mutation_views(result@) =~= rv.push(clv));
                        assert(spec_classify_region(*anno, seq@, ms.take(j as int + 1))
                            == spec_classify_region(*anno, seq@, ms.take(j as int)) + seq![
                            spec_classify_one(*anno, seq@, m@),
                        ]);
                        assert(rv.push(clv) =~= prev + spec_classify_region(
                            *anno,
                            seq@,
                            ms.take(j as int + 1),
                        ));
                    }
                } else {
                    proof {
                        assert(mutation_views(result@) =~= prev + spec_classify_region(
                            *anno,
                            seq@,
                            ms.take(j as int + 1),
                        ));
                    }
                }
                j = j + 1;
            }
            proof {
                assert(ms.take(observed_mutations@.len() as int) =~= ms);
            }
        }
        proof {
            lemma_classify_all_push(
                annotations@.take(a as int),
                seq_views(sequences@).take(a as int),
                ms,
                fil,
                annotations@[a as int],
                seq_views(sequences@)[a as int],
            );
            assert(annotations@.take(a as int).push(annotations@[a as int]) =~= annotations@.take(
                a as int + 1,
            ));
            assert(seq_views(sequences@).take(a as int).push(seq_views(sequences@)[a as int])
                =~= seq_views(sequences@).take(a as int + 1));
            assert(mutation_views(result@) =~= spec_classify_all(
                annotations@.take(a as int + 1),
                seq_views(sequences@).take(a as int + 1),
                ms,
                fil,
            ));
        }
        a = a + 1;
    }
    proof {
        assert(annotations@.take(annotations@.len() as int) =~= annotations@);
        assert(seq_views(sequences@).take(annotations@.len() as int) =~= seq_views(sequences@));
    }
    result
}

/// A position beyond every coding segment's end is in none of them.
proof fn lemma_find_cds_none_beyond(cdss: Seq<crate::interval::CDS>, position: int)
    requires
        position > usize::MAX,
    ensures
        crate::annotation::spec_find_cds(cdss, position) is None,
    decreases cdss.len(),
{
    if cdss.len() > 0 {
        assert(cdss[0].range.stop <= usize::MAX);
        lemma_find_cds_none_beyond(cdss.skip(1), position);
    }
}

/// Copy a change.
pub fn clone_change(c: &Change) -> (r: Change)
    ensures
        r@ == c@,
{
    match c {
        Change::PointMutation(f, t) => Change::PointMutation(*f, *t),
        Change::Indel(f, t) => Change::Indel(clone_bytes(f), clone_bytes(t)),
    }
}

/// Copy a byte string.
pub fn clone_bytes(v: &Vec<u8>) -> (r: Vec<u8>)
    ensures
        r@ == v@,
{
    let mut r: Vec<u8> = Vec::new();
    let mut i: usize = 0;
    while i < v.len()
        invariant
            0 <= i <= v@.len(),
            r@ == v@.take(i as int),
        decreases v@.len() - i,
    {
        r.push(v[i]);
        proof {
            assert(r@ =~= v@.take(i as int + 1));
        }
        i = i + 1;
    }
    proof {
        assert(v@.take(v@.len() as int) =~= v@);
    }
    r
}

} // verus!
