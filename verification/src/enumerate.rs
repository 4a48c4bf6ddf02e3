//! Enumerate every possible point mutation of each region, with its
//! consequence class and scaled probability.

use vstd::prelude::*;

use crate::annotation::SeqAnnotation;
use crate::classify::{classify_point, spec_classify_point, FLANK};
use crate::mutation_type::MutationType;
use crate::observed::{filter_view, spec_passes_filter};


verus! {

/// One possible mutation: its consequence class and its probability in
/// units of `1 / FRAC_UNIT`.
#[derive(Clone, Copy, Debug, PartialEq, Eq, Structural)]
pub struct MutationEvent {
    pub mutation_type: MutationType,
    pub probability: u64,
}

impl MutationEvent {
    pub fn new(mutation_type: MutationType, probability: u64) -> (r: MutationEvent)
        ensures
            r.mutation_type == mutation_type,
            r.probability == probability,
    {
        MutationEvent { mutation_type, probability }
    }
}

/// The oracle's probabilities for substituting one site by each base;
/// `None` stands for an answer that is not a number.
#[derive(Clone, Copy, Debug, PartialEq, Eq, Structural)]
pub struct SiteRates {
    pub to_a: Option<u64>,
    pub to_c: Option<u64>,
    pub to_g: Option<u64>,
    pub to_t: Option<u64>,
}

/// Per-region input to the enumerator: the reference bases of the
/// region's range widened by `FLANK` on each side, and the oracle's rates
/// for every position of the range. `None` marks a region whose data
/// could not be fetched; it is skipped.
pub struct RegionInput {
    pub seq: Vec<u8>,
    pub rates: Vec<SiteRates>,
}

/// All possible mutations of one region, in enumeration order.
#[derive(Debug, Clone, PartialEq)]
pub struct RegionEvents {
    pub region: Vec<u8>,
    pub events: Vec<MutationEvent>,
}

/// Mathematical image of `RegionEvents`.
pub struct RegionEventsView {
    pub region: Seq<u8>,
    pub events: Seq<MutationEvent>,
}

impl View for RegionEvents {
    type V = RegionEventsView;

    open spec fn view(&self) -> RegionEventsView {
        RegionEventsView { region: self.region@, events: self.events@ }
    }
}

/// Mapping from region name to its possible mutations.
pub type PossibleMutations = Vec<RegionEvents>;

pub open spec fn region_views(v: Seq<RegionEvents>) -> Seq<RegionEventsView> {
    v.map_values(|r: RegionEvents| r@)
}

pub open spec fn spec_rate_for(r: SiteRates, b: u8) -> Option<u64> {
    if b == ('A' as u8) {
        r.to_a
    } else if b == ('C' as u8) {
        r.to_c
    } else if b == ('G' as u8) {
        r.to_g
    } else {
        r.to_t
    }
}

/// A probability multiplied by the scaling ratio `num / den`, truncated,
/// saturating at the largest representable probability.
pub open spec fn spec_scale(p: u64, num: u64, den: u64) -> u64 {
    let v = (p * num) / (den as int);
    if v <= u64::MAX {
        v as u64
    } else {
        u64::MAX
    }
}

pub fn scale_probability(p: u64, num: u64, den: u64) -> (r: u64)
    requires
        den > 0,
    ensures
        r == spec_scale(p, num, den),
{
    proof {
        vstd::arithmetic::mul::lemma_mul_upper_bound(
            p as int,
            u64::MAX as int,
            num as int,
            u64::MAX as int,
        );
    }
    let v = (p as u128) * (num as u128) / (den as u128);
    proof {
        vstd::arithmetic::mul::lemma_mul_nonnegative(p as int, num as int);
        vstd::arithmetic::div_mod::lemma_div_is_ordered_by_denominator(
            (p as int) * (num as int),
            1,
            den as int,
        );
        vstd::arithmetic::div_mod::lemma_div_basics((p as int) * (num as int));
    }
    if v <= u64::MAX as u128 {
        v as u64
    } else {
        u64::MAX
    }
}

/// The events one alternative base contributes at one site: nothing when
/// it equals the reference base; an unknown event of probability zero (or
/// nothing, when dropping them) when the oracle has no number; otherwise
/// one classified event with the scaled probability.
#[verifier::opaque]
pub open spec fn spec_alt_events(
    anno: SeqAnnotation,
    seq: Seq<u8>,
    position: int,
    alt: u8,
    rate: Option<u64>,
    num: u64,
    den: u64,
    drop_nan: bool,
) -> Seq<MutationEvent> {
    let ref_base = seq[position - anno.range.start + FLANK];
    if alt == ref_base {
        Seq::empty()
    } else {
        match rate {
            None => {
                if drop_nan {
                    Seq::empty()
                } else {
                    seq![
                        MutationEvent {
                            mutation_type: MutationType::Unknown,
                            probability: 0,
                        },
                    ]
                }
            },
            Some(p) => {
                seq![
                    MutationEvent {
                        mutation_type: spec_classify_point(anno, seq, position, alt),
                        probability: spec_scale(p, num, den),
                    },
                ]
            },
        }
    }
}

/// The events of one site, alternatives in alphabetical base order.
pub open spec fn spec_site_events(
    anno: SeqAnnotation,
    seq: Seq<u8>,
    position: int,
    rates: SiteRates,
    num: u64,
    den: u64,
    drop_nan: bool,
) -> Seq<MutationEvent> {
    spec_alt_events(anno, seq, position, ('A' as u8), rates.to_a, num, den, drop_nan)
        + spec_alt_events(anno, seq, position, ('C' as u8), rates.to_c, num, den, drop_nan)
        + spec_alt_events(anno, seq, position, ('G' as u8), rates.to_g, num, den, drop_nan)
        + spec_alt_events(anno, seq, position, ('T' as u8), rates.to_t, num, den, drop_nan)
}

/// The events of the first `i` positions of the region.
pub open spec fn spec_region_events(
    anno: SeqAnnotation,
    seq: Seq<u8>,
    rates: Seq<SiteRates>,
    i: int,
    num: u64,
    den: u64,
    drop_nan: bool,
) -> Seq<MutationEvent>
    decreases i,
{
    if i <= 0 {
        Seq::empty()
    } else {
        spec_region_events(anno, seq, rates, i - 1, num, den, drop_nan) + spec_site_events(
            anno,
            seq,
            anno.range.start + i - 1,
            rates[i - 1],
            num,
            den,
            drop_nan,
        )
    }
}

/// The enumerated regions, one entry per annotation that passes the
/// filter and whose input data is present.
pub open spec fn spec_enumerate(
    annos: Seq<SeqAnnotation>,
    inputs: Seq<Option<(Seq<u8>, Seq<SiteRates>)>>,
    num: u64,
    den: u64,
    drop_nan: bool,
    filter: Option<Seq<u8>>,
) -> Seq<RegionEventsView>
    decreases annos.len(),
{
    if annos.len() == 0 {
        Seq::empty()
    } else {
        let head = if spec_passes_filter(filter, annos[0].name@) && inputs[0] is Some {
            seq![
                RegionEventsView {
                    region: annos[0].name@,
                    events: spec_region_events(
                        annos[0],
                        (inputs[0]->0).0,
                        (inputs[0]->0).1,
                        annos[0].range.spec_len(),
                        num,
                        den,
                        drop_nan,
                    ),
                },
            ]
        } else {
            Seq::empty()
        };
        head + spec_enumerate(annos.skip(1), inputs.skip(1), num, den, drop_nan, filter)
    }
}

proof fn lemma_enumerate_push(
    annos: Seq<SeqAnnotation>,
    inputs: Seq<Option<(Seq<u8>, Seq<SiteRates>)>>,
    num: u64,
    den: u64,
    drop_nan: bool,
    filter: Option<Seq<u8>>,
    a: SeqAnnotation,
    input: Option<(Seq<u8>, Seq<SiteRates>)>,
)
    requires
        annos.len() == inputs.len(),
    ensures
        spec_enumerate(annos.push(a), inputs.push(input), num, den, drop_nan, filter)
            == spec_enumerate(annos, inputs, num, den, drop_nan, filter) + if spec_passes_filter(
            filter,
            a.name@,
        ) && input is Some {
            seq![
                RegionEventsView {
                    region: a.name@,
                    events: spec_region_events(
                        a,
                        (input->0).0,
                        (input->0).1,
                        a.range.spec_len(),
                        num,
                        den,
                        drop_nan,
                    ),
                },
            ]
        } else {
            Seq::<RegionEventsView>::empty()
        },
    decreases annos.len(),
{
    let tail = if spec_passes_filter(filter, a.name@) && input is Some {
        seq![
            RegionEventsView {
                region: a.name@,
                events: spec_region_events(
                    a,
                    (input->0).0,
                    (input->0).1,
                    a.range.spec_len(),
                    num,
                    den,
                    drop_nan,
                ),
            },
        ]
    } else {
        Seq::<RegionEventsView>::empty()
    };
    if annos.len() == 0 {
        assert(annos.push(a).skip(1) =~= annos);
        assert(inputs.push(input).skip(1) =~= inputs);
        assert(annos.push(a)[0] == a);
        assert(inputs.push(input)[0] == input);
        assert(spec_enumerate(annos, inputs, num, den, drop_nan, filter) == Seq::<
            RegionEventsView,
        >::empty());
        assert(spec_enumerate(annos.push(a), inputs.push(input), num, den, drop_nan, filter)
            =~= spec_enumerate(annos, inputs, num, den, drop_nan, filter) + tail);
    } else {
        lemma_enumerate_push(annos.skip(1), inputs.skip(1), num, den, drop_nan, filter, a, input);
        assert(annos.push(a).skip(1) =~= annos.skip(1).push(a));
        assert(inputs.push(input).skip(1) =~= inputs.skip(1).push(input));
        assert(annos.push(a)[0] == annos[0]);
        assert(inputs.push(input)[0] == inputs[0]);
        assert(spec_enumerate(annos.push(a), inputs.push(input), num, den, drop_nan, filter)
            =~= spec_enumerate(annos, inputs, num, den, drop_nan, filter) + tail);
    }
}

pub open spec fn input_views(v: Seq<Option<RegionInput>>) -> Seq<Option<(Seq<u8>, Seq<SiteRates>)>> {
    v.map_values(
        |o: Option<RegionInput>|
            match o {
                Some(ri) => Some((ri.seq@, ri.rates@)),
                None => None::<(Seq<u8>, Seq<SiteRates>)>,
            },
    )
}

fn rate_for(r: &SiteRates, b: u8) -> (o: Option<u64>)
    ensures
        o == spec_rate_for(*r, b),
{
    if b == 'A' as u8 {
        r.to_a
    } else if b == 'C' as u8 {
        r.to_c
    } else if b == 'G' as u8 {
        r.to_g
    } else {
        r.to_t
    }
}

/// Append all events of one site, alternatives in alphabetical order.
#[verifier::rlimit(100)]
#[verifier::spinoff_prover]
fn push_site_events(
    out: &mut Vec<MutationEvent>,
    anno: &SeqAnnotation,
    seq: &[u8],
    position: usize,
    rates: SiteRates,
    num: u64,
    den: u64,
    drop_nan: bool,
)
    requires
        den > 0,
        anno.range.spec_contains(position as int),
        seq@.len() == anno.range.spec_len() + 2 * FLANK,
    ensures
        final(out)@ == old(out)@ + spec_site_events(
            *anno,
            seq@,
            position as int,
            rates,
            num,
            den,
            drop_nan,
        ),
{
    push_alt_events(out, anno, seq, position, 'A' as u8, rate_for(&rates, 'A' as u8), num, den, drop_nan);
    push_alt_events(out, anno, seq, position, 'C' as u8, rate_for(&rates, 'C' as u8), num, den, drop_nan);
    push_alt_events(out, anno, seq, position, 'G' as u8, rate_for(&rates, 'G' as u8), num, den, drop_nan);
    push_alt_events(out, anno, seq, position, 'T' as u8, rate_for(&rates, 'T' as u8), num, den, drop_nan);
    proof {
        assert(out@ =~= old(out)@ + spec_site_events(
            *anno,
            seq@,
            position as int,
            rates,
            num,
            den,
            drop_nan,
        ));
    }
}

/// Append the events one alternative base contributes at one site.
fn push_alt_events(
    out: &mut Vec<MutationEvent>,
    anno: &SeqAnnotation,
    seq: &[u8],
    position: usize,
    alt: u8,
    rate: Option<u64>,
    num: u64,
    den: u64,
    drop_nan: bool,
)
    requires
        den > 0,
        anno.range.spec_contains(position as int),
        seq@.len() == anno.range.spec_len() + 2 * FLANK,
    ensures
        final(out)@ == old(out)@ + spec_alt_events(
            *anno,
            seq@,
            position as int,
            alt,
            rate,
            num,
            den,
            drop_nan,
        ),
{
    proof {
        reveal(spec_alt_events);
    }
    let n = seq.len();
    let idx = position - anno.range.start + FLANK;
    proof {
        assert(idx < n);
    }
    let ref_base = seq[idx];
    if alt == ref_base {
        proof {
            assert(out@ =~= old(out)@ + spec_alt_events(
                *anno,
                seq@,
                position as int,
                alt,
                rate,
                num,
                den,
                drop_nan,
            ));
        }
        return ;
    }
    match rate {
        None => {
            if !drop_nan {
                out.push(MutationEvent { mutation_type: MutationType::Unknown, probability: 0 });
            }
            proof {
                assert(out@ =~= old(out)@ + spec_alt_events(
                    *anno,
                    seq@,
                    position as int,
                    alt,
                    rate,
                    num,
                    den,
                    drop_nan,
                ));
            }
        },
        Some(p) => {
            let mutation_type = classify_point(anno, seq, position, alt);
            let probability = scale_probability(p, num, den);
            out.push(MutationEvent { mutation_type, probability });
            proof {
                assert(out@ =~= old(out)@ + spec_alt_events(
                    *anno,
                    seq@,
                    position as int,
                    alt,
                    rate,
                    num,
                    den,
                    drop_nan,
                ));
            }
        },
    }
}

/// Enumerate the possible point mutations of every region. `inputs[i]`
/// carries the reference bases and oracle rates of `annotations[i]`, or
/// `None` for a region whose data could not be fetched, which is skipped.
/// Probabilities are scaled by the ratio `scaling_num / scaling_den`.
#[verifier::rlimit(100)]
pub fn enumerate_possible_mutations(
    annotations: &Vec<SeqAnnotation>,
    inputs: &Vec<Option<RegionInput>>,
    scaling_num: u64,
    scaling_den: u64,
    drop_nan: bool,
    filter_for_id: Option<&Vec<u8>>,
) -> (r: PossibleMutations)
    requires
        scaling_den > 0,
        annotations@.len() == inputs@.len(),
        forall|i: int|
            0 <= i < inputs@.len() && (#[trigger] inputs@[i]) is Some ==> annotations@[i].range.wf()
                && inputs@[i]->0.seq@.len() == annotations@[i].range.spec_len() + 2 * FLANK
                && inputs@[i]->0.rates@.len() == annotations@[i].range.spec_len(),
    ensures
        region_views(r@) == spec_enumerate(
            annotations@,
            input_views(inputs@),
            scaling_num,
            scaling_den,
            drop_nan,
            filter_view(filter_for_id),
        ),
{
    let mut result: PossibleMutations = Vec::new();
    let ghost fil = filter_view(filter_for_id);
    let ghost ivs = input_views(inputs@);
    let mut a: usize = 0;
    proof {
        assert(annotations@.take(0) =~= Seq::<SeqAnnotation>::empty());
        assert(ivs.take(0) =~= Seq::<Option<(Seq<u8>, Seq<SiteRates>)>>::empty());
        assert(region_views(result@) =~= Seq::<RegionEventsView>::empty());
    }
    while a < annotations.len()
        invariant
            0 <= a <= annotations@.len(),
            annotations@.len() == inputs@.len(),
            scaling_den > 0,
            fil == filter_view(filter_for_id),
            ivs == input_views(inputs@),
            forall|i: int|
                0 <= i < inputs@.len() && (#[trigger] inputs@[i]) is Some
                    ==> annotations@[i].range.wf() && inputs@[i]->0.seq@.len()
                    == annotations@[i].range.spec_len() + 2 * FLANK && inputs@[i]->0.rates@.len()
                    == annotations@[i].range.spec_len(),
            region_views(result@) == spec_enumerate(
                annotations@.take(a as int),
                ivs.take(a as int),
                scaling_num,
                scaling_den,
                drop_nan,
                fil,
            ),
        decreases annotations@.len() - a,
    {
        let anno = &annotations[a];
        let keep = passes_filter_ref(filter_for_id, &anno.name);
        let ghost prev = region_views(result@);
        proof {
            assert(ivs[a as int] == match inputs@[a as int] {
                Some(ri) => Some((ri.seq@, ri.rates@)),
                None => None::<(Seq<u8>, Seq<SiteRates>)>,
            });
        }
        if keep {
            match &inputs[a] {
                Some(input) => {
                    let n = input.rates.len();
                    let mut events: Vec<MutationEvent> = Vec::new();
                    let mut i: usize = 0;
                    while i < n
                        invariant
                            0 <= i <= n,
                            n == input.rates@.len(),
                            scaling_den > 0,
                            anno == &annotations@[a as int],
                            0 <= a < annotations@.len(),
                            input == &inputs@[a as int]->0,
                            inputs@[a as int] is Some,
                            anno.range.wf(),
                            input.seq@.len() == anno.range.spec_len() + 2 * FLANK,
                            input.rates@.len() == anno.range.spec_len(),
                            events@ == spec_region_events(
                                *anno,
                                input.seq@,
                                input.rates@,
                                i as int,
                                scaling_num,
                                scaling_den,
                                drop_nan,
                            ),
                        decreases n - i,
                    {
                        let position = anno.range.start + i;
                        let rates_here = input.rates[i];
                        push_site_events(
                            &mut events,
                            anno,
                            input.seq.as_slice(),
                            position,
                            rates_here,
                            scaling_num,
                            scaling_den,
                            drop_nan,
                        );
                        proof {
                            assert(events@ =~= spec_region_events(
                                *anno,
                                input.seq@,
                                input.rates@,
                                i as int + 1,
                                scaling_num,
                                scaling_den,
                                drop_nan,
                            ));
                        }
                        i = i + 1;
                    }
                    let entry = RegionEvents {
                        region: crate::observed::clone_bytes(&anno.name),
                        events,
                    };
                    result.push(entry);
                },
                None => {},
            }
        }
        proof {
            lemma_enumerate_push(
                annotations@.take(a as int),
                ivs.take(a as int),
                scaling_num,
                scaling_den,
                drop_nan,
                fil,
                annotations@[a as int],
                ivs[a as int],
            );
            assert(annotations@.take(a as int).push(annotations@[a as int]) =~= annotations@.take(
                a as int + 1,
            ));
            assert(ivs.take(a as int).push(ivs[a as int]) =~= ivs.take(a as int + 1));
            assert(region_views(result@) =~= spec_enumerate(
                annotations@.take(a as int + 1),
                ivs.take(a as int + 1),
                scaling_num,
                scaling_den,
                drop_nan,
                fil,
            ));
        }
        a = a + 1;
    }
    proof {
        assert(annotations@.take(annotations@.len() as int) =~= annotations@);
        assert(ivs.take(annotations@.len() as int) =~= ivs);
    }
    result
}

fn passes_filter_ref(filter: Option<&Vec<u8>>, name: &Vec<u8>) -> (r: bool)
    ensures
        r == spec_passes_filter(filter_view(filter), name@),
{
    match filter {
        Some(f) => {
            let e = crate::text::bytes_eq(f.as_slice(), name.as_slice());
            proof {
                if f@ =~= name@ {
                    assert(f@ == name@);
                }
            }
            e
        },
        None => true,
    }
}

/// The classifier identity: for any annotation, any position inside its
/// range and any alternative base, the consequence class the enumerator
/// attaches to the possible mutation at that site equals the class the
/// observed-variant path assigns to a variant observed there, because
/// both are the same classification of the same site.
pub proof fn lemma_classifier_identity(
    anno: SeqAnnotation,
    seq: Seq<u8>,
    num: u64,
    den: u64,
    drop_nan: bool,
    position: int,
    alt: u8,
    rate: u64,
)
    requires
        anno.range.spec_contains(position),
        alt != seq[position - anno.range.start + FLANK],
    ensures
        spec_alt_events(anno, seq, position, alt, Some(rate), num, den, drop_nan)
            =~= seq![
            MutationEvent {
                mutation_type: crate::classify::spec_classify_point(anno, seq, position, alt),
                probability: spec_scale(rate, num, den),
            },
        ],
        spec_alt_events(
            anno,
            seq,
            position,
            alt,
            Some(rate),
            num,
            den,
            drop_nan,
        )[0].mutation_type == crate::classify::spec_classify_point(anno, seq, position, alt),
{
    reveal(spec_alt_events);
}

} // verus!
