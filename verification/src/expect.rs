//! Sum per-site probabilities into exact expected counts per class.

use vstd::prelude::*;

use crate::counts::ExpectedMutationCounts;
use crate::enumerate::{MutationEvent, RegionEvents};
use crate::mutation_type::MutationType;
use crate::observed::{filter_view, spec_passes_filter};

verus! {

/// The expected counts of one region.
#[derive(Debug, Clone, PartialEq)]
pub struct RegionExpected {
    pub region: Vec<u8>,
    pub counts: ExpectedMutationCounts,
}

/// Mathematical image of `RegionExpected`.
pub struct RegionExpectedView {
    pub region: Seq<u8>,
    pub counts: ExpectedMutationCounts,
}

impl View for RegionExpected {
    type V = RegionExpectedView;

    open spec fn view(&self) -> RegionExpectedView {
        RegionExpectedView { region: self.region@, counts: self.counts }
    }
}

pub open spec fn expected_views(v: Seq<RegionExpected>) -> Seq<RegionExpectedView> {
    v.map_values(|r: RegionExpected| r@)
}

/// Exact sum of the probabilities of the first `i` events of class `t`.
pub open spec fn spec_type_sum(events: Seq<MutationEvent>, t: MutationType, i: int) -> int
    decreases i,
{
    if i <= 0 {
        0
    } else {
        spec_type_sum(events, t, i - 1) + if events[i - 1].mutation_type == t {
            events[i - 1].probability as int
        } else {
            0
        }
    }
}

pub proof fn lemma_type_sum_bound(events: Seq<MutationEvent>, t: MutationType, i: int)
    requires
        0 <= i <= events.len(),
    ensures
        0 <= spec_type_sum(events, t, i) <= i * u64::MAX,
    decreases i,
{
    if i > 0 {
        lemma_type_sum_bound(events, t, i - 1);
        assert(i * u64::MAX == (i - 1) * u64::MAX + u64::MAX) by {
            vstd::arithmetic::mul::lemma_mul_is_distributive_add_other_way(u64::MAX as int, i - 1, 1);
            vstd::arithmetic::mul::lemma_mul_basics(u64::MAX as int);
        };
    }
}

/// Expected counts of every region passing the filter, in input order:
/// per class, the exact sum of the class's event probabilities.
pub open spec fn spec_expected(
    regions: Seq<crate::enumerate::RegionEventsView>,
    filter: Option<Seq<u8>>,
) -> Seq<RegionExpectedView>
    decreases regions.len(),
{
    if regions.len() == 0 {
        Seq::empty()
    } else {
        let head = if spec_passes_filter(filter, regions[0].region) {
            seq![
                RegionExpectedView {
                    region: regions[0].region,
                    counts: spec_counts_of(regions[0].events),
                },
            ]
        } else {
            Seq::<RegionExpectedView>::empty()
        };
        head + spec_expected(regions.skip(1), filter)
    }
}

/// The per-class exact sums of a region's events.
pub open spec fn spec_counts_of(events: Seq<MutationEvent>) -> ExpectedMutationCounts {
    ExpectedMutationCounts {
        unknown: spec_type_sum(events, MutationType::Unknown, events.len() as int) as u128,
        synonymous: spec_type_sum(events, MutationType::Synonymous, events.len() as int) as u128,
        missense: spec_type_sum(events, MutationType::Missense, events.len() as int) as u128,
        nonsense: spec_type_sum(events, MutationType::Nonsense, events.len() as int) as u128,
        start_codon: spec_type_sum(events, MutationType::StartCodon, events.len() as int) as u128,
        stop_loss: spec_type_sum(events, MutationType::StopLoss, events.len() as int) as u128,
        splice_site: spec_type_sum(events, MutationType::SpliceSite, events.len() as int) as u128,
        intronic: spec_type_sum(events, MutationType::Intronic, events.len() as int) as u128,
        inframe_indel: spec_type_sum(
            events,
            MutationType::InFrameIndel,
            events.len() as int,
        ) as u128,
        frameshift_indel: spec_type_sum(
            events,
            MutationType::FrameshiftIndel,
            events.len() as int,
        ) as u128,
    }
}

proof fn lemma_expected_push(
    regions: Seq<crate::enumerate::RegionEventsView>,
    filter: Option<Seq<u8>>,
    r: crate::enumerate::RegionEventsView,
)
    ensures
        spec_expected(regions.push(r), filter) == spec_expected(regions, filter)
            + if spec_passes_filter(filter, r.region) {
            seq![RegionExpectedView { region: r.region, counts: spec_counts_of(r.events) }]
        } else {
            Seq::<RegionExpectedView>::empty()
        },
    decreases regions.len(),
{
    let tail = if spec_passes_filter(filter, r.region) {
        seq![RegionExpectedView { region: r.region, counts: spec_counts_of(r.events) }]
    } else {
        Seq::<RegionExpectedView>::empty()
    };
    if regions.len() == 0 {
        assert(regions.push(r).skip(1) =~= regions);
        assert(regions.push(r)[0] == r);
        assert(spec_expected(regions, filter) == Seq::<RegionExpectedView>::empty());
        assert(spec_expected(regions.push(r), filter) =~= spec_expected(regions, filter) + tail);
    } else {
        lemma_expected_push(regions.skip(1), filter, r);
        assert(regions.push(r).skip(1) =~= regions.skip(1).push(r));
        assert(regions.push(r)[0] == regions[0]);
        assert(spec_expected(regions.push(r), filter) =~= spec_expected(regions, filter) + tail);
    }
}

/// Compute the expected number of mutations per class for every region,
/// as an exact sum of the events' fixed-point probabilities.
pub fn expected_number_of_mutations(
    possible_mutations: &Vec<RegionEvents>,
    filter_for_id: Option<&Vec<u8>>,
) -> (r: Vec<RegionExpected>)
    ensures
        expected_views(r@) == spec_expected(
            crate::enumerate::region_views(possible_mutations@),
            filter_view(filter_for_id),
        ),
{
    let mut result: Vec<RegionExpected> = Vec::new();
    let ghost fil = filter_view(filter_for_id);
    let ghost rvs = crate::enumerate::region_views(possible_mutations@);
    let mut a: usize = 0;
    proof {
        assert(rvs.take(0) =~= Seq::<crate::enumerate::RegionEventsView>::empty());
        assert(expected_views(result@) =~= Seq::<RegionExpectedView>::empty());
    }
    while a < possible_mutations.len()
        invariant
            0 <= a <= possible_mutations@.len(),
            fil == filter_view(filter_for_id),
            rvs == crate::enumerate::region_views(possible_mutations@),
            expected_views(result@) == spec_expected(rvs.take(a as int), fil),
        decreases possible_mutations@.len() - a,
    {
        let entry = &possible_mutations[a];
        let keep = match filter_for_id {
            Some(f) => crate::text::bytes_eq(f.as_slice(), entry.region.as_slice()),
            None => true,
        };
        proof {
            assert(rvs[a as int] == entry@);
            if filter_for_id is Some && filter_for_id->0@ =~= entry.region@ {
                assert(filter_for_id->0@ == entry.region@);
            }
        }
        if keep {
            let mut counts = ExpectedMutationCounts::default();
            let mut i: usize = 0;
            let n = entry.events.len();
            while i < n
                invariant
                    0 <= i <= n,
                    n == entry.events@.len(),
                    0 <= a < possible_mutations@.len(),
                    entry == &possible_mutations@[a as int],
                    forall|t: MutationType| #[trigger]
                        counts.spec_get(t) == spec_type_sum(entry.events@, t, i as int),
                decreases n - i,
            {
                let ev = entry.events[i];
                proof {
                    lemma_type_sum_bound(entry.events@, ev.mutation_type, i as int);
                    vstd::arithmetic::mul::lemma_mul_upper_bound(
                        i as int,
                        u64::MAX as int,
                        u64::MAX as int,
                        u64::MAX as int,
                    );
                }
                counts.add(ev.mutation_type, ev.probability as u128);
                i = i + 1;
            }
            proof {
                assert(counts == spec_counts_of(entry.events@)) by {
                    assert(counts.spec_get(MutationType::Unknown) == spec_type_sum(
                        entry.events@,
                        MutationType::Unknown,
                        n as int,
                    ));
                    assert(counts.spec_get(MutationType::Synonymous) == spec_type_sum(
                        entry.events@,
                        MutationType::Synonymous,
                        n as int,
                    ));
                    assert(counts.spec_get(MutationType::Missense) == spec_type_sum(
                        entry.events@,
                        MutationType::Missense,
                        n as int,
                    ));
                    assert(counts.spec_get(MutationType::Nonsense) == spec_type_sum(
                        entry.events@,
                        MutationType::Nonsense,
                        n as int,
                    ));
                    assert(counts.spec_get(MutationType::StartCodon) == spec_type_sum(
                        entry.events@,
                        MutationType::StartCodon,
                        n as int,
                    ));
                    assert(counts.spec_get(MutationType::StopLoss) == spec_type_sum(
                        entry.events@,
                        MutationType::StopLoss,
                        n as int,
                    ));
                    assert(counts.spec_get(MutationType::SpliceSite) == spec_type_sum(
                        entry.events@,
                        MutationType::SpliceSite,
                        n as int,
                    ));
                    assert(counts.spec_get(MutationType::Intronic) == spec_type_sum(
                        entry.events@,
                        MutationType::Intronic,
                        n as int,
                    ));
                    assert(counts.spec_get(MutationType::InFrameIndel) == spec_type_sum(
                        entry.events@,
                        MutationType::InFrameIndel,
                        n as int,
                    ));
                    assert(counts.spec_get(MutationType::FrameshiftIndel) == spec_type_sum(
                        entry.events@,
                        MutationType::FrameshiftIndel,
                        n as int,
                    ));
                };
            }
            result.push(
                RegionExpected { region: crate::observed::clone_bytes(&entry.region), counts },
            );
        }
        proof {
            lemma_expected_push(rvs.take(a as int), fil, rvs[a as int]);
            assert(rvs.take(a as int).push(rvs[a as int]) =~= rvs.take(a as int + 1));
            assert(expected_views(result@) =~= spec_expected(rvs.take(a as int + 1), fil));
        }
        a = a + 1;
    }
    proof {
        assert(rvs.take(possible_mutations@.len() as int) =~= rvs);
    }
    result
}

} // verus!
