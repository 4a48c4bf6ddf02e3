//! Compare observed counts against the expected counts and the sampled
//! null distributions, scoring each (region, class) with a right-tail
//! p-value.

use vstd::prelude::*;
use vstd::multiset::Multiset;

use crate::counts::{suffix_sum, Fraction, ObservedMutationCounts};
use crate::expect::{RegionExpected, RegionExpectedView};
use crate::mutation_type::MutationType;
use crate::observed::{filter_view, spec_passes_filter, Mutation, MutationView};
use crate::sample::{ClassCounterView, RegionSampled, RegionSampledView, SampledMutations};

verus! {

/// Observed per-class counts of one region.
#[derive(Debug, Clone, PartialEq)]
pub struct RegionObserved {
    pub region: Vec<u8>,
    pub counts: ObservedMutationCounts,
}

/// Mathematical image of `RegionObserved`.
pub struct RegionObservedView {
    pub region: Seq<u8>,
    pub counts: ObservedMutationCounts,
}

impl View for RegionObserved {
    type V = RegionObservedView;

    open spec fn view(&self) -> RegionObservedView {
        RegionObservedView { region: self.region@, counts: self.counts }
    }
}

/// How many of the first `i` classified mutations belong to `region` with
/// class `t`.
pub open spec fn spec_obs_count(
    ms: Seq<MutationView>,
    region: Seq<u8>,
    t: MutationType,
    i: int,
) -> int
    decreases i,
{
    if i <= 0 {
        0
    } else {
        spec_obs_count(ms, region, t, i - 1) + if ms[i - 1].region == Some(region) && ms[i
            - 1].mutation_type == t {
            1int
        } else {
            0int
        }
    }
}

pub proof fn lemma_obs_count_bound(ms: Seq<MutationView>, region: Seq<u8>, t: MutationType, i: int)
    requires
        0 <= i <= ms.len(),
    ensures
        0 <= spec_obs_count(ms, region, t, i) <= i,
    decreases i,
{
    if i > 0 {
        lemma_obs_count_bound(ms, region, t, i - 1);
    }
}

/// Tally the classified mutations per region and class. A mutation counts
/// toward the region it was classified in; regions failing the filter get
/// no entry.
pub fn tally_up_observed_mutations(
    mutations: &Vec<Mutation>,
    filter_for_id: Option<&Vec<u8>>,
) -> (r: Vec<RegionObserved>)
    ensures
        forall|i: int, j: int|
            0 <= i < j < r@.len() ==> (#[trigger] r@[i]).region@ != (#[trigger] r@[j]).region@,
        forall|i: int|
            0 <= i < r@.len() ==> spec_passes_filter(
                filter_view(filter_for_id),
                (#[trigger] r@[i]).region@,
            ),
        forall|i: int, t: MutationType|
            0 <= i < r@.len() ==> #[trigger] r@[i].counts.spec_get(t) == spec_obs_count(
                crate::observed::mutation_views(mutations@),
                r@[i].region@,
                t,
                mutations@.len() as int,
            ),
        forall|j: int|
            0 <= j < mutations@.len() && (#[trigger] mutations@[j])@.region is Some
                && spec_passes_filter(filter_view(filter_for_id), mutations@[j]@.region->0)
                ==> exists|i: int|
                0 <= i < r@.len() && (#[trigger] r@[i]).region@ == mutations@[j]@.region->0,
{
    let ghost ms = crate::observed::mutation_views(mutations@);
    let ghost fil = filter_view(filter_for_id);
    let mut result: Vec<RegionObserved> = Vec::new();
    let mut j: usize = 0;
    while j < mutations.len()
        invariant
            0 <= j <= mutations@.len(),
            ms == crate::observed::mutation_views(mutations@),
            fil == filter_view(filter_for_id),
            forall|a: int, b: int|
                0 <= a < b < result@.len() ==> (#[trigger] result@[a]).region@
                    != (#[trigger] result@[b]).region@,
            forall|a: int|
                0 <= a < result@.len() ==> spec_passes_filter(fil, (#[trigger] result@[a]).region@),
            forall|a: int, t: MutationType|
                0 <= a < result@.len() ==> #[trigger] result@[a].counts.spec_get(t)
                    == spec_obs_count(ms, result@[a].region@, t, j as int),
            forall|b: int|
                0 <= b < j && (#[trigger] mutations@[b])@.region is Some && spec_passes_filter(
                    fil,
                    mutations@[b]@.region->0,
                ) ==> exists|a: int|
                    0 <= a < result@.len() && (#[trigger] result@[a]).region@
                        == mutations@[b]@.region->0,
        decreases mutations@.len() - j,
    {
        let m = &mutations[j];
        let ghost entry_state = result@;
        proof {
            assert(ms[j as int] == m@);
        }
        let mut handled = false;
        match &m.region {
            Some(region) => {
                let keep = match filter_for_id {
                    Some(f) => {
                        let e = crate::text::bytes_eq(f.as_slice(), region.as_slice());
                        proof {
                            if f@ =~= region@ {
                                assert(f@ == region@);
                            }
                        }
                        e
                    },
                    None => true,
                };
                if keep {
                    // find or create this region's entry
                    let mut idx: usize = 0;
                    let mut found = false;
                    while idx < result.len() && !found
                        invariant
                            0 <= idx <= result@.len(),
                            !found ==> forall|a: int|
                                0 <= a < idx ==> (#[trigger] result@[a]).region@ != region@,
                            found ==> idx < result@.len() && result@[idx as int].region@ == region@,
                        decreases result@.len() - idx + if found {
                            0int
                        } else {
                            1int
                        },
                    {
                        if crate::text::bytes_eq(result[idx].region.as_slice(), region.as_slice()) {
                            found = true;
                        } else {
                            idx = idx + 1;
                        }
                    }
                    if !found {
                        let entry = RegionObserved {
                            region: crate::observed::clone_bytes(region),
                            counts: ObservedMutationCounts::default(),
                        };
                        idx = result.len();
                        result.push(entry);
                        proof {
                            assert(forall|a: int, t: MutationType|
                                0 <= a < result@.len() - 1 ==> #[trigger] result@[a].counts.spec_get(
                                    t,
                                ) == spec_obs_count(ms, result@[a].region@, t, j as int));
                            assert(forall|t: MutationType| #[trigger]
                                result@[idx as int].counts.spec_get(t) == 0);
                            lemma_obs_count_zero(ms, region@, j as int);
                        }
                    }
                    let ghost counts_before = result@[idx as int].counts;
                    proof {
                        assert(forall|t: MutationType| #[trigger]
                            counts_before.spec_get(t) == spec_obs_count(
                                ms,
                                region@,
                                t,
                                j as int,
                            ));
                        lemma_obs_count_bound(ms, region@, m@.mutation_type, j as int);
                    }
                    let mut counts = result[idx].counts;
                    counts.add(m.mutation_type, 1);
                    let ghost before_set = result@;
                    let new_entry = RegionObserved {
                        region: crate::observed::clone_bytes(&result[idx].region),
                        counts,
                    };
                    result.set(idx, new_entry);
                    handled = true;
                    proof {
                        assert(result@.len() == before_set.len());
                        assert(forall|a: int|
                            0 <= a < result@.len() ==> (#[trigger] result@[a]).region@
                                == before_set[a].region@);
                        assert(result@[idx as int].region@ == region@);
                        assert(ms[j as int].region == Some(region@));
                        assert forall|a: int, t: MutationType|
                            0 <= a < result@.len() implies #[trigger] result@[a].counts.spec_get(t)
                            == spec_obs_count(ms, result@[a].region@, t, j as int + 1) by {
                            if a == idx {
                                assert(result@[a].counts == counts);
                                assert(counts_before.spec_get(t) == spec_obs_count(
                                    ms,
                                    region@,
                                    t,
                                    j as int,
                                ));
                                if t == m@.mutation_type {
                                    assert(counts.spec_get(t) == counts_before.spec_get(t) + 1);
                                } else {
                                    assert(counts.spec_get(t) == counts_before.spec_get(t));
                                }
                            } else {
                                assert(result@[a] == before_set[a]);
                                assert(before_set[a].counts.spec_get(t) == spec_obs_count(
                                    ms,
                                    before_set[a].region@,
                                    t,
                                    j as int,
                                ));
                                assert(result@[a].region@ != region@);
                                assert(ms[j as int].region != Some(result@[a].region@));
                            }
                        }
                        assert forall|b: int|
                            0 <= b < j + 1 && (#[trigger] mutations@[b])@.region is Some
                                && spec_passes_filter(fil, mutations@[b]@.region->0) implies exists|
                            a: int,
                        |
                            0 <= a < result@.len() && (#[trigger] result@[a]).region@
                                == mutations@[b]@.region->0 by {
                            if b < j {
                                let a0 = choose|a: int|
                                    0 <= a < entry_state.len() && (#[trigger] entry_state[a]).region@
                                        == mutations@[b]@.region->0;
                                assert(before_set[a0] == entry_state[a0]);
                                assert(result@[a0].region@ == mutations@[b]@.region->0);
                            } else {
                                assert(result@[idx as int].region@ == mutations@[b]@.region->0);
                            }
                        }
                    }
                }
            },
            None => {},
        }
        proof {
            if !handled {
                assert(forall|a: int, t: MutationType|
                    0 <= a < result@.len() ==> #[trigger] result@[a].counts.spec_get(t)
                        == spec_obs_count(ms, result@[a].region@, t, j as int + 1)) by {
                    assert forall|a: int, t: MutationType| 0 <= a < result@.len() implies
                        #[trigger] spec_obs_count(
                        ms,
                        result@[a].region@,
                        t,
                        j as int + 1,
                    ) == spec_obs_count(ms, result@[a].region@, t, j as int) by {
                        if ms[j as int].region == Some(result@[a].region@) {
                            assert(spec_passes_filter(fil, result@[a].region@));
                        }
                    }
                };
            }
        }
        j = j + 1;
    }
    result
}

proof fn lemma_obs_count_zero(ms: Seq<MutationView>, region: Seq<u8>, i: int)
    requires
        forall|a: int| 0 <= a < i ==> (#[trigger] ms[a]).region != Some(region),
    ensures
        forall|t: MutationType| #[trigger] spec_obs_count(ms, region, t, i) == 0,
    decreases i,
{
    if i > 0 {
        lemma_obs_count_zero(ms, region, i - 1);
        assert forall|t: MutationType| #[trigger] spec_obs_count(ms, region, t, i) == 0 by {
            assert(spec_obs_count(ms, region, t, i - 1) == 0);
            assert(ms[i - 1].region != Some(region));
        }
    }
}

/// One row of the significance table.
#[derive(Debug, Clone, PartialEq)]
pub struct ComparedMutations {
    pub region: Vec<u8>,
    pub mutation_type: MutationType,
    pub observed: usize,
    pub expected: u128,
    pub p_value: Fraction,
}

/// Mathematical image of `ComparedMutations`.
pub struct ComparedView {
    pub region: Seq<u8>,
    pub mutation_type: MutationType,
    pub observed: int,
    pub expected: int,
    pub p_value: Fraction,
}

impl View for ComparedMutations {
    type V = ComparedView;

    open spec fn view(&self) -> ComparedView {
        ComparedView {
            region: self.region@,
            mutation_type: self.mutation_type,
            observed: self.observed as int,
            expected: self.expected as int,
            p_value: self.p_value,
        }
    }
}

impl ComparedMutations {
    pub fn new(
        region: Vec<u8>,
        mutation_type: MutationType,
        observed: usize,
        expected: u128,
        p_value: Fraction,
    ) -> (r: ComparedMutations)
        ensures
            r.region == region,
            r.mutation_type == mutation_type,
            r.observed == observed,
            r.expected == expected,
            r.p_value == p_value,
    {
        ComparedMutations { region, mutation_type, observed, expected, p_value }
    }
}

pub open spec fn compared_views(v: Seq<ComparedMutations>) -> Seq<ComparedView> {
    v.map_values(|c: ComparedMutations| c@)
}

/// Ordering on p-values: an undefined value (total zero) sorts first;
/// otherwise fractions compare by cross-multiplication.
pub open spec fn spec_p_le(a: Fraction, b: Fraction) -> bool {
    a.den == 0 || (b.den != 0 && a.num * b.den <= b.num * a.den)
}

pub proof fn lemma_p_le_total(a: Fraction, b: Fraction)
    ensures
        spec_p_le(a, b) || spec_p_le(b, a),
{
}

pub proof fn lemma_p_le_trans(a: Fraction, b: Fraction, c: Fraction)
    requires
        spec_p_le(a, b),
        spec_p_le(b, c),
    ensures
        spec_p_le(a, c),
{
    if a.den != 0 {
        assert(b.den != 0);
        assert(c.den != 0);
        assert(a.num * c.den <= c.num * a.den) by (nonlinear_arith)
            requires
                a.num * b.den <= b.num * a.den,
                b.num * c.den <= c.num * b.den,
                a.den > 0,
                b.den > 0,
                c.den > 0,
                a.num >= 0,
                b.num >= 0,
                c.num >= 0,
        {}
    }
}

fn p_le(a: &Fraction, b: &Fraction) -> (r: bool)
    ensures
        r == spec_p_le(*a, *b),
{
    if a.den == 0 {
        true
    } else if b.den == 0 {
        false
    } else {
        proof {
            vstd::arithmetic::mul::lemma_mul_upper_bound(
                a.num as int,
                u64::MAX as int,
                b.den as int,
                u64::MAX as int,
            );
            vstd::arithmetic::mul::lemma_mul_upper_bound(
                b.num as int,
                u64::MAX as int,
                a.den as int,
                u64::MAX as int,
            );
        }
        (a.num as u128) * (b.den as u128) <= (b.num as u128) * (a.den as u128)
    }
}

/// The first sampled entry for a region.
pub open spec fn spec_lookup_sampled(
    svs: Seq<RegionSampledView>,
    region: Seq<u8>,
) -> Option<RegionSampledView>
    decreases svs.len(),
{
    if svs.len() == 0 {
        None
    } else if svs[0].region == region {
        Some(svs[0])
    } else {
        spec_lookup_sampled(svs.skip(1), region)
    }
}

/// The first sampled distribution for a class.
pub open spec fn spec_lookup_class(
    ds: Seq<ClassCounterView>,
    t: MutationType,
) -> Option<ClassCounterView>
    decreases ds.len(),
{
    if ds.len() == 0 {
        None
    } else if ds[0].mutation_type == t {
        Some(ds[0])
    } else {
        spec_lookup_class(ds.skip(1), t)
    }
}

/// The observed count the comparison uses: the tally of the classified
/// mutations, zero for regions failing the filter.
pub open spec fn spec_observed_of(
    ms: Seq<MutationView>,
    fil: Option<Seq<u8>>,
    region: Seq<u8>,
    t: MutationType,
) -> int {
    if spec_passes_filter(fil, region) {
        spec_obs_count(ms, region, t, ms.len() as int)
    } else {
        0
    }
}

/// One significance row: how many mutations of class `t` were observed in
/// the region, how many were expected, and the empirical right-tail
/// p-value of the observed count.
pub open spec fn spec_row(
    ev: RegionExpectedView,
    c: ClassCounterView,
    ms: Seq<MutationView>,
    fil: Option<Seq<u8>>,
    t: MutationType,
) -> ComparedView {
    let obs = spec_observed_of(ms, fil, ev.region, t);
    ComparedView {
        region: ev.region,
        mutation_type: t,
        observed: obs,
        expected: ev.counts.spec_get(t) as int,
        p_value: Fraction {
            num: (if 0 <= obs < c.counter.len() {
                suffix_sum(c.counter, obs)
            } else {
                0
            }) as u64,
            den: suffix_sum(c.counter, 0) as u64,
        },
    }
}

/// The rows of one region for the classes with codes below `code`,
/// skipping the unknown class, classes without a sampled distribution,
/// and classes whose sampling total cannot be represented.
pub open spec fn spec_rows_upto(
    ev: RegionExpectedView,
    sv: RegionSampledView,
    ms: Seq<MutationView>,
    fil: Option<Seq<u8>>,
    code: int,
) -> Seq<ComparedView>
    decreases code,
{
    if code <= 1 {
        Seq::empty()
    } else {
        let t = MutationType::spec_from_code((code - 1) as u8);
        let head = match spec_lookup_class(sv.distributions, t) {
            Some(c) => {
                if suffix_sum(c.counter, 0) <= u64::MAX {
                    seq![spec_row(ev, c, ms, fil, t)]
                } else {
                    Seq::<ComparedView>::empty()
                }
            },
            None => Seq::<ComparedView>::empty(),
        };
        spec_rows_upto(ev, sv, ms, fil, code - 1) + head
    }
}

/// The rows of the first `i` expected regions.
pub open spec fn spec_all_rows(
    evs: Seq<RegionExpectedView>,
    svs: Seq<RegionSampledView>,
    ms: Seq<MutationView>,
    fil: Option<Seq<u8>>,
    i: int,
) -> Seq<ComparedView>
    decreases i,
{
    if i <= 0 {
        Seq::empty()
    } else {
        let head = match spec_lookup_sampled(svs, evs[i - 1].region) {
            Some(sv) => spec_rows_upto(evs[i - 1], sv, ms, fil, 10),
            None => Seq::<ComparedView>::empty(),
        };
        spec_all_rows(evs, svs, ms, fil, i - 1) + head
    }
}

/// If any mutation of a region was counted, the region occurs among the
/// classified mutations.
proof fn lemma_obs_count_witness(ms: Seq<MutationView>, region: Seq<u8>, t: MutationType, i: int)
    requires
        spec_obs_count(ms, region, t, i) > 0,
        i <= ms.len(),
    ensures
        exists|b: int| 0 <= b < ms.len() && (#[trigger] ms[b]).region == Some(region),
    decreases i,
{
    if i > 0 {
        if ms[i - 1].region == Some(region) && ms[i - 1].mutation_type == t {
            assert(0 <= i - 1 < ms.len() && ms[i - 1].region == Some(region));
        } else {
            lemma_obs_count_witness(ms, region, t, i - 1);
        }
    }
}

/// Compare observed counts against expected counts and the sampled null
/// distributions: one row per (region, class) with a sampled
/// distribution, sorted by ascending p-value. A (region, class) the
/// sampled artifact lacks gets no row and never aborts the comparison;
/// the caller may warn where such a class had a nonzero expectation.
#[verifier::rlimit(100)]
pub fn compare_mutations(
    classified_observed_mutations: &Vec<Mutation>,
    expected_mutations: &Vec<RegionExpected>,
    sampled_mutations: &SampledMutations,
    filter_for_id: Option<&Vec<u8>>,
) -> (r: Vec<ComparedMutations>)
    ensures
        compared_views(r@).to_multiset() == spec_all_rows(
            crate::expect::expected_views(expected_mutations@),
            crate::sample::sampled_views(sampled_mutations@),
            crate::observed::mutation_views(classified_observed_mutations@),
            filter_view(filter_for_id),
            expected_mutations@.len() as int,
        ).to_multiset(),
        forall|i: int|
            0 <= i < r@.len() - 1 ==> spec_p_le((#[trigger] r@[i])@.p_value, r@[i + 1]@.p_value),
{
    let ghost evs = crate::expect::expected_views(expected_mutations@);
    let ghost svs = crate::sample::sampled_views(sampled_mutations@);
    let ghost ms = crate::observed::mutation_views(classified_observed_mutations@);
    let ghost fil = filter_view(filter_for_id);
    let observed = tally_up_observed_mutations(classified_observed_mutations, filter_for_id);
    let mut rows: Vec<ComparedMutations> = Vec::new();
    let mut i: usize = 0;
    while i < expected_mutations.len()
        invariant
            0 <= i <= expected_mutations@.len(),
            evs == crate::expect::expected_views(expected_mutations@),
            svs == crate::sample::sampled_views(sampled_mutations@),
            ms == crate::observed::mutation_views(classified_observed_mutations@),
            fil == filter_view(filter_for_id),
            ms.len() == classified_observed_mutations@.len(),
            forall|a: int, b: int|
                0 <= a < b < observed@.len() ==> (#[trigger] observed@[a]).region@
                    != (#[trigger] observed@[b]).region@,
            forall|a: int|
                0 <= a < observed@.len() ==> spec_passes_filter(
                    fil,
                    (#[trigger] observed@[a]).region@,
                ),
            forall|a: int, t: MutationType|
                0 <= a < observed@.len() ==> #[trigger] observed@[a].counts.spec_get(t)
                    == spec_obs_count(ms, observed@[a].region@, t, ms.len() as int),
            forall|b: int|
                0 <= b < ms.len() && (#[trigger] ms[b]).region is Some && spec_passes_filter(
                    fil,
                    ms[b].region->0,
                ) ==> exists|a: int|
                    0 <= a < observed@.len() && (#[trigger] observed@[a]).region@ == ms[b].region->0,
            compared_views(rows@) == spec_all_rows(evs, svs, ms, fil, i as int),
        decreases expected_mutations@.len() - i,
    {
        let entry = &expected_mutations[i];
        proof {
            assert(evs[i as int] == entry@);
        }
        // the sampled distributions of this region
        let mut s: usize = 0;
        let mut found_s: Option<&RegionSampled> = None;
        proof {
            assert(svs.skip(0) =~= svs);
        }
        while s < sampled_mutations.len() && found_s.is_none()
            invariant
                0 <= s <= sampled_mutations@.len(),
                svs == crate::sample::sampled_views(sampled_mutations@),
                found_s is None ==> spec_lookup_sampled(svs, entry.region@) == spec_lookup_sampled(
                    svs.skip(s as int),
                    entry.region@,
                ),
                found_s is Some ==> Some(found_s->0@) == spec_lookup_sampled(svs, entry.region@),
            decreases sampled_mutations@.len() - s + if found_s is Some {
                0int
            } else {
                1int
            },
        {
            proof {
                let sk = svs.skip(s as int);
                assert(sk[0] == svs[s as int]);
                assert(sk.skip(1) =~= svs.skip(s as int + 1));
                assert(svs[s as int] == sampled_mutations@[s as int]@);
            }
            if crate::text::bytes_eq(
                sampled_mutations[s].region.as_slice(),
                entry.region.as_slice(),
            ) {
                found_s = Some(&sampled_mutations[s]);
            } else {
                s = s + 1;
            }
        }
        let sv = match found_s {
            Some(sv) => sv,
            None => {
                // no sampled data for this region: it contributes no rows
                proof {
                    assert(svs.skip(s as int).len() == 0);
                    assert(spec_lookup_sampled(svs, entry.region@) is None);
                    assert(compared_views(rows@) =~= spec_all_rows(evs, svs, ms, fil, i as int + 1));
                }
                i = i + 1;
                continue ;
            },
        };
        // the observed counts of this region (zero when the region was
        // never seen or fails the filter)
        let mut o: usize = 0;
        let mut found_o: Option<usize> = None;
        while o < observed.len() && found_o.is_none()
            invariant
                0 <= o <= observed@.len(),
                found_o is None ==> forall|a: int|
                    0 <= a < o ==> (#[trigger] observed@[a]).region@ != entry.region@,
                found_o is Some ==> found_o->0 < observed@.len()
                    && observed@[found_o->0 as int].region@ == entry.region@,
            decreases observed@.len() - o + if found_o is Some {
                0int
            } else {
                1int
            },
        {
            if crate::text::bytes_eq(observed[o].region.as_slice(), entry.region.as_slice()) {
                found_o = Some(o);
            } else {
                o = o + 1;
            }
        }
        let obs_counts = match found_o {
            Some(oi) => observed[oi].counts,
            None => ObservedMutationCounts::default(),
        };
        proof {
            assert forall|t: MutationType| #[trigger]
                obs_counts.spec_get(t) == spec_observed_of(ms, fil, entry.region@, t) by {
                match found_o {
                    Some(oi) => {
                        assert(spec_passes_filter(fil, entry.region@));
                    },
                    None => {
                        if spec_passes_filter(fil, entry.region@) {
                            if spec_obs_count(ms, entry.region@, t, ms.len() as int) > 0 {
                                lemma_obs_count_witness(ms, entry.region@, t, ms.len() as int);
                                let b = choose|b: int|
                                    0 <= b < ms.len() && (#[trigger] ms[b]).region == Some(
                                        entry.region@,
                                    );
                                assert(spec_passes_filter(fil, ms[b].region->0));
                                assert(false);
                            }
                        }
                        lemma_obs_count_bound(ms, entry.region@, t, ms.len() as int);
                    },
                }
            }
        }
        // one row per class with a usable sampled distribution
        let mut code: u8 = 1;
        let ghost row_base = compared_views(rows@);
        while code < 10
            invariant
                1 <= code <= 10,
                evs == crate::expect::expected_views(expected_mutations@),
                ms == crate::observed::mutation_views(classified_observed_mutations@),
                ms.len() == classified_observed_mutations@.len(),
                fil == filter_view(filter_for_id),
                0 <= i < expected_mutations@.len(),
                entry == &expected_mutations@[i as int],
                sv@ == spec_lookup_sampled(svs, entry.region@)->0,
                spec_lookup_sampled(svs, entry.region@) is Some,
                forall|t: MutationType| #[trigger]
                    obs_counts.spec_get(t) == spec_observed_of(ms, fil, entry.region@, t),
                compared_views(rows@) == row_base + spec_rows_upto(
                    entry@,
                    sv@,
                    ms,
                    fil,
                    code as int,
                ),
            decreases 10 - code,
        {
            let t = MutationType::from_code(code);
            // this class's sampled distribution, if any
            let mut d: usize = 0;
            let mut found_d: Option<&crate::sample::ClassCounter> = None;
            proof {
                assert(sv@.distributions.skip(0) =~= sv@.distributions);
            }
            while d < sv.distributions.len() && found_d.is_none()
                invariant
                    0 <= d <= sv.distributions@.len(),
                    sv@.distributions.len() == sv.distributions@.len(),
                    forall|x: int|
                        0 <= x < sv.distributions@.len() ==> sv@.distributions[x]
                            == (#[trigger] sv.distributions@[x])@,
                    found_d is None ==> spec_lookup_class(sv@.distributions, t)
                        == spec_lookup_class(sv@.distributions.skip(d as int), t),
                    found_d is Some ==> Some(found_d->0@) == spec_lookup_class(
                        sv@.distributions,
                        t,
                    ),
                decreases sv.distributions@.len() - d + if found_d is Some {
                    0int
                } else {
                    1int
                },
            {
                proof {
                    let sk = sv@.distributions.skip(d as int);
                    assert(sk[0] == sv@.distributions[d as int]);
                    assert(sk.skip(1) =~= sv@.distributions.skip(d as int + 1));
                }
                if sv.distributions[d].mutation_type.code() == t.code() {
                    proof {
                        MutationType::lemma_code_injective(
                            sv.distributions@[d as int].mutation_type,
                            t,
                        );
                    }
                    found_d = Some(&sv.distributions[d]);
                } else {
                    d = d + 1;
                }
            }
            match found_d {
                Some(cc) => {
                    proof {
                        assert(sv@.distributions.skip(d as int).len() >= 0);
                    }
                    let total = cc.counter.total();
                    if total <= u64::MAX as u128 {
                        let pv = cc.counter.p_values();
                        let obs = obs_counts.get(t);
                        let frac = pv.n_hits_or_more(obs);
                        let row = ComparedMutations {
                            region: crate::observed::clone_bytes(&entry.region),
                            mutation_type: t,
                            observed: obs,
                            expected: entry.counts.get(t),
                            p_value: frac,
                        };
                        let ghost rowv = row@;
                        rows.push(row);
                        proof {
                            crate::counts::lemma_suffix_sum_nonneg(cc.counter@, obs as int);
                            crate::counts::lemma_suffix_sum_nonneg(cc.counter@, 0);
                            crate::counts::lemma_suffix_sum_decreasing(cc.counter@, 0, obs as int);
                            assert(rowv.p_value.den == suffix_sum(cc.counter@, 0) as u64);
                            assert(rowv.p_value.num == (if 0 <= obs as int && (obs as int)
                                < cc.counter@.len() {
                                suffix_sum(cc.counter@, obs as int)
                            } else {
                                0int
                            }) as u64);
                            assert(rowv == spec_row(entry@, cc@, ms, fil, t));
                            assert(compared_views(rows@) =~= (row_base + spec_rows_upto(
                                entry@,
                                sv@,
                                ms,
                                fil,
                                code as int,
                            )).push(rowv));
                            assert(compared_views(rows@) =~= row_base + spec_rows_upto(
                                entry@,
                                sv@,
                                ms,
                                fil,
                                code as int + 1,
                            ));
                        }
                    } else {
                        proof {
                            assert(compared_views(rows@) =~= row_base + spec_rows_upto(
                                entry@,
                                sv@,
                                ms,
                                fil,
                                code as int + 1,
                            ));
                        }
                    }
                },
                None => {
                    proof {
                        assert(sv@.distributions.skip(d as int).len() == 0);
                        assert(spec_lookup_class(sv@.distributions, t) is None);
                        assert(compared_views(rows@) =~= row_base + spec_rows_upto(
                            entry@,
                            sv@,
                            ms,
                            fil,
                            code as int + 1,
                        ));
                    }
                },
            }
            code = code + 1;
        }
        proof {
            assert(compared_views(rows@) =~= spec_all_rows(evs, svs, ms, fil, i as int + 1));
        }
        i = i + 1;
    }
    sort_rows(&mut rows);
    rows
}

/// Sort the significance rows by ascending p-value (selection sort),
/// preserving the multiset of rows.
pub fn sort_rows(v: &mut Vec<ComparedMutations>)
    ensures
        forall|i: int|
            0 <= i < final(v)@.len() - 1 ==> spec_p_le(
                (#[trigger] final(v)@[i])@.p_value,
                final(v)@[i + 1]@.p_value,
            ),
        compared_views(final(v)@).to_multiset() == compared_views(old(v)@).to_multiset(),
{
    broadcast use vstd::seq_lib::group_to_multiset_ensures;

    let mut out: Vec<ComparedMutations> = Vec::new();
    let ghost orig = compared_views(v@);
    proof {
        assert(compared_views(out@).to_multiset().add(compared_views(v@).to_multiset())
            =~= orig.to_multiset());
    }
    while v.len() > 0
        invariant
            compared_views(out@).to_multiset().add(compared_views(v@).to_multiset())
                == orig.to_multiset(),
            forall|i: int|
                0 <= i < out@.len() - 1 ==> spec_p_le(
                    (#[trigger] out@[i])@.p_value,
                    out@[i + 1]@.p_value,
                ),
            forall|i: int, j: int|
                0 <= i < out@.len() && 0 <= j < v@.len() ==> spec_p_le(
                    (#[trigger] out@[i])@.p_value,
                    (#[trigger] v@[j])@.p_value,
                ),
        decreases v@.len(),
    {
        let mut m: usize = 0;
        let mut k: usize = 1;
        while k < v.len()
            invariant
                0 <= m < k <= v@.len(),
                v@.len() > 0,
                forall|i: int| 0 <= i < k ==> spec_p_le(v@[m as int]@.p_value, (#[trigger] v@[i])@.p_value),
            decreases v@.len() - k,
        {
            let le = p_le(&v[k].p_value, &v[m].p_value);
            proof {
                if le {
                    assert forall|i: int| 0 <= i < k + 1 implies spec_p_le(
                        v@[k as int]@.p_value,
                        (#[trigger] v@[i])@.p_value,
                    ) by {
                        if i < k {
                            lemma_p_le_trans(v@[k as int]@.p_value, v@[m as int]@.p_value, v@[i]@.p_value);
                        } else {
                            lemma_p_le_total(v@[k as int]@.p_value, v@[k as int]@.p_value);
                        }
                    }
                } else {
                    lemma_p_le_total(v@[k as int]@.p_value, v@[m as int]@.p_value);
                }
            }
            if le {
                m = k;
            }
            k = k + 1;
        }
        let ghost v_before = v@;
        let ghost out_before = out@;
        let x = v.remove(m);
        out.push(x);
        proof {
            let cvb = compared_views(v_before);
            assert(cvb[m as int] == x@);
            assert(compared_views(v@) =~= cvb.remove(m as int));
            cvb.to_multiset_ensures();
            compared_views(out_before).to_multiset_ensures();
            assert(compared_views(out@) =~= compared_views(out_before).push(x@));
            assert(compared_views(v@).to_multiset() =~= cvb.to_multiset().remove(x@));
            assert(compared_views(out@).to_multiset() =~= compared_views(
                out_before,
            ).to_multiset().insert(x@));
            assert(cvb.contains(x@));
            assert(cvb.to_multiset().count(x@) > 0);
            assert(compared_views(out@).to_multiset().add(compared_views(v@).to_multiset())
                =~= orig.to_multiset());
            assert(forall|j: int|
                0 <= j < v@.len() ==> spec_p_le(x@.p_value, (#[trigger] v@[j])@.p_value));
        }
    }
    proof {
        assert(compared_views(v@).to_multiset() =~= Multiset::<ComparedView>::empty());
        assert(compared_views(out@).to_multiset() =~= orig.to_multiset());
    }
    *v = out;
}

} // verus!
