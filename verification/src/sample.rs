//! Monte-Carlo sampling: per consequence class, draw realizations of the
//! mutation count under the null model and histogram them.

use vstd::prelude::*;
use vstd::multiset::Multiset;

use crate::counts::{suffix_sum, tally_at, DefaultCounter};
use crate::enumerate::{MutationEvent, RegionEvents, RegionEventsView};
use crate::mutation_type::MutationType;
use crate::observed::{filter_view, spec_passes_filter};
use crate::text::FRAC_UNIT;

verus! {

/// Relies on `rand::random_range`: a value drawn uniformly from the given
/// range, which panics only on an empty range.
#[verifier::external_body]
fn draw_below(bound: u64) -> (r: u64)
    requires
        bound > 0,
    ensures
        r < bound,
{
    rand::random_range(0..bound)
}

pub open spec fn sorted(s: Seq<u64>) -> bool {
    forall|i: int, j: int| 0 <= i <= j < s.len() ==> s[i] <= s[j]
}

/// Sort probabilities ascending (selection sort), preserving the multiset
/// of values.
pub fn sort_probs(v: &mut Vec<u64>)
    ensures
        sorted(final(v)@),
        final(v)@.to_multiset() == old(v)@.to_multiset(),
        final(v)@.len() == old(v)@.len(),
{
    broadcast use vstd::seq_lib::group_to_multiset_ensures;

    let mut out: Vec<u64> = Vec::new();
    let ghost orig = v@;
    proof {
        assert(out@.to_multiset().add(v@.to_multiset()) =~= orig.to_multiset());
    }
    while v.len() > 0
        invariant
            out@.to_multiset().add(v@.to_multiset()) == orig.to_multiset(),
            out@.len() + v@.len() == orig.len(),
            sorted(out@),
            forall|i: int, j: int|
                0 <= i < out@.len() && 0 <= j < v@.len() ==> out@[i] <= v@[j],
        decreases v@.len(),
    {
        // index of a minimal element of the rest
        let mut m: usize = 0;
        let mut k: usize = 1;
        while k < v.len()
            invariant
                0 <= m < k <= v@.len(),
                v@.len() > 0,
                forall|i: int| 0 <= i < k ==> v@[m as int] <= v@[i],
            decreases v@.len() - k,
        {
            if v[k] < v[m] {
                m = k;
            }
            k = k + 1;
        }
        let ghost v_before = v@;
        let ghost out_before = out@;
        let x = v.remove(m);
        out.push(x);
        proof {
            v_before.to_multiset_ensures();
            out_before.to_multiset_ensures();
            assert(v_before[m as int] == x);
            assert(v_before.contains(x));
            assert(v@.to_multiset() =~= v_before.to_multiset().remove(x));
            assert(out@.to_multiset() =~= out_before.to_multiset().insert(x));
            assert(v_before.to_multiset().count(x) > 0);
            assert(out@.to_multiset().add(v@.to_multiset()) =~= orig.to_multiset());
        }
    }
    proof {
        assert(v@.to_multiset() =~= Multiset::<u64>::empty());
        assert(out@.to_multiset() =~= orig.to_multiset());
    }
    *v = out;
}

/// Number of entries strictly above `u`.
pub open spec fn spec_count_above(s: Seq<u64>, u: u64) -> int
    decreases s.len(),
{
    if s.len() == 0 {
        0
    } else {
        spec_count_above(s.drop_last(), u) + if s.last() > u {
            1int
        } else {
            0int
        }
    }
}

proof fn lemma_count_above_nonneg(s: Seq<u64>, u: u64)
    ensures
        0 <= spec_count_above(s, u) <= s.len(),
    decreases s.len(),
{
    if s.len() > 0 {
        lemma_count_above_nonneg(s.drop_last(), u);
    }
}

proof fn lemma_count_above_split(s: Seq<u64>, u: u64, idx: int)
    requires
        0 <= idx <= s.len(),
        forall|i: int| 0 <= i < idx ==> s[i] <= u,
        forall|i: int| idx <= i < s.len() ==> s[i] > u,
    ensures
        spec_count_above(s, u) == s.len() - idx,
    decreases s.len(),
{
    if s.len() == 0 {
    } else if idx == s.len() {
        assert(s.last() <= u);
        assert(forall|i: int| 0 <= i < s.drop_last().len() ==> s.drop_last()[i] <= u);
        lemma_count_above_split(s.drop_last(), u, idx - 1);
    } else {
        assert(s.last() > u);
        assert(forall|i: int| 0 <= i < idx ==> s.drop_last()[i] <= u);
        assert(forall|i: int| idx <= i < s.drop_last().len() ==> s.drop_last()[i] > u);
        lemma_count_above_split(s.drop_last(), u, idx);
    }
}

/// Count how many sorted probabilities exceed the threshold, by binary
/// search for the first entry above it.
pub fn count_above(probs: &Vec<u64>, u: u64) -> (r: usize)
    requires
        sorted(probs@),
    ensures
        r == spec_count_above(probs@, u),
        r <= probs@.len(),
{
    let mut lo: usize = 0;
    let mut hi: usize = probs.len();
    while lo < hi
        invariant
            0 <= lo <= hi <= probs@.len(),
            sorted(probs@),
            forall|i: int| 0 <= i < lo ==> probs@[i] <= u,
            forall|i: int| hi <= i < probs@.len() ==> probs@[i] > u,
        decreases hi - lo,
    {
        let mid = lo + (hi - lo) / 2;
        if probs[mid] > u {
            hi = mid;
        } else {
            lo = mid + 1;
        }
    }
    proof {
        lemma_count_above_split(probs@, u, lo as int);
        lemma_count_above_nonneg(probs@, u);
    }
    probs.len() - lo
}

/// Histogram `n` trials: each trial draws one uniform threshold and
/// counts the probabilities above it.
fn sample_class(probs: &Vec<u64>, n: usize) -> (c: DefaultCounter)
    requires
        sorted(probs@),
        probs@.len() < usize::MAX,
    ensures
        suffix_sum(c@, 0) == n,
        c@.len() <= probs@.len() + 1,
{
    let mut counter = DefaultCounter::new();
    let mut t: usize = 0;
    while t < n
        invariant
            0 <= t <= n,
            sorted(probs@),
            probs@.len() < usize::MAX,
            suffix_sum(counter@, 0) == t,
            counter@.len() <= probs@.len() + 1,
        decreases n - t,
    {
        let u = draw_below(FRAC_UNIT);
        let successes = count_above(probs, u);
        proof {
            lemma_tally_le_total(counter@, successes as int);
            crate::counts::lemma_suffix_sum_nonneg(counter@, 0);
        }
        let ghost before = counter@;
        counter.inc(successes);
        proof {
            lemma_inc_total(before, counter@, successes as int);
        }
        t = t + 1;
    }
    counter
}

/// A single bin never exceeds the histogram's total.
proof fn lemma_tally_le_total(s: Seq<usize>, j: int)
    ensures
        tally_at(s, j) <= suffix_sum(s, 0),
{
    if 0 <= j < s.len() {
        crate::counts::lemma_suffix_sum_decreasing(s, 0, j);
        crate::counts::lemma_suffix_sum_nonneg(s, j + 1);
        crate::counts::lemma_suffix_sum_prefix(s, j);
    } else {
        crate::counts::lemma_suffix_sum_nonneg(s, 0);
    }
}

/// Incrementing one bin raises the total by one.
proof fn lemma_inc_total(before: Seq<usize>, after: Seq<usize>, idx: int)
    requires
        0 <= idx,
        after.len() == if before.len() > idx {
            before.len() as int
        } else {
            idx + 1
        },
        forall|j: int| #![auto]
            tally_at(after, j) == tally_at(before, j) + if j == idx {
                1int
            } else {
                0int
            },
    ensures
        suffix_sum(after, 0) == suffix_sum(before, 0) + 1,
{
    lemma_inc_total_from(before, after, idx, 0);
}

proof fn lemma_inc_total_from(before: Seq<usize>, after: Seq<usize>, idx: int, k: int)
    requires
        0 <= k <= idx,
        after.len() == if before.len() > idx {
            before.len() as int
        } else {
            idx + 1
        },
        forall|j: int| #![auto]
            tally_at(after, j) == tally_at(before, j) + if j == idx {
                1int
            } else {
                0int
            },
    ensures
        suffix_sum(after, k) == suffix_sum_clipped(before, k) + 1,
    decreases idx - k,
{
    assert(k < after.len());
    if k == idx {
        lemma_zero_tail(before, after, idx, k + 1);
        crate::counts::lemma_suffix_sum_prefix(after, k);
        assert(after[k] == tally_at(after, k));
        if k < before.len() {
            crate::counts::lemma_suffix_sum_prefix(before, k);
        } else if k == before.len() {
            assert(suffix_sum(before, k) == 0);
        }
    } else {
        lemma_inc_total_from(before, after, idx, k + 1);
        crate::counts::lemma_suffix_sum_prefix(after, k);
        assert(after[k] == tally_at(after, k));
        if k < before.len() {
            crate::counts::lemma_suffix_sum_prefix(before, k);
        }
    }
}

/// Suffix sum that tolerates an index beyond the histogram.
pub open spec fn suffix_sum_clipped(s: Seq<usize>, k: int) -> int {
    if k <= s.len() {
        suffix_sum(s, k)
    } else {
        0
    }
}

proof fn lemma_zero_tail(before: Seq<usize>, after: Seq<usize>, idx: int, k: int)
    requires
        0 <= k,
        idx < k,
        after.len() == if before.len() > idx {
            before.len() as int
        } else {
            idx + 1
        },
        forall|j: int| #![auto]
            tally_at(after, j) == tally_at(before, j) + if j == idx {
                1int
            } else {
                0int
            },
    ensures
        suffix_sum(after, k) == suffix_sum_clipped(before, k),
    decreases after.len() - k,
{
    if k >= after.len() {
        if k <= before.len() {
            crate::counts::lemma_suffix_sum_of_zeros(before, k);
        }
    } else {
        lemma_zero_tail(before, after, idx, k + 1);
        assert(after[k] == tally_at(after, k));
        assert(tally_at(after, k) == tally_at(before, k));
        if k < before.len() {
            crate::counts::lemma_suffix_sum_prefix(before, k);
        } else {
            assert(tally_at(before, k) == 0);
            assert(suffix_sum_clipped(before, k) == 0) by {
                if k <= before.len() {
                    crate::counts::lemma_suffix_sum_of_zeros(before, k);
                }
            };
        }
    }
}

/// One class's empirical null distribution.
#[derive(Debug, Clone, PartialEq)]
pub struct ClassCounter {
    pub mutation_type: MutationType,
    pub counter: DefaultCounter,
}

/// Mathematical image of `ClassCounter`.
pub struct ClassCounterView {
    pub mutation_type: MutationType,
    pub counter: Seq<usize>,
}

impl View for ClassCounter {
    type V = ClassCounterView;

    open spec fn view(&self) -> ClassCounterView {
        ClassCounterView { mutation_type: self.mutation_type, counter: self.counter@ }
    }
}

/// The sampled distributions of one region.
#[derive(Debug, Clone, PartialEq)]
pub struct RegionSampled {
    pub region: Vec<u8>,
    pub distributions: Vec<ClassCounter>,
}

/// Mathematical image of `RegionSampled`.
pub struct RegionSampledView {
    pub region: Seq<u8>,
    pub distributions: Seq<ClassCounterView>,
}

impl View for RegionSampled {
    type V = RegionSampledView;

    open spec fn view(&self) -> RegionSampledView {
        RegionSampledView {
            region: self.region@,
            distributions: self.distributions@.map_values(|c: ClassCounter| c@),
        }
    }
}

pub open spec fn sampled_views(v: Seq<RegionSampled>) -> Seq<RegionSampledView> {
    v.map_values(|r: RegionSampled| r@)
}

pub open spec fn class_views(v: Seq<ClassCounter>) -> Seq<ClassCounterView> {
    v.map_values(|c: ClassCounter| c@)
}

impl RegionSampled {
    /// The sampled distribution of one class, if any.
    pub fn find_class(&self, t: MutationType) -> (r: Option<&ClassCounter>)
        ensures
            match r {
                Some(c) => Some(c@) == crate::compare::spec_lookup_class(self@.distributions, t),
                None => crate::compare::spec_lookup_class(self@.distributions, t) is None,
            },
    {
        let mut d: usize = 0;
        proof {
            assert(self@.distributions.skip(0) =~= self@.distributions);
        }
        while d < self.distributions.len()
            invariant
                0 <= d <= self.distributions@.len(),
                self@.distributions.len() == self.distributions@.len(),
                forall|x: int|
                    0 <= x < self.distributions@.len() ==> self@.distributions[x]
                        == (#[trigger] self.distributions@[x])@,
                crate::compare::spec_lookup_class(self@.distributions, t)
                    == crate::compare::spec_lookup_class(self@.distributions.skip(d as int), t),
            decreases self.distributions@.len() - d,
        {
            proof {
                let sk = self@.distributions.skip(d as int);
                assert(sk[0] == self@.distributions[d as int]);
                assert(sk.skip(1) =~= self@.distributions.skip(d as int + 1));
            }
            if self.distributions[d].mutation_type.code() == t.code() {
                proof {
                    MutationType::lemma_code_injective(
                        self.distributions@[d as int].mutation_type,
                        t,
                    );
                }
                return Some(&self.distributions[d]);
            }
            d = d + 1;
        }
        proof {
            assert(self@.distributions.skip(d as int).len() == 0);
        }
        None
    }
}

/// Mapping from region name to the per-class empirical distributions.
pub type SampledMutations = Vec<RegionSampled>;

/// The probabilities of a region's events of one class, in event order.
pub open spec fn spec_class_probs(events: Seq<MutationEvent>, t: MutationType) -> Seq<u64> {
    events.filter(|e: MutationEvent| e.mutation_type == t).map_values(
        |e: MutationEvent| e.probability,
    )
}

/// The region names that pass the filter, in input order.
pub open spec fn spec_kept_regions(
    regions: Seq<RegionEventsView>,
    filter: Option<Seq<u8>>,
) -> Seq<RegionEventsView>
    decreases regions.len(),
{
    if regions.len() == 0 {
        Seq::empty()
    } else if spec_passes_filter(filter, regions[0].region) {
        seq![regions[0]] + spec_kept_regions(regions.skip(1), filter)
    } else {
        spec_kept_regions(regions.skip(1), filter)
    }
}

proof fn lemma_kept_regions_push(
    regions: Seq<RegionEventsView>,
    filter: Option<Seq<u8>>,
    r: RegionEventsView,
)
    ensures
        spec_kept_regions(regions.push(r), filter) == spec_kept_regions(regions, filter)
            + if spec_passes_filter(filter, r.region) {
            seq![r]
        } else {
            Seq::<RegionEventsView>::empty()
        },
    decreases regions.len(),
{
    let tail = if spec_passes_filter(filter, r.region) {
        seq![r]
    } else {
        Seq::<RegionEventsView>::empty()
    };
    if regions.len() == 0 {
        assert(regions.push(r).skip(1) =~= regions);
        assert(regions.push(r)[0] == r);
        assert(spec_kept_regions(regions, filter) == Seq::<RegionEventsView>::empty());
        assert(spec_kept_regions(regions.push(r), filter) =~= spec_kept_regions(regions, filter)
            + tail);
    } else {
        lemma_kept_regions_push(regions.skip(1), filter, r);
        assert(regions.push(r).skip(1) =~= regions.skip(1).push(r));
        assert(regions.push(r)[0] == regions[0]);
        assert(spec_kept_regions(regions.push(r), filter) =~= spec_kept_regions(regions, filter)
            + tail);
    }
}


/// Some recorded distribution is for class `t`.
pub open spec fn spec_records_class(ds: Seq<ClassCounter>, t: MutationType) -> bool {
    exists|k: int| 0 <= k < ds.len() && (#[trigger] ds[k]).mutation_type == t
}

proof fn lemma_records_class_push(ds: Seq<ClassCounter>, x: ClassCounter, t: MutationType)
    requires
        spec_records_class(ds, t),
    ensures
        spec_records_class(ds.push(x), t),
{
    let k = choose|k: int| 0 <= k < ds.len() && (#[trigger] ds[k]).mutation_type == t;
    assert(ds.push(x)[k].mutation_type == t);
}

/// Sample every class of one region's events: collect each class's
/// probabilities, sort them, and histogram `n` trials per class.
#[verifier::rlimit(100)]
#[verifier::spinoff_prover]
fn sample_region(events: &Vec<MutationEvent>, n: usize, drop_unknown: bool) -> (r: Vec<
    ClassCounter,
>)
    requires
        events@.len() < usize::MAX,
    ensures
        forall|k: int|
            0 <= k < r@.len() ==> {
                let d = #[trigger] r@[k];
                &&& spec_class_probs(events@, d.mutation_type).len() > 0
                &&& (drop_unknown ==> d.mutation_type != MutationType::Unknown)
                &&& suffix_sum(d.counter@, 0) == n
                &&& d.counter@.len() <= spec_class_probs(events@, d.mutation_type).len() + 1
            },
        forall|k: int|
            0 <= k < r@.len() - 1 ==> (#[trigger] r@[k]).mutation_type.spec_code() < r@[k
                + 1].mutation_type.spec_code(),
        forall|t: MutationType|
            spec_class_probs(events@, t).len() > 0 && !(drop_unknown && t
                == MutationType::Unknown) ==> #[trigger] spec_records_class(r@, t),
{
    let mut distributions: Vec<ClassCounter> = Vec::new();
    let mut ti: u8 = 0;
    while ti < 10
        invariant
            0 <= ti <= 10,
            events@.len() < usize::MAX,
            forall|k: int|
                0 <= k < distributions@.len() ==> {
                    let d = #[trigger] distributions@[k];
                    &&& spec_class_probs(events@, d.mutation_type).len() > 0
                    &&& (drop_unknown ==> d.mutation_type
                        != MutationType::Unknown)
                    &&& suffix_sum(d.counter@, 0) == n as int
                    &&& d.counter@.len() <= spec_class_probs(
                        events@,
                        d.mutation_type,
                    ).len() + 1
                    &&& d.mutation_type.spec_code() < ti
                }
            ,
            forall|k: int|
                0 <= k < distributions@.len() - 1
                    ==> (#[trigger] distributions@[k]).mutation_type.spec_code()
                    < distributions@[k + 1].mutation_type.spec_code(),
            forall|t: MutationType|
                t.spec_code() < ti && spec_class_probs(events@, t).len() > 0 && !(drop_unknown
                    && t == MutationType::Unknown) ==> #[trigger] spec_records_class(
                    distributions@,
                    t,
                ),
        decreases 10 - ti,
    {
        let t = MutationType::from_code(ti);
        proof {
            assert(t.spec_code() == ti);
        }
        if !(drop_unknown && matches!(t, MutationType::Unknown)) {
            // gather this class's probabilities
            let mut probs: Vec<u64> = Vec::new();
            let mut j: usize = 0;
            proof {
                assert(events@.take(0) =~= Seq::<MutationEvent>::empty());
                assert(spec_class_probs(Seq::<MutationEvent>::empty(), t) =~= Seq::<
                    u64,
                >::empty());
            }
            while j < events.len()
                invariant
                    0 <= j <= events@.len(),
                    events@.len() < usize::MAX,
                    probs@ == spec_class_probs(events@.take(j as int), t),
                    probs@.len() <= j,
                decreases events@.len() - j,
            {
                let ev = events[j];
                proof {
                    let pred = |e: MutationEvent| e.mutation_type == t;
                    let prefix = events@.take(j as int);
                    assert(prefix.push(ev) =~= events@.take(j as int + 1));
                    prefix.lemma_filter_push(ev, pred);
                    if pred(ev) {
                        assert(prefix.push(ev).filter(pred) == prefix.filter(pred).push(
                            ev,
                        ));
                        assert(prefix.push(ev).filter(pred).map_values(
                            |e: MutationEvent| e.probability,
                        ) =~= prefix.filter(pred).map_values(
                            |e: MutationEvent| e.probability,
                        ).push(ev.probability));
                    } else {
                        assert(prefix.push(ev).filter(pred) == prefix.filter(pred));
                    }
                }
                if ev.mutation_type.code() == t.code() {
                    proof {
                        assert(ev.mutation_type == t) by {
                            MutationType::lemma_code_injective(ev.mutation_type, t);
                        };
                    }
                    probs.push(ev.probability);
                } else {
                    proof {
                        assert(ev.mutation_type != t);
                    }
                }
                j = j + 1;
            }
            proof {
                assert(events@.take(events@.len() as int) =~= events@);
            }
            if probs.len() > 0 {
                sort_probs(&mut probs);
                proof {
                    broadcast use vstd::seq_lib::group_to_multiset_ensures;

                }
                let counter = sample_class(&probs, n);
                let ghost dists_before = distributions@;
                distributions.push(ClassCounter { mutation_type: t, counter });
                proof {
                    let pushed = distributions@[distributions@.len() - 1];
                    assert(pushed.mutation_type == t);
                    assert(dists_before.push(pushed) =~= distributions@);
                    assert forall|t2: MutationType|
                        t2.spec_code() < ti + 1 && spec_class_probs(events@, t2).len() > 0 && !(
                        drop_unknown && t2 == MutationType::Unknown) implies
                        #[trigger] spec_records_class(distributions@, t2) by {
                        if t2.spec_code() < ti as int {
                            lemma_records_class_push(dists_before, pushed, t2);
                        } else {
                            MutationType::lemma_code_injective(t2, t);
                            assert(distributions@[distributions@.len() - 1].mutation_type == t2);
                        }
                    }
                }
            } else {
                proof {
                    assert(spec_class_probs(events@, t).len() == 0);
                    assert forall|t2: MutationType|
                        t2.spec_code() < ti + 1 && spec_class_probs(events@, t2).len() > 0 && !(
                        drop_unknown && t2 == MutationType::Unknown) implies
                        #[trigger] spec_records_class(distributions@, t2) by {
                        if t2.spec_code() == ti as int {
                            MutationType::lemma_code_injective(t2, t);
                        }
                    }
                }
            }
        } else {
            proof {
                assert(t == MutationType::Unknown && drop_unknown);
                assert forall|t2: MutationType|
                    t2.spec_code() < ti + 1 && spec_class_probs(events@, t2).len() > 0 && !(
                    drop_unknown && t2 == MutationType::Unknown) implies
                    #[trigger] spec_records_class(distributions@, t2) by {
                    if t2.spec_code() == ti as int {
                        MutationType::lemma_code_injective(t2, t);
                    }
                }
            }
        }
        ti = ti + 1;
    }
    proof {
        assert forall|t: MutationType|
            spec_class_probs(events@, t).len() > 0 && !(drop_unknown && t
                == MutationType::Unknown) implies #[trigger] spec_records_class(
            distributions@,
            t,
        ) by {
            assert(t.spec_code() < 10);
        }
    }
    distributions
}

/// A sampled region is well formed against its events when each recorded
/// class has at least one event, unknown events are honoured per the drop
/// flag, class codes are strictly increasing (so each class appears at
/// most once, in canonical order), each histogram's total is the number
/// of samplings, no outcome exceeds the class's number of events, and
/// every class with an event is recorded (minus the unknown class when
/// those are dropped).
pub open spec fn spec_sampled_wf(
    rs: RegionSampled,
    kept: RegionEventsView,
    n: int,
    drop_unknown: bool,
) -> bool {
    &&& rs.region@ == kept.region
    &&& forall|k: int|
        0 <= k < rs.distributions@.len() ==> {
            let d = #[trigger] rs.distributions@[k];
            &&& spec_class_probs(kept.events, d.mutation_type).len() > 0
            &&& (drop_unknown ==> d.mutation_type != MutationType::Unknown)
            &&& suffix_sum(d.counter@, 0) == n
            &&& d.counter@.len() <= spec_class_probs(kept.events, d.mutation_type).len() + 1
        }
    &&& forall|k: int|
        0 <= k < rs.distributions@.len() - 1
            ==> (#[trigger] rs.distributions@[k]).mutation_type.spec_code()
            < rs.distributions@[k + 1].mutation_type.spec_code()
    &&& forall|t: MutationType|
        spec_class_probs(kept.events, t).len() > 0 && !(drop_unknown && t
            == MutationType::Unknown) ==> #[trigger] spec_records_class(rs.distributions@, t)
}

/// Sample the empirical null distribution of every region and class.
/// Each class's sorted probability vector is hit with `number_of_samplings`
/// independent uniform thresholds; a trial's outcome is the number of
/// probabilities above its threshold.
#[verifier::rlimit(100)]
#[verifier::spinoff_prover]
pub fn sample_mutations(
    possible_mutations: &Vec<RegionEvents>,
    number_of_samplings: usize,
    drop_unknown_mutation_type: bool,
    filter_for_id: Option<&Vec<u8>>,
) -> (r: SampledMutations)
    requires
        forall|i: int|
            0 <= i < possible_mutations@.len() ==> (#[trigger] possible_mutations@[i]).events@.len()
                < usize::MAX,
    ensures
        r@.len() == spec_kept_regions(
            crate::enumerate::region_views(possible_mutations@),
            filter_view(filter_for_id),
        ).len(),
        forall|i: int|
            0 <= i < r@.len() ==> spec_sampled_wf(
                #[trigger] r@[i],
                spec_kept_regions(
                    crate::enumerate::region_views(possible_mutations@),
                    filter_view(filter_for_id),
                )[i],
                number_of_samplings as int,
                drop_unknown_mutation_type,
            ),
{
    let mut result: SampledMutations = Vec::new();
    let ghost fil = filter_view(filter_for_id);
    let ghost rvs = crate::enumerate::region_views(possible_mutations@);
    let mut a: usize = 0;
    proof {
        assert(rvs.take(0) =~= Seq::<RegionEventsView>::empty());
    }
    while a < possible_mutations.len()
        invariant
            0 <= a <= possible_mutations@.len(),
            fil == filter_view(filter_for_id),
            rvs == crate::enumerate::region_views(possible_mutations@),
            forall|i: int|
                0 <= i < possible_mutations@.len() ==> (#[trigger] possible_mutations@[i]).events@.len()
                    < usize::MAX,
            result@.len() == spec_kept_regions(rvs.take(a as int), fil).len(),
            forall|i: int|
                0 <= i < result@.len() ==> spec_sampled_wf(
                    #[trigger] result@[i],
                    spec_kept_regions(rvs.take(a as int), fil)[i],
                    number_of_samplings as int,
                    drop_unknown_mutation_type,
                ),
        decreases possible_mutations@.len() - a,
    {
        let entry = &possible_mutations[a];
        let keep = match filter_for_id {
            Some(f) => crate::text::bytes_eq(f.as_slice(), entry.region.as_slice()),
            None => true,
        };
        proof {
            assert(rvs[a as int] == entry@);
            if filter_for_id is Some && filter_for_id->0@ =~= entry.region@ {
                assert(filter_for_id->0@ == entry.region@);
            }
        }
        if keep {
            let distributions = sample_region(
                &entry.events,
                number_of_samplings,
                drop_unknown_mutation_type,
            );
            let rs = RegionSampled {
                region: crate::observed::clone_bytes(&entry.region),
                distributions,
            };
            let ghost rsv = rs;
            result.push(rs);
            proof {
                lemma_kept_regions_push(rvs.take(a as int), fil, rvs[a as int]);
                assert(rvs.take(a as int).push(rvs[a as int]) =~= rvs.take(a as int + 1));
                assert(spec_kept_regions(rvs.take(a as int + 1), fil) =~= spec_kept_regions(
                    rvs.take(a as int),
                    fil,
                ).push(rvs[a as int]));
                assert(spec_sampled_wf(
                    rsv,
                    rvs[a as int],
                    number_of_samplings as int,
                    drop_unknown_mutation_type,
                ));
            }
        } else {
            proof {
                lemma_kept_regions_push(rvs.take(a as int), fil, rvs[a as int]);
                assert(rvs.take(a as int).push(rvs[a as int]) =~= rvs.take(a as int + 1));
                assert(spec_kept_regions(rvs.take(a as int + 1), fil) =~= spec_kept_regions(
                    rvs.take(a as int),
                    fil,
                ));
            }
        }
        a = a + 1;
    }
    proof {
        assert(rvs.take(possible_mutations@.len() as int) =~= rvs);
    }
    result
}

} // verus!
