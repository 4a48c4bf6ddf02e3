//! Fixed-shape per-class counts, the dense outcome histogram, and the
//! right-tail p-values derived from it.

use vstd::prelude::*;

use crate::mutation_type::MutationType;
use crate::text::{
    all_digits, dec_digits, dec_value, is_digit, lemma_dec_digits_are_digits,
    lemma_dec_value_of_digits, lemma_split_join, parse_usize, pieces_free, render_usize, spec_join,
    spec_split, split, views,
};

verus! {

/// One value per consequence class; the closed taxonomy makes this a
/// fixed-shape record rather than a map.
#[derive(Clone, Copy, Debug, PartialEq)]
pub struct MutationTypeCounts<Count> {
    pub unknown: Count,
    pub synonymous: Count,
    pub missense: Count,
    pub nonsense: Count,
    pub start_codon: Count,
    pub stop_loss: Count,
    pub splice_site: Count,
    pub intronic: Count,
    pub inframe_indel: Count,
    pub frameshift_indel: Count,
}

/// Expected mutation counts per class, in decimal fixed-point units of
/// `1 / FRAC_UNIT`.
pub type ExpectedMutationCounts = MutationTypeCounts<u128>;

/// Observed mutation counts per class.
pub type ObservedMutationCounts = MutationTypeCounts<usize>;

impl<Count: Copy> MutationTypeCounts<Count> {
    pub open spec fn spec_get(self, mutation_type: MutationType) -> Count {
        match mutation_type {
            MutationType::Unknown => self.unknown,
            MutationType::Synonymous => self.synonymous,
            MutationType::Missense => self.missense,
            MutationType::Nonsense => self.nonsense,
            MutationType::StartCodon => self.start_codon,
            MutationType::StopLoss => self.stop_loss,
            MutationType::SpliceSite => self.splice_site,
            MutationType::Intronic => self.intronic,
            MutationType::InFrameIndel => self.inframe_indel,
            MutationType::FrameshiftIndel => self.frameshift_indel,
        }
    }

    pub fn get(&self, mutation_type: MutationType) -> (r: Count)
        ensures
            r == self.spec_get(mutation_type),
    {
        match mutation_type {
            MutationType::Unknown => self.unknown,
            MutationType::Synonymous => self.synonymous,
            MutationType::Missense => self.missense,
            MutationType::Nonsense => self.nonsense,
            MutationType::StartCodon => self.start_codon,
            MutationType::StopLoss => self.stop_loss,
            MutationType::SpliceSite => self.splice_site,
            MutationType::Intronic => self.intronic,
            MutationType::InFrameIndel => self.inframe_indel,
            MutationType::FrameshiftIndel => self.frameshift_indel,
        }
    }

    /// Every consequence class, in canonical order.
    pub fn mutation_types() -> (r: Vec<MutationType>)
        ensures
            r@ == MutationType::spec_canonical_order(),
    {
        MutationType::iter()
    }
}

impl Default for MutationTypeCounts<u128> {
    fn default() -> (r: Self)
        ensures
            forall|t: MutationType| #[trigger] r.spec_get(t) == 0,
    {
        MutationTypeCounts {
            unknown: 0,
            synonymous: 0,
            missense: 0,
            nonsense: 0,
            start_codon: 0,
            stop_loss: 0,
            splice_site: 0,
            intronic: 0,
            inframe_indel: 0,
            frameshift_indel: 0,
        }
    }
}

impl Default for MutationTypeCounts<usize> {
    fn default() -> (r: Self)
        ensures
            forall|t: MutationType| #[trigger] r.spec_get(t) == 0,
    {
        MutationTypeCounts {
            unknown: 0,
            synonymous: 0,
            missense: 0,
            nonsense: 0,
            start_codon: 0,
            stop_loss: 0,
            splice_site: 0,
            intronic: 0,
            inframe_indel: 0,
            frameshift_indel: 0,
        }
    }
}

impl MutationTypeCounts<u128> {
    /// Add `value` to the count of one class, leaving the rest unchanged.
    pub fn add(&mut self, mutation_type: MutationType, value: u128)
        requires
            old(self).spec_get(mutation_type) + value <= u128::MAX,
        ensures
            final(self).spec_get(mutation_type) == old(self).spec_get(mutation_type) + value,
            forall|t: MutationType|
                t != mutation_type ==> #[trigger] final(self).spec_get(t) == old(self).spec_get(t),
    {
        match mutation_type {
            MutationType::Unknown => self.unknown = self.unknown + value,
            MutationType::Synonymous => self.synonymous = self.synonymous + value,
            MutationType::Missense => self.missense = self.missense + value,
            MutationType::Nonsense => self.nonsense = self.nonsense + value,
            MutationType::StartCodon => self.start_codon = self.start_codon + value,
            MutationType::StopLoss => self.stop_loss = self.stop_loss + value,
            MutationType::SpliceSite => self.splice_site = self.splice_site + value,
            MutationType::Intronic => self.intronic = self.intronic + value,
            MutationType::InFrameIndel => self.inframe_indel = self.inframe_indel + value,
            MutationType::FrameshiftIndel => self.frameshift_indel = self.frameshift_indel + value,
        }
    }
}

impl MutationTypeCounts<usize> {
    /// Add `value` to the count of one class, leaving the rest unchanged.
    pub fn add(&mut self, mutation_type: MutationType, value: usize)
        requires
            old(self).spec_get(mutation_type) + value <= usize::MAX,
        ensures
            final(self).spec_get(mutation_type) == old(self).spec_get(mutation_type) + value,
            forall|t: MutationType|
                t != mutation_type ==> #[trigger] final(self).spec_get(t) == old(self).spec_get(t),
    {
        match mutation_type {
            MutationType::Unknown => self.unknown = self.unknown + value,
            MutationType::Synonymous => self.synonymous = self.synonymous + value,
            MutationType::Missense => self.missense = self.missense + value,
            MutationType::Nonsense => self.nonsense = self.nonsense + value,
            MutationType::StartCodon => self.start_codon = self.start_codon + value,
            MutationType::StopLoss => self.stop_loss = self.stop_loss + value,
            MutationType::SpliceSite => self.splice_site = self.splice_site + value,
            MutationType::Intronic => self.intronic = self.intronic + value,
            MutationType::InFrameIndel => self.inframe_indel = self.inframe_indel + value,
            MutationType::FrameshiftIndel => self.frameshift_indel = self.frameshift_indel + value,
        }
    }
}

/// The count stored at index `i`, counting absent indices as zero.
pub open spec fn tally_at(s: Seq<usize>, i: int) -> int {
    if 0 <= i < s.len() {
        s[i] as int
    } else {
        0
    }
}

/// Sum of the histogram entries from index `i` on.
pub open spec fn suffix_sum(s: Seq<usize>, i: int) -> int
    decreases s.len() - i,
{
    if i < 0 {
        suffix_sum(s, 0)
    } else if i >= s.len() {
        0
    } else {
        s[i] + suffix_sum(s, i + 1)
    }
}

pub proof fn lemma_suffix_sum_nonneg(s: Seq<usize>, i: int)
    ensures
        suffix_sum(s, i) >= 0,
    decreases s.len() - i + 1,
{
    if i < 0 {
        lemma_suffix_sum_nonneg(s, 0);
    } else if i < s.len() {
        lemma_suffix_sum_nonneg(s, i + 1);
    }
}

pub proof fn lemma_suffix_sum_bound(s: Seq<usize>, i: int)
    requires
        0 <= i <= s.len(),
    ensures
        suffix_sum(s, i) <= (s.len() - i) * usize::MAX,
    decreases s.len() - i,
{
    if i < s.len() {
        lemma_suffix_sum_bound(s, i + 1);
        assert((s.len() - i) * usize::MAX == (s.len() - (i + 1)) * usize::MAX + usize::MAX) by {
            vstd::arithmetic::mul::lemma_mul_is_distributive_add_other_way(
                usize::MAX as int,
                s.len() - (i + 1),
                1,
            );
            vstd::arithmetic::mul::lemma_mul_basics(usize::MAX as int);
        };
    }
}

/// A dense histogram: the value at index `i` is the number of times the
/// outcome "exactly `i` mutations" was recorded.
#[derive(Debug, PartialEq, Eq, Clone)]
pub struct DefaultCounter {
    values: Vec<usize>,
}

impl View for DefaultCounter {
    type V = Seq<usize>;

    closed spec fn view(&self) -> Seq<usize> {
        self.values@
    }
}

impl DefaultCounter {
    pub fn new() -> (r: DefaultCounter)
        ensures
            r@ == Seq::<usize>::empty(),
    {
        let r = DefaultCounter { values: Vec::new() };
        proof {
            assert(r@ =~= Seq::<usize>::empty());
        }
        r
    }

    /// Record one more observation of the outcome `index`, zero-extending
    /// the histogram as needed.
    pub fn inc(&mut self, index: usize)
        requires
            tally_at(old(self)@, index as int) < usize::MAX,
            index < usize::MAX,
        ensures
            final(self)@.len() == if old(self)@.len() > index as int {
                old(self)@.len() as int
            } else {
                index + 1
            },
            forall|j: int| #![auto]
                tally_at(final(self)@, j) == tally_at(old(self)@, j) + if j == index as int {
                    1int
                } else {
                    0int
                },
    {
        while self.values.len() <= index
            invariant
                self.values@.len() >= old(self)@.len(),
                self.values@.len() <= index + 1 || self.values@ == old(self)@,
                forall|j: int| #![auto] tally_at(self.values@, j) == tally_at(old(self)@, j),
            decreases index + 1 - self.values@.len(),
        {
            self.values.push(0);
        }
        let v = self.values[index];
        self.values.set(index, v + 1);
        proof {
            assert(forall|j: int| #![auto]
                tally_at(self.values@, j) == tally_at(old(self)@, j) + if j == index as int {
                    1int
                } else {
                    0int
                });
        }
    }

    /// The total number of recorded observations.
    pub fn total(&self) -> (r: u128)
        ensures
            r == suffix_sum(self@, 0),
    {
        let mut acc: u128 = 0;
        let mut i: usize = self.values.len();
        proof {
            lemma_suffix_sum_nonneg(self@, 0);
            lemma_total_fits(self@);
        }
        while i > 0
            invariant
                0 <= i <= self@.len(),
                acc == suffix_sum(self@, i as int),
                suffix_sum(self@, 0) <= u128::MAX,
            decreases i,
        {
            proof {
                lemma_suffix_sum_prefix(self@, i as int - 1);
                lemma_suffix_sum_nonneg(self@, i as int);
                lemma_suffix_sum_decreasing(self@, i as int - 1, i as int);
                lemma_suffix_sum_decreasing(self@, 0, i as int - 1);
            }
            i = i - 1;
            acc = acc + self.values[i] as u128;
        }
        acc
    }

    /// All right-tail p-values of this empirical distribution.
    ///
    /// This is a one-sided test with the right tail being significant.
    pub fn p_values(&self) -> (r: PValues)
        ensures
            r.spec_den() == suffix_sum(self@, 0),
            r.spec_len() == self@.len(),
            forall|i: int| 0 <= i < self@.len() ==> r.spec_num(i) == suffix_sum(self@, i),
            forall|i: int| !(0 <= i < self@.len()) ==> r.spec_num(i) == 0,
    {
        let mut suffix: Vec<u128> = Vec::new();
        let mut acc: u128 = 0;
        let mut i: usize = self.values.len();
        proof {
            lemma_suffix_sum_nonneg(self@, 0);
            lemma_total_fits(self@);
        }
        while i > 0
            invariant
                0 <= i <= self@.len(),
                acc == suffix_sum(self@, i as int),
                suffix_sum(self@, 0) <= u128::MAX,
                suffix@.len() == self@.len() - i,
                forall|j: int| #![auto]
                    i as int <= j < self@.len() ==> suffix@[self@.len() - 1 - j] == suffix_sum(
                        self@,
                        j,
                    ),
            decreases i,
        {
            proof {
                lemma_suffix_sum_prefix(self@, i as int - 1);
                lemma_suffix_sum_nonneg(self@, i as int);
                lemma_suffix_sum_decreasing(self@, 0, i as int - 1);
            }
            i = i - 1;
            acc = acc + self.values[i] as u128;
            suffix.push(acc);
        }
        let mut rev: Vec<u128> = Vec::new();
        let mut k: usize = suffix.len();
        while k > 0
            invariant
                0 <= k <= suffix@.len(),
                rev@.len() == suffix@.len() - k,
                forall|j: int| #![auto]
                    0 <= j < rev@.len() ==> rev@[j] == suffix@[suffix@.len() - 1 - j],
            decreases k,
        {
            k = k - 1;
            rev.push(suffix[k]);
        }
        proof {
            assert forall|j: int| 0 <= j < rev@.len() implies rev@[j] <= acc by {
                assert(rev@[j] == suffix_sum(self@, j));
                lemma_suffix_sum_decreasing(self@, 0, j);
            }
        }
        PValues { suffix: rev, total: acc }
    }

    /// Render the histogram as pipe-separated decimal counts.
    pub fn to_text(&self) -> (r: Vec<u8>)
        ensures
            r@ == spec_counter_text(self@),
    {
        let mut pieces: Vec<Vec<u8>> = Vec::new();
        let mut i: usize = 0;
        while i < self.values.len()
            invariant
                0 <= i <= self@.len(),
                views(pieces@) =~= self@.take(i as int).map_values(|n: usize| dec_digits(n as nat)),
            decreases self@.len() - i,
        {
            pieces.push(render_usize(self.values[i]));
            proof {
                assert(self@.take(i as int + 1).map_values(|n: usize| dec_digits(n as nat)) =~=
                    self@.take(i as int).map_values(|n: usize| dec_digits(n as nat)).push(
                    dec_digits(self@[i as int] as nat),
                ));
            }
            i = i + 1;
        }
        proof {
            assert(self@.take(self@.len() as int) =~= self@);
        }
        crate::text::join(&pieces, '|' as u8)
    }

    /// Parse a pipe-separated histogram; yields a counter exactly when
    /// every piece is a nonempty decimal count that fits.
    pub fn from_text(t: &[u8]) -> (r: Option<DefaultCounter>)
        ensures
            r is Some <==> spec_parse_counter(t@) is Some,
            r is Some ==> Some(r->0@) == spec_parse_counter(t@),
    {
        let pieces = split(t, '|' as u8);
        let mut values: Vec<usize> = Vec::new();
        let ghost ps = spec_split(t@, ('|' as u8));
        let mut i: usize = 0;
        while i < pieces.len()
            invariant
                0 <= i <= pieces@.len(),
                ps == spec_split(t@, ('|' as u8)),
                views(pieces@) == ps,
                forall|j: int| #![auto]
                    0 <= j < i ==> counter_piece_ok(ps[j]),
                values@.len() == i,
                forall|j: int| #![auto] 0 <= j < i ==> values@[j] == dec_value(ps[j]),
            decreases pieces@.len() - i,
        {
            proof {
                assert(views(pieces@)[i as int] == pieces@[i as int]@);
            }
            match parse_usize(&pieces[i]) {
                None => {
                    proof {
                        assert(ps.len() == pieces@.len());
                        assert(!counter_piece_ok(ps[i as int]));
                        assert(spec_split(t@, ('|' as u8)) == ps);
                        assert(!(forall|j: int|
                            0 <= j < spec_split(t@, ('|' as u8)).len() ==> counter_piece_ok(
                                #[trigger] spec_split(t@, ('|' as u8))[j],
                            )));
                        assert(spec_parse_counter(t@) is None);
                    }
                    return None;
                },
                Some(v) => {
                    values.push(v);
                },
            }
            i = i + 1;
        }
        let r = DefaultCounter { values };
        proof {
            assert(spec_parse_counter(t@) is Some);
            assert(r@ =~= spec_parse_counter(t@)->0);
        }
        Some(r)
    }
}

pub proof fn lemma_suffix_sum_prefix(s: Seq<usize>, i: int)
    requires
        0 <= i < s.len(),
    ensures
        suffix_sum(s, i) == s[i] + suffix_sum(s, i + 1),
{
}

/// The total of a histogram always fits the accumulator type.
pub proof fn lemma_total_fits(s: Seq<usize>)
    requires
        s.len() <= usize::MAX,
    ensures
        suffix_sum(s, 0) <= u128::MAX,
{
    lemma_suffix_sum_bound(s, 0);
    vstd::arithmetic::mul::lemma_mul_upper_bound(
        s.len() as int,
        u64::MAX as int,
        usize::MAX as int,
        u64::MAX as int,
    );
}

/// The pipe-separated rendering of a histogram.
pub open spec fn spec_counter_text(s: Seq<usize>) -> Seq<u8> {
    spec_join(s.map_values(|n: usize| dec_digits(n as nat)), ('|' as u8))
}

pub open spec fn counter_piece_ok(p: Seq<u8>) -> bool {
    p.len() > 0 && all_digits(p) && dec_value(p) <= usize::MAX
}

/// The histogram a pipe-separated byte string denotes, if well formed.
pub open spec fn spec_parse_counter(t: Seq<u8>) -> Option<Seq<usize>> {
    let ps = spec_split(t, ('|' as u8));
    if forall|j: int| 0 <= j < ps.len() ==> counter_piece_ok(#[trigger] ps[j]) {
        Some(ps.map_values(|p: Seq<u8>| dec_value(p) as usize))
    } else {
        None
    }
}

/// Reading a rendered histogram gives back the histogram: the round trip
/// law for the pipe-separated format (histograms with at least one bin).
pub proof fn lemma_counter_round_trip(s: Seq<usize>)
    requires
        s.len() >= 1,
    ensures
        spec_parse_counter(spec_counter_text(s)) == Some(s),
{
    let pieces = s.map_values(|n: usize| dec_digits(n as nat));
    assert forall|j: int| 0 <= j < pieces.len() implies counter_piece_ok(#[trigger] pieces[j]) by {
        lemma_dec_digits_are_digits(s[j] as nat);
        lemma_dec_value_of_digits(s[j] as nat);
    }
    assert(pieces_free(pieces, ('|' as u8))) by {
        assert forall|j: int| 0 <= j < pieces.len() implies crate::text::piece_free(
            #[trigger] pieces[j],
            ('|' as u8),
        ) by {
            lemma_dec_digits_are_digits(s[j] as nat);
            assert(forall|k: int|
                0 <= k < pieces[j].len() ==> is_digit(#[trigger] pieces[j][k]));
        }
    };
    lemma_split_join(pieces, ('|' as u8));
    assert(spec_parse_counter(spec_counter_text(s)) is Some);
    let back = spec_parse_counter(spec_counter_text(s))->0;
    assert forall|j: int| 0 <= j < s.len() implies back[j] == s[j] by {
        lemma_dec_value_of_digits(s[j] as nat);
    }
    assert(back =~= s);
}

/// A fraction of observation counts; `den` is the total number of
/// samplings and `num` how many of them meet the condition.
#[derive(Clone, Copy, Debug, PartialEq, Eq, Structural)]
pub struct Fraction {
    pub num: u64,
    pub den: u64,
}

/// All right-tail p-values of an empirical distribution: entry `i` holds
/// the number of samplings with outcome at least `i`.
pub struct PValues {
    suffix: Vec<u128>,
    total: u128,
}

impl PValues {
    /// No suffix count exceeds the total.
    #[verifier::type_invariant]
    spec fn inv(self) -> bool {
        forall|i: int| 0 <= i < self.suffix@.len() ==> #[trigger] self.suffix@[i] <= self.total
    }
}

impl PValues {
    pub closed spec fn spec_den(&self) -> int {
        self.total as int
    }

    pub closed spec fn spec_len(&self) -> int {
        self.suffix@.len() as int
    }

    /// Numerator of the p-value for at least `n` hits.
    pub closed spec fn spec_num(&self, n: int) -> int {
        if 0 <= n < self.suffix@.len() {
            self.suffix@[n] as int
        } else {
            0
        }
    }

    /// The empirical probability of observing at least `n` hits, as an
    /// exact fraction of the sampling total.
    pub fn n_hits_or_more(&self, n: usize) -> (r: Fraction)
        requires
            self.spec_den() <= u64::MAX,
        ensures
            r.num == self.spec_num(n as int),
            r.den == self.spec_den(),
    {
        proof {
            use_type_invariant(self);
        }
        if n < self.suffix.len() {
            Fraction { num: self.suffix[n] as u64, den: self.total as u64 }
        } else {
            Fraction { num: 0, den: self.total as u64 }
        }
    }
}

/// `pv` holds exactly the right-tail sums of the histogram `s`, as
/// `DefaultCounter::p_values` ensures.
pub open spec fn p_values_of(pv: PValues, s: Seq<usize>) -> bool {
    &&& pv.spec_den() == suffix_sum(s, 0)
    &&& pv.spec_len() == s.len()
    &&& forall|i: int| 0 <= i < s.len() ==> pv.spec_num(i) == suffix_sum(s, i)
}

pub proof fn lemma_suffix_sum_decreasing(s: Seq<usize>, i: int, j: int)
    requires
        0 <= i <= j,
    ensures
        suffix_sum(s, j) <= suffix_sum(s, i),
    decreases j - i,
{
    if i < j {
        lemma_suffix_sum_decreasing(s, i + 1, j);
    }
}

/// With at least one recorded observation, the p-value for "zero or more
/// hits" is one: its numerator equals its denominator.
pub proof fn lemma_p_value_at_zero_is_one(pv: PValues, s: Seq<usize>)
    requires
        p_values_of(pv, s),
        suffix_sum(s, 0) > 0,
    ensures
        pv.spec_num(0) == pv.spec_den(),
{
    assert(s.len() > 0);
}

/// The p-values never increase with the number of hits asked for.
pub proof fn lemma_p_values_non_increasing(pv: PValues, s: Seq<usize>, i: int, j: int)
    requires
        p_values_of(pv, s),
        0 <= i <= j,
    ensures
        pv.spec_num(j) <= pv.spec_num(i),
        pv.spec_num(i) <= pv.spec_den(),
{
    lemma_suffix_sum_decreasing(s, i, j);
    lemma_suffix_sum_decreasing(s, 0, i);
    lemma_suffix_sum_nonneg(s, j);
    lemma_suffix_sum_nonneg(s, i);
    if j >= s.len() {
        lemma_suffix_sum_nonneg(s, i);
    }
}

/// Strictly beyond the highest outcome with a nonzero bin the p-value is
/// zero.
pub proof fn lemma_p_value_beyond_highest_is_zero(pv: PValues, s: Seq<usize>, k: int)
    requires
        p_values_of(pv, s),
        0 <= k,
        forall|m: int| k <= m < s.len() ==> s[m] == 0,
    ensures
        pv.spec_num(k) == 0,
{
    lemma_suffix_sum_of_zeros(s, k);
}

pub proof fn lemma_suffix_sum_of_zeros(s: Seq<usize>, k: int)
    requires
        0 <= k,
        forall|m: int| k <= m < s.len() ==> s[m] == 0,
    ensures
        suffix_sum(s, k) == 0,
    decreases s.len() - k,
{
    if k < s.len() {
        lemma_suffix_sum_of_zeros(s, k + 1);
    }
}

} // verus!
