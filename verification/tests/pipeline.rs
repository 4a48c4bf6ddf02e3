//! Tests of the statistical pipeline: p-values, artifact round trips,
//! classification, enumeration, sampling and comparison.

use genovo::annotation::SeqAnnotation;
use genovo::classify::{classify_point, complement, FLANK};
use genovo::compare::{compare_mutations, sort_rows, tally_up_observed_mutations, ComparedMutations};
use genovo::counts::{DefaultCounter, ExpectedMutationCounts, Fraction, MutationTypeCounts};
use genovo::enumerate::{
    enumerate_possible_mutations, MutationEvent, PossibleMutations, RegionEvents, RegionInput,
    SiteRates,
};
use genovo::expect::{expected_number_of_mutations, RegionExpected};
use genovo::interval::{Interval, Phase, Strand, CDS};
use genovo::io::is_terminal_io_file;
use genovo::mutation_type::MutationType;
use genovo::observed::{classify_mutations, Change, Mutation};
use genovo::sample::{sample_mutations, ClassCounter, RegionSampled};
use genovo::serialize::{
    read_classified_mutations, read_expected_mutations, read_mutations_from_file,
    read_possible_mutations, read_sampled_mutations, read_sequence_annotations_from_file,
    write_classified_mutations, write_compared_mutations, write_expected_mutations,
    write_possible_mutations, write_sampled_mutations, write_sequence_annotations,
};
use genovo::text::FRAC_UNIT;
use genovo::transform::transform_gff3_annotations;

fn frac_value(f: Fraction) -> f64 {
    if f.den == 0 {
        0.0
    } else {
        f.num as f64 / f.den as f64
    }
}

#[test]
fn test_p_values() {
    let mut counter = DefaultCounter::new();
    counter.inc(5);
    for _ in 0..10 {
        counter.inc(6);
    }
    for _ in 0..20 {
        counter.inc(7);
    }
    for _ in 0..30 {
        counter.inc(8);
    }
    for _ in 0..39 {
        counter.inc(9);
    }
    let p_values = counter.p_values();
    assert_eq!(frac_value(p_values.n_hits_or_more(0)), 1.0);
    assert_eq!(frac_value(p_values.n_hits_or_more(5)), 1.0);
    assert_eq!(frac_value(p_values.n_hits_or_more(6)), 99.0 / 100.0);
    assert_eq!(frac_value(p_values.n_hits_or_more(7)), 89.0 / 100.0);
    assert_eq!(frac_value(p_values.n_hits_or_more(8)), 69.0 / 100.0);
    assert_eq!(frac_value(p_values.n_hits_or_more(9)), 39.0 / 100.0);
    assert_eq!(frac_value(p_values.n_hits_or_more(10)), 0.0);
}

/// A probability given as thousandths, in fixed-point units.
fn milli(m: u64) -> u64 {
    m * (FRAC_UNIT / 1000)
}

fn mevent(mut_type: MutationType, probability: u64) -> MutationEvent {
    MutationEvent::new(mut_type, probability)
}

#[test]
fn test_possible_mutations_io() {
    let mut pm: PossibleMutations = Vec::new();
    let text = write_possible_mutations(&pm);
    let pm2 = read_possible_mutations(&text).unwrap();
    assert_eq!(pm, pm2);

    pm.push(RegionEvents { region: b"foo".to_vec(), events: vec![] });
    let text = write_possible_mutations(&pm);
    let pm2 = read_possible_mutations(&text).unwrap();
    assert_eq!(pm, pm2);

    let events = vec![
        mevent(MutationType::Synonymous, milli(100)),
        mevent(MutationType::Missense, milli(200)),
        mevent(MutationType::Nonsense, milli(300)),
    ];
    pm.push(RegionEvents { region: b"bar".to_vec(), events });
    let text = write_possible_mutations(&pm);
    let pm2 = read_possible_mutations(&text).unwrap();
    assert_eq!(pm, pm2);

    pm.push(RegionEvents { region: b"baz".to_vec(), events: vec![] });
    let text = write_possible_mutations(&pm);
    let pm2 = read_possible_mutations(&text).unwrap();
    assert_eq!(pm, pm2);
}

#[test]
fn test_expected_mutations_io() {
    let mut em: Vec<RegionExpected> = Vec::new();
    let text = write_expected_mutations(&em);
    let em2 = read_expected_mutations(&text).unwrap();
    assert_eq!(em2.len(), 0);

    let counts1 = ExpectedMutationCounts {
        unknown: milli(1200) as u128,
        synonymous: milli(2300) as u128,
        missense: milli(3400) as u128,
        nonsense: milli(4500) as u128,
        start_codon: milli(5600) as u128,
        stop_loss: milli(6700) as u128,
        splice_site: milli(7800) as u128,
        intronic: 0,
        inframe_indel: 0,
        frameshift_indel: 0,
    };
    em.push(RegionExpected { region: b"foo".to_vec(), counts: counts1 });
    let text = write_expected_mutations(&em);
    let em2 = read_expected_mutations(&text).unwrap();
    assert_eq!(em2.len(), 1);
    assert_eq!(em2[0].counts, counts1);

    let counts2 = ExpectedMutationCounts {
        unknown: milli(2200) as u128,
        synonymous: milli(3300) as u128,
        missense: milli(4400) as u128,
        nonsense: milli(5500) as u128,
        start_codon: milli(6600) as u128,
        stop_loss: milli(7700) as u128,
        splice_site: milli(8800) as u128,
        intronic: 0,
        inframe_indel: 0,
        frameshift_indel: 0,
    };
    em.push(RegionExpected { region: b"bar".to_vec(), counts: counts2 });
    let text = write_expected_mutations(&em);
    let em2 = read_expected_mutations(&text).unwrap();
    assert_eq!(em2.len(), 2);
    assert_eq!(em2[0].counts, counts1);
    assert_eq!(em2[1].counts, counts2);
    assert_eq!(em, em2);
}

#[test]
fn test_observed_mutations_io() {
    let mut om: Vec<Mutation> = Vec::new();
    let text = write_classified_mutations(&om);
    let om2 = read_classified_mutations(&text).unwrap();
    assert_eq!(om2.len(), 0);

    om.push(Mutation {
        region: Some(b"my_gene".to_vec()),
        mutation_type: MutationType::Synonymous,
        chromosome: b"chr42".to_vec(),
        position: 42,
        change: Change::PointMutation(b'A', b'T'),
    });
    let text = write_classified_mutations(&om);
    let om2 = read_classified_mutations(&text).unwrap();
    assert_eq!(om, om2);

    om.push(Mutation {
        region: Some(b"my_other_gene".to_vec()),
        mutation_type: MutationType::Nonsense,
        chromosome: b"chrM".to_vec(),
        position: 4,
        change: Change::PointMutation(b'C', b'G'),
    });
    let text = write_classified_mutations(&om);
    let om2 = read_classified_mutations(&text).unwrap();
    assert_eq!(om, om2);

    let indel = Mutation::new(None, b"chrM".to_vec(), 4, b"ACGT".to_vec(), b"A".to_vec());
    om.push(indel);
    let text = write_classified_mutations(&om);
    let om2 = read_classified_mutations(&text).unwrap();
    assert_eq!(om, om2);
}

fn counter_of(text: &str) -> DefaultCounter {
    DefaultCounter::from_text(text.as_bytes()).unwrap()
}

#[test]
fn test_sampled_mutations_io() {
    let mut sm: Vec<RegionSampled> = Vec::new();
    let text = write_sampled_mutations(&sm);
    let sm2 = read_sampled_mutations(&text).unwrap();
    assert_eq!(sm2.len(), 0);

    let distributions1 = vec![
        ClassCounter { mutation_type: MutationType::Unknown, counter: counter_of("0|1|2|3|4") },
        ClassCounter { mutation_type: MutationType::Synonymous, counter: counter_of("10|20|30|40") },
        ClassCounter { mutation_type: MutationType::Missense, counter: counter_of("11|22|33|44") },
        ClassCounter { mutation_type: MutationType::Nonsense, counter: counter_of("2|3") },
        ClassCounter { mutation_type: MutationType::StartCodon, counter: counter_of("4") },
        ClassCounter { mutation_type: MutationType::StopLoss, counter: counter_of("5|6") },
        ClassCounter { mutation_type: MutationType::SpliceSite, counter: counter_of("0|0|5|6|7") },
    ];
    sm.push(RegionSampled { region: b"foo".to_vec(), distributions: distributions1.clone() });
    let text = write_sampled_mutations(&sm);
    let sm2 = read_sampled_mutations(&text).unwrap();
    assert_eq!(sm2.len(), 1);
    assert_eq!(sm2[0].distributions, distributions1);

    let distributions2 = vec![
        ClassCounter { mutation_type: MutationType::Unknown, counter: counter_of("1|1|2|3|4") },
        ClassCounter { mutation_type: MutationType::Synonymous, counter: counter_of("11|20|30|40") },
        ClassCounter { mutation_type: MutationType::Missense, counter: counter_of("12|22|33|44") },
        ClassCounter { mutation_type: MutationType::Nonsense, counter: counter_of("6|7") },
        ClassCounter { mutation_type: MutationType::StartCodon, counter: counter_of("5") },
        ClassCounter { mutation_type: MutationType::StopLoss, counter: counter_of("6|6") },
        ClassCounter { mutation_type: MutationType::SpliceSite, counter: counter_of("0|0|6|6|7") },
    ];
    sm.push(RegionSampled { region: b"bar".to_vec(), distributions: distributions2.clone() });
    let text = write_sampled_mutations(&sm);
    let sm2 = read_sampled_mutations(&text).unwrap();
    assert_eq!(sm2.len(), 2);
    assert_eq!(sm2[0].distributions, distributions1);
    assert_eq!(sm2[1].distributions, distributions2);
}

#[test]
fn test_gff3_io() {
    let anno_str = "# some coment
# another comment
chr1\ttest\tgene\t1\t100\t.\t+\t.\tattrs
chr1\ttest\tgene\t1\t100\t.\t+\t.\tattrs
chr1\ttest\tgene\t1\t100\t.\t+\t.\tattrs
chr1\ttest\ttranscript\t10\t90\t.\t+\t.\tfoo=bar;ID=transcript1;baz=quux
chr1\ttest\texon\t20\t30\t.\t+\t.\tID=ex1;Parent=transcript1
chr1\ttest\texon\t35\t40\t.\t+\t.\tID=ex2;Parent=transcript1
chr1\ttest\tCDS\t20\t25\t.\t+\t2\tParent=transcript1;ID=cds1;bla=bla
chr1\ttest\tCDS\t38\t40\t.\t+\t1\tbla=bla;Parent=transcript1;ID=cds2
chr2\ttest\ttranscript\t10\t90\t.\t+\t.\tfoo=bar;ID=transcript2;baz=quux
chr2\ttest\texon\t20\t30\t.\t+\t.\tID=ex3;Parent=transcript2
chr2\ttest\texon\t35\t40\t.\t+\t.\tID=ex4;Parent=transcript2
chr2\ttest\tCDS\t20\t25\t.\t+\t2\tParent=transcript2;ID=cds2;bla=bla
chr2\ttest\tCDS\t38\t40\t.\t+\t1\tbla=bla;Parent=transcript2;ID=cds3
";
    let annos = transform_gff3_annotations(anno_str.as_bytes(), None).unwrap();
    assert_eq!(annos.len(), 2);
    let a = &annos[0];
    assert_eq!(a.name, b"transcript1".to_vec());
    assert_eq!(a.chr, b"chr1".to_vec());
    assert_eq!(a.range, Interval::new(9, 90).unwrap());
    assert_eq!(a.exons.len(), 2);
    assert_eq!(a.exons[0], Interval::new(19, 30).unwrap());
    assert_eq!(a.exons[1], Interval::new(34, 40).unwrap());
    assert_eq!(a.coding_sequences.len(), 2);
    assert_eq!(a.coding_sequences[0].range, Interval::new(19, 25).unwrap());
    assert_eq!(a.coding_sequences[0].phase, Phase::Two);
    assert_eq!(a.coding_sequences[1].range, Interval::new(37, 40).unwrap());
    assert_eq!(a.coding_sequences[1].phase, Phase::One);

    let a = &annos[1];
    assert_eq!(a.name, b"transcript2".to_vec());
    assert_eq!(a.chr, b"chr2".to_vec());
    assert_eq!(a.range, Interval::new(9, 90).unwrap());
    assert_eq!(a.exons.len(), 2);
    assert_eq!(a.exons[0], Interval::new(19, 30).unwrap());
    assert_eq!(a.exons[1], Interval::new(34, 40).unwrap());
    assert_eq!(a.coding_sequences.len(), 2);
    assert_eq!(a.coding_sequences[0].range, Interval::new(19, 25).unwrap());
    assert_eq!(a.coding_sequences[0].phase, Phase::Two);
    assert_eq!(a.coding_sequences[1].range, Interval::new(37, 40).unwrap());
    assert_eq!(a.coding_sequences[1].phase, Phase::One);
}

#[test]
fn test_region_file_io() {
    let annos = vec![
        SeqAnnotation::new(
            b"transcript1".to_vec(),
            b"chr1".to_vec(),
            Interval::new(1, 100).unwrap(),
            Strand::Plus,
            vec![Interval::new(10, 20).unwrap(), Interval::new(30, 40).unwrap()],
            vec![
                CDS::new(Interval::new(15, 20).unwrap(), Phase::Two),
                CDS::new(Interval::new(32, 40).unwrap(), Phase::One),
            ],
        ),
        SeqAnnotation::new(
            b"transcript2".to_vec(),
            b"chr2".to_vec(),
            Interval::new(1, 100).unwrap(),
            Strand::Plus,
            vec![Interval::new(10, 20).unwrap(), Interval::new(30, 40).unwrap()],
            vec![
                CDS::new(Interval::new(15, 20).unwrap(), Phase::Two),
                CDS::new(Interval::new(32, 40).unwrap(), Phase::One),
            ],
        ),
    ];

    let text = write_sequence_annotations(&annos);
    let annos2 = read_sequence_annotations_from_file(&text, None).unwrap();
    assert_eq!(annos, annos2);
}

#[test]
fn indel_framing() {
    let c = Change::Indel(b"A".to_vec(), b"ACGT".to_vec());
    assert!(!c.is_frameshift());
    let c = Change::Indel(b"A".to_vec(), b"AC".to_vec());
    assert!(c.is_frameshift());
    let c = Change::Indel(b"ACGT".to_vec(), b"A".to_vec());
    assert!(!c.is_frameshift());
    let c = Change::Indel(b"AC".to_vec(), b"A".to_vec());
    assert!(c.is_frameshift());
    let c = Change::PointMutation(b'A', b'T');
    assert!(!c.is_frameshift());
}

/// One plus-strand transcript on `chr1` covering [10, 22) with a single
/// exon over the whole range and one coding segment [10, 22) in phase
/// zero. The coding sequence reads ATGGCTTGTTAA: a start codon, alanine,
/// cysteine, and a stop codon.
fn synthetic_annotation() -> (SeqAnnotation, Vec<u8>) {
    let anno = SeqAnnotation::new(
        b"gene1".to_vec(),
        b"chr1".to_vec(),
        Interval::new(10, 22).unwrap(),
        Strand::Plus,
        vec![Interval::new(10, 22).unwrap()],
        vec![CDS::new(Interval::new(10, 22).unwrap(), Phase::Zero)],
    );
    // two flanking bases on each side of the range
    let seq = b"GGATGGCTTGTTAACC".to_vec();
    assert_eq!(seq.len(), 12 + 2 * FLANK);
    (anno, seq)
}

#[test]
fn classify_point_mutations() {
    let (anno, seq) = synthetic_annotation();
    // GCT -> GCC: alanine stays alanine
    assert_eq!(classify_point(&anno, &seq, 15, b'C'), MutationType::Synonymous);
    // GCT -> GAT: alanine becomes aspartate
    assert_eq!(classify_point(&anno, &seq, 14, b'A'), MutationType::Missense);
    // TGT -> TGA: cysteine becomes a stop codon
    assert_eq!(classify_point(&anno, &seq, 18, b'A'), MutationType::Nonsense);
    // TAA -> CAA: the stop codon is lost
    assert_eq!(classify_point(&anno, &seq, 19, b'C'), MutationType::StopLoss);
    // ATG -> CTG: the start codon is disrupted
    assert_eq!(classify_point(&anno, &seq, 10, b'C'), MutationType::StartCodon);
}

#[test]
fn classify_minus_strand() {
    // the same coding sequence on the minus strand: genomic bases are the
    // reverse complement of ATGGCTTGTTAA, read right to left
    let anno = SeqAnnotation::new(
        b"gene2".to_vec(),
        b"chr1".to_vec(),
        Interval::new(10, 22).unwrap(),
        Strand::Minus,
        vec![Interval::new(10, 22).unwrap()],
        vec![CDS::new(Interval::new(10, 22).unwrap(), Phase::Zero)],
    );
    let coding: Vec<u8> = b"ATGGCTTGTTAA".to_vec();
    let mut genomic: Vec<u8> = coding.iter().rev().map(|&b| complement_of(b)).collect();
    let mut seq = b"GG".to_vec();
    seq.append(&mut genomic);
    seq.extend_from_slice(b"CC");
    // the genomic base at position 21 pairs with the first coding base;
    // changing it to G turns the start codon ATG into CTG
    let alt = complement_of(b'C');
    assert_eq!(classify_point(&anno, &seq, 21, alt), MutationType::StartCodon);
    // the base pairing with the third codon's middle base: TGT -> TGG is
    // cysteine to tryptophan
    let alt = complement_of(b'G');
    assert_eq!(classify_point(&anno, &seq, 13, alt), MutationType::Missense);
}

fn complement_of(b: u8) -> u8 {
    complement(b)
}

#[test]
fn classify_splice_and_intron() {
    // two exons with an intron [20, 30) between them
    let anno = SeqAnnotation::new(
        b"gene3".to_vec(),
        b"chr1".to_vec(),
        Interval::new(10, 40).unwrap(),
        Strand::Plus,
        vec![Interval::new(10, 20).unwrap(), Interval::new(30, 40).unwrap()],
        vec![],
    );
    let seq = vec![b'A'; 30 + 2 * FLANK];
    assert_eq!(classify_point(&anno, &seq, 20, b'C'), MutationType::SpliceSite);
    assert_eq!(classify_point(&anno, &seq, 21, b'C'), MutationType::SpliceSite);
    assert_eq!(classify_point(&anno, &seq, 28, b'C'), MutationType::SpliceSite);
    assert_eq!(classify_point(&anno, &seq, 29, b'C'), MutationType::SpliceSite);
    assert_eq!(classify_point(&anno, &seq, 25, b'C'), MutationType::Intronic);
}

#[test]
fn classify_observed_variants() {
    let (anno, seq) = synthetic_annotation();
    let observed = vec![
        Mutation::new(None, b"chr1".to_vec(), 15, b"T".to_vec(), b"C".to_vec()),
        Mutation::new(None, b"chr1".to_vec(), 14, b"C".to_vec(), b"A".to_vec()),
        Mutation::new(None, b"chr2".to_vec(), 15, b"T".to_vec(), b"C".to_vec()),
        Mutation::new(None, b"chr1".to_vec(), 12, b"G".to_vec(), b"GAT".to_vec()),
        Mutation::new(None, b"chr1".to_vec(), 12, b"G".to_vec(), b"GATC".to_vec()),
    ];
    let classified = classify_mutations(&observed, &vec![anno], &vec![seq], None);
    assert_eq!(classified.len(), 4);
    assert_eq!(classified[0].mutation_type, MutationType::Synonymous);
    assert_eq!(classified[0].region, Some(b"gene1".to_vec()));
    assert_eq!(classified[1].mutation_type, MutationType::Missense);
    assert_eq!(classified[2].mutation_type, MutationType::FrameshiftIndel);
    assert_eq!(classified[3].mutation_type, MutationType::InFrameIndel);
}

#[test]
fn enumerate_classifies_every_substitution() {
    let (anno, seq) = synthetic_annotation();
    let n = 12;
    let rates = vec![
        SiteRates {
            to_a: Some(milli(10)),
            to_c: Some(milli(10)),
            to_g: Some(milli(10)),
            to_t: Some(milli(10)),
        };
        n
    ];
    let inputs = vec![Some(RegionInput { seq, rates })];
    let pm = enumerate_possible_mutations(&vec![anno], &inputs, 1, 1, true, None);
    assert_eq!(pm.len(), 1);
    // three alternatives at each of the twelve sites
    assert_eq!(pm[0].events.len(), 36);
    assert_eq!(pm[0].region, b"gene1".to_vec());
    // the first site is the start codon's A: all three changes hit it
    assert_eq!(pm[0].events[0].mutation_type, MutationType::StartCodon);
    assert_eq!(pm[0].events[0].probability, milli(10));
    // no event survives with an unknown class when they are dropped
    for e in &pm[0].events {
        assert_ne!(e.mutation_type, MutationType::Unknown);
    }
}

#[test]
fn enumerate_scales_probabilities() {
    let (anno, seq) = synthetic_annotation();
    let rates = vec![
        SiteRates {
            to_a: Some(milli(100)),
            to_c: Some(milli(100)),
            to_g: Some(milli(100)),
            to_t: None,
        };
        12
    ];
    let inputs = vec![Some(RegionInput { seq, rates })];
    // scaling factor one half; unknown events kept for absent rates
    let pm = enumerate_possible_mutations(&vec![anno], &inputs, 1, 2, false, None);
    let events = &pm[0].events;
    let scaled: Vec<&MutationEvent> =
        events.iter().filter(|e| e.probability == milli(50)).collect();
    let nan_events: Vec<&MutationEvent> =
        events.iter().filter(|e| e.mutation_type == MutationType::Unknown).collect();
    assert!(!scaled.is_empty());
    // sites whose reference base is not T got an unknown event for the
    // missing T rate
    assert!(!nan_events.is_empty());
    for e in &nan_events {
        assert_eq!(e.probability, 0);
    }
}

#[test]
fn expected_counts_are_exact_sums() {
    let events = vec![
        mevent(MutationType::Synonymous, FRAC_UNIT),
        mevent(MutationType::Synonymous, FRAC_UNIT),
        mevent(MutationType::Missense, milli(250)),
        mevent(MutationType::Missense, milli(250)),
        mevent(MutationType::Missense, milli(500)),
    ];
    let pm = vec![RegionEvents { region: b"gene1".to_vec(), events }];
    let expected = expected_number_of_mutations(&pm, None);
    assert_eq!(expected.len(), 1);
    // the synonymous expectation is exactly two
    assert_eq!(expected[0].counts.synonymous, 2 * FRAC_UNIT as u128);
    // the missense expectation is exactly one
    assert_eq!(expected[0].counts.missense, FRAC_UNIT as u128);
    assert_eq!(expected[0].counts.nonsense, 0);
}

#[test]
fn sampling_histograms_the_trials() {
    let events = vec![
        mevent(MutationType::Synonymous, FRAC_UNIT / 2),
        mevent(MutationType::Synonymous, FRAC_UNIT / 4),
        mevent(MutationType::Unknown, FRAC_UNIT / 4),
    ];
    let pm = vec![RegionEvents { region: b"gene1".to_vec(), events }];
    let sampled = sample_mutations(&pm, 500, true, None);
    assert_eq!(sampled.len(), 1);
    assert_eq!(sampled[0].region, b"gene1".to_vec());
    // the unknown class was dropped
    assert_eq!(sampled[0].distributions.len(), 1);
    let d = &sampled[0].distributions[0];
    assert_eq!(d.mutation_type, MutationType::Synonymous);
    // every trial lands in a bin, and no outcome exceeds the two events
    let total = d.counter.total();
    assert_eq!(total, 500);
    let pv = d.counter.p_values();
    assert_eq!(frac_value(pv.n_hits_or_more(0)), 1.0);
    assert_eq!(frac_value(pv.n_hits_or_more(3)), 0.0);
}

#[test]
fn deterministic_sampling_with_sure_events() {
    // an event with probability one succeeds in every trial
    let events = vec![mevent(MutationType::Nonsense, FRAC_UNIT)];
    let pm = vec![RegionEvents { region: b"g".to_vec(), events }];
    let sampled = sample_mutations(&pm, 100, true, None);
    let d = &sampled[0].distributions[0];
    let pv = d.counter.p_values();
    // every trial saw exactly one mutation
    assert_eq!(frac_value(pv.n_hits_or_more(1)), 1.0);
    assert_eq!(frac_value(pv.n_hits_or_more(2)), 0.0);
}

#[test]
fn tally_counts_by_region_and_class() {
    let mut m1 = Mutation::new(None, b"chr1".to_vec(), 5, b"A".to_vec(), b"T".to_vec());
    m1.region = Some(b"g1".to_vec());
    m1.mutation_type = MutationType::Missense;
    let mut m2 = m1.clone();
    m2.mutation_type = MutationType::Synonymous;
    let mut m3 = m1.clone();
    m3.region = Some(b"g2".to_vec());
    let mutations = vec![m1.clone(), m2, m3, m1];
    let tally = tally_up_observed_mutations(&mutations, None);
    assert_eq!(tally.len(), 2);
    assert_eq!(tally[0].region, b"g1".to_vec());
    assert_eq!(tally[0].counts.get(MutationType::Missense), 2);
    assert_eq!(tally[0].counts.get(MutationType::Synonymous), 1);
    assert_eq!(tally[1].region, b"g2".to_vec());
    assert_eq!(tally[1].counts.get(MutationType::Missense), 1);

    // filtering keeps only the named region
    let filter = b"g2".to_vec();
    let tally = tally_up_observed_mutations(&mutations, Some(&filter));
    assert_eq!(tally.len(), 1);
    assert_eq!(tally[0].region, b"g2".to_vec());
}

#[test]
fn comparison_end_to_end() {
    // expected two synonymous mutations in gene1, none observed
    let events = vec![
        mevent(MutationType::Synonymous, FRAC_UNIT),
        mevent(MutationType::Synonymous, FRAC_UNIT),
    ];
    let pm = vec![RegionEvents { region: b"gene1".to_vec(), events }];
    let expected = expected_number_of_mutations(&pm, None);
    assert_eq!(expected[0].counts.synonymous, 2 * FRAC_UNIT as u128);
    let sampled = sample_mutations(&pm, 200, true, None);
    let classified: Vec<Mutation> = Vec::new();
    let rows = compare_mutations(&classified, &expected, &sampled, None);
    // only the synonymous class has a sampled distribution
    assert_eq!(rows.len(), 1);
    assert_eq!(rows[0].region, b"gene1".to_vec());
    assert_eq!(rows[0].mutation_type, MutationType::Synonymous);
    assert_eq!(rows[0].observed, 0);
    assert_eq!(rows[0].expected, 2 * FRAC_UNIT as u128);
    // a sure pair of events means every trial sees two hits, so seeing
    // zero or more is certain
    assert_eq!(frac_value(rows[0].p_value), 1.0);

    // an observed count above every sampled outcome has p-value zero
    let mut m = Mutation::new(None, b"chr1".to_vec(), 5, b"A".to_vec(), b"T".to_vec());
    m.region = Some(b"gene1".to_vec());
    m.mutation_type = MutationType::Synonymous;
    let classified = vec![m.clone(), m.clone(), m.clone()];
    let rows = compare_mutations(&classified, &expected, &sampled, None);
    assert_eq!(rows[0].observed, 3);
    assert_eq!(frac_value(rows[0].p_value), 0.0);
}

#[test]
fn comparison_skips_missing_regions() {
    // a region wholly absent from the sampled artifact contributes no
    // rows and does not abort the comparison
    let events = vec![mevent(MutationType::Missense, FRAC_UNIT)];
    let pm = vec![RegionEvents { region: b"kept".to_vec(), events }];
    let expected = vec![
        RegionExpected { region: b"lost".to_vec(), counts: ExpectedMutationCounts::default() },
        expected_number_of_mutations(&pm, None).remove(0),
    ];
    let sampled = sample_mutations(&pm, 10, true, None);
    let classified: Vec<Mutation> = Vec::new();
    let rows = compare_mutations(&classified, &expected, &sampled, None);
    assert_eq!(rows.len(), 1);
    assert_eq!(rows[0].region, b"kept".to_vec());

    let no_sampled: Vec<RegionSampled> = Vec::new();
    let rows = compare_mutations(&classified, &expected, &no_sampled, None);
    assert!(rows.is_empty());
}

#[test]
fn rows_sort_by_p_value() {
    let row = |num: u64, den: u64| ComparedMutations {
        region: b"g".to_vec(),
        mutation_type: MutationType::Missense,
        observed: 0,
        expected: 0,
        p_value: Fraction { num, den },
    };
    let mut rows = vec![row(3, 4), row(1, 4), row(1, 2)];
    sort_rows(&mut rows);
    assert_eq!(rows[0].p_value, Fraction { num: 1, den: 4 });
    assert_eq!(rows[1].p_value, Fraction { num: 1, den: 2 });
    assert_eq!(rows[2].p_value, Fraction { num: 3, den: 4 });
}

#[test]
fn significant_mutations_render() {
    let rows = vec![ComparedMutations {
        region: b"g".to_vec(),
        mutation_type: MutationType::Nonsense,
        observed: 2,
        expected: FRAC_UNIT as u128 / 2,
        p_value: Fraction { num: 1, den: 100 },
    }];
    let text = write_compared_mutations(&rows);
    let s = String::from_utf8(text).unwrap();
    assert!(s.starts_with("region\tmutation_type\tobserved\texpected\tp_value\n"));
    assert!(s.contains("g\tnonsense\t2\t0.500000000000\t0.010000000000\n"));
}

#[test]
fn observed_input_parses_vcf_like_lines() {
    let data = b"# a comment\nchr1 11 A T\nchr2 21 G GAC\n";
    let ms = read_mutations_from_file(data, -1).unwrap();
    assert_eq!(ms.len(), 2);
    assert_eq!(ms[0].chromosome, b"chr1".to_vec());
    assert_eq!(ms[0].position, 10);
    assert_eq!(ms[0].change, Change::PointMutation(b'A', b'T'));
    assert_eq!(ms[1].position, 20);
    assert_eq!(ms[1].change, Change::Indel(b"G".to_vec(), b"GAC".to_vec()));

    // a line with too few fields is rejected
    assert!(read_mutations_from_file(b"chr1 11 A\n", -1).is_err());
    // a position adjusted below zero is rejected
    assert!(read_mutations_from_file(b"chr1 0 A T\n", -1).is_err());
}

#[test]
fn terminal_paths() {
    assert!(is_terminal_io_file(b"-"));
    assert!(is_terminal_io_file(b"/dev/stdout"));
    assert!(is_terminal_io_file(b"/dev/stdin"));
    assert!(!is_terminal_io_file(b"out.tsv"));
}

#[test]
fn mutation_type_codes_and_names() {
    for code in 0u8..10 {
        let t = MutationType::from_code(code);
        assert_eq!(t.code(), code);
    }
    assert_eq!(MutationType::from_code(77), MutationType::Unknown);
    assert_eq!(MutationType::Synonymous.name(), b"synonymous".to_vec());
    assert_eq!(MutationType::FrameshiftIndel.name(), b"frameshift_indel".to_vec());
}

#[test]
fn counts_add_and_get() {
    let mut counts: MutationTypeCounts<usize> = MutationTypeCounts::default();
    counts.add(MutationType::Missense, 2);
    counts.add(MutationType::Missense, 1);
    counts.add(MutationType::Intronic, 5);
    assert_eq!(counts.get(MutationType::Missense), 3);
    assert_eq!(counts.get(MutationType::Intronic), 5);
    assert_eq!(counts.get(MutationType::Nonsense), 0);
    assert_eq!(MutationTypeCounts::<usize>::mutation_types().len(), 10);
}

#[test]
fn malformed_artifacts_are_rejected() {
    assert!(read_possible_mutations(b"1:0.5\n").is_err());
    assert!(read_possible_mutations(b"#g\nx:0.5\n").is_err());
    assert!(read_expected_mutations(b"header\nonly\tthree\tfields\n").is_err());
    assert!(read_sampled_mutations(b"header\ng\tnot|a|number\t\t\t\t\t\t\t\t\t\n").is_err());
    assert!(read_classified_mutations(b"header\ng\tchr1\tnotanumber\tmissense\tA->T\n").is_err());
    assert!(read_sequence_annotations_from_file(b"g\tchr1\t+\t1-2\n", None).is_err());
}

#[test]
fn enumerator_and_classifier_agree() {
    // the class the enumerator attaches at a site equals the class the
    // observed-variant path assigns to the same substitution
    let (anno, seq) = synthetic_annotation();
    let rates = vec![
        SiteRates {
            to_a: Some(milli(10)),
            to_c: Some(milli(10)),
            to_g: Some(milli(10)),
            to_t: Some(milli(10)),
        };
        12
    ];
    let inputs = vec![Some(RegionInput { seq: seq.clone(), rates })];
    let pm = enumerate_possible_mutations(&vec![anno.clone()], &inputs, 1, 1, true, None);
    let bases = [b'A', b'C', b'G', b'T'];
    let mut k = 0;
    for i in 0..12usize {
        let position = 10 + i;
        let ref_base = seq[i + FLANK];
        for &alt in &bases {
            if alt == ref_base {
                continue;
            }
            let event = &pm[0].events[k];
            k += 1;
            assert_eq!(event.mutation_type, classify_point(&anno, &seq, position, alt));
        }
    }
    assert_eq!(k, pm[0].events.len());
}

#[test]
fn missing_arguments_are_reported() {
    let value: Option<usize> = None;
    let err = genovo::io::require_initialization(&value, "--genomic-regions").unwrap_err();
    assert_eq!(err.argument(), "--genomic-regions");
    let value = Some(7usize);
    assert_eq!(*genovo::io::require_initialization(&value, "--x").unwrap(), 7);
}

#[test]
fn sampling_records_every_class_with_events() {
    let events = vec![
        mevent(MutationType::Synonymous, FRAC_UNIT / 2),
        mevent(MutationType::Missense, FRAC_UNIT / 4),
        mevent(MutationType::SpliceSite, FRAC_UNIT / 8),
        mevent(MutationType::Unknown, FRAC_UNIT / 8),
    ];
    let pm = vec![RegionEvents { region: b"g".to_vec(), events }];
    let sampled = sample_mutations(&pm, 50, true, None);
    let classes: Vec<MutationType> =
        sampled[0].distributions.iter().map(|d| d.mutation_type).collect();
    // every class with an event is recorded, in canonical order, and the
    // dropped unknown class is not
    assert_eq!(
        classes,
        vec![MutationType::Synonymous, MutationType::Missense, MutationType::SpliceSite]
    );

    // with unknown events kept, the unknown class is recorded too
    let pm = vec![RegionEvents {
        region: b"g".to_vec(),
        events: vec![mevent(MutationType::Unknown, FRAC_UNIT / 8)],
    }];
    let sampled = sample_mutations(&pm, 50, false, None);
    let classes: Vec<MutationType> =
        sampled[0].distributions.iter().map(|d| d.mutation_type).collect();
    assert_eq!(classes, vec![MutationType::Unknown]);
}

#[test]
fn duplicate_expected_regions_are_rejected() {
    let counts = ExpectedMutationCounts {
        unknown: 0,
        synonymous: milli(1000) as u128,
        missense: 0,
        nonsense: 0,
        start_codon: 0,
        stop_loss: 0,
        splice_site: 0,
        intronic: 0,
        inframe_indel: 0,
        frameshift_indel: 0,
    };
    let em = vec![
        RegionExpected { region: b"twice".to_vec(), counts },
        RegionExpected { region: b"twice".to_vec(), counts },
    ];
    let text = write_expected_mutations(&em);
    assert!(read_expected_mutations(&text).is_err());
}

#[test]
fn degenerate_region_intervals_are_rejected() {
    // a well-formed single-transcript regions file parses
    let good = b"g\tchr1\t+\t3-5\t3-5\t\t\n";
    let annos = read_sequence_annotations_from_file(good, None).unwrap();
    assert_eq!(annos.len(), 1);
    assert_eq!(annos[0].range, Interval::new(3, 5).unwrap());
    // an empty or inverted range is malformed
    let bad = b"g\tchr1\t+\t5-3\t\t\t\n";
    assert!(read_sequence_annotations_from_file(bad, None).is_err());
    let bad = b"g\tchr1\t+\t5-5\t\t\t\n";
    assert!(read_sequence_annotations_from_file(bad, None).is_err());
}

#[test]
fn parse_errors_name_the_line() {
    let err = read_possible_mutations(b"#g\nx:0.5\n").unwrap_err();
    let message = String::from_utf8(err.message().clone()).unwrap();
    assert!(message.contains("at line 2"));
    let err = transform_gff3_annotations(b"chr1\tx\ttranscript\tbad\n", None).unwrap_err();
    let message = String::from_utf8(err.message().clone()).unwrap();
    assert!(message.contains("at line 1"));
}

#[test]
fn change_fields_split_at_the_arrow() {
    // a dash inside a side does not break the field: only the arrow splits
    let text = b"region\tchromosome\tposition\tmutation_type\tchange\ng\tchr1\t7\tmissense\tA-C->T\n";
    let ms = read_classified_mutations(text).unwrap();
    assert_eq!(ms[0].change, Change::Indel(b"A-C".to_vec(), b"T".to_vec()));
    // a second arrow is malformed, as is an empty side
    assert!(read_classified_mutations(
        b"header\ng\tchr1\t7\tmissense\tA->T->G\n"
    )
    .is_err());
    assert!(read_classified_mutations(b"header\ng\tchr1\t7\tmissense\t->T\n").is_err());
    assert!(read_classified_mutations(b"header\ng\tchr1\t7\tmissense\tA->\n").is_err());
}
