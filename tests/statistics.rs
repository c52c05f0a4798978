use fastq_qc::record::FastqRecord;
use fastq_qc::stats::{
    BaseCompositionStatistic, BaseQualityPosStatistic, Ratio, ReadQualityStatistic, MEAN_SCALE,
};

fn value(r: Ratio) -> f64 {
    r.numerator as f64 / r.denominator as f64
}

fn record(seq: &[u8], qual: &[u8]) -> FastqRecord {
    FastqRecord::new(seq.to_vec(), qual.to_vec())
}

#[test]
fn test_read_quality_statistic_on_example() {
    let record = record(b"AGTC", b"IIII");

    let mut stat = ReadQualityStatistic::default();
    stat.process(&record);

    assert_eq!(stat.read_count(), 1);
    assert_eq!(value(stat.total_quality()), 40.0);
}

#[test]
fn test_base_quality_pos_statistic() {
    let record = record(b"AGTC", b"IIII");

    let mut stat = BaseQualityPosStatistic::default();
    stat.process(&record);

    let expected = vec![40.0, 40.0, 40.0, 40.0];
    let result = stat.report();
    assert_eq!(result.len(), expected.len());
    for (i, val) in result.iter().enumerate() {
        let observed = value(*val);
        assert!(
            (observed - expected[i]).abs() < 1e-6,
            "Mismatch at position {}: got {}, expected {}",
            i,
            observed,
            expected[i]
        );
    }
}

#[test]
fn test_base_composition_statistic() {
    let record = record(b"ACGT", b"!!!!");

    let mut stat = BaseCompositionStatistic::default();
    stat.process(&record);

    let report = stat.report();
    let expected_bases = ["A", "C", "G", "T"];
    for (i, expected_base) in expected_bases.iter().enumerate() {
        let p = report[i];
        let all = [("A", p.a), ("C", p.c), ("G", p.g), ("T", p.t), ("N", p.other)];
        for (name, ratio) in all {
            let freq = value(ratio);
            if name == *expected_base {
                assert!((freq - 1.0).abs() < 1e-6, "Base {} at position {} was not 100%", name, i);
            } else {
                assert!(freq.abs() < 1e-6, "Unexpected non-zero value for base {} at position {}", name, i);
            }
        }
    }
}

#[test]
fn quality_is_code_minus_offset() {
    let mut stat = BaseQualityPosStatistic::default();
    stat.process(&record(b"AAA", b"!+I"));
    assert_eq!(stat.total_qualities(), &vec![0i64, 10, 40]);
    assert_eq!(stat.counts(), &vec![1u64, 1, 1]);
}

#[test]
fn codes_below_offset_give_negative_quality() {
    let mut stat = BaseQualityPosStatistic::default();
    stat.process(&record(b"A", b" "));
    assert_eq!(stat.report(), vec![Ratio { numerator: -1, denominator: 1 }]);
}

#[test]
fn uniform_line_of_any_length_means_forty() {
    for n in [1usize, 3, 17, 150] {
        let qual = vec![b'I'; n];
        let mut read = ReadQualityStatistic::default();
        let mut pos = BaseQualityPosStatistic::default();
        let rec = FastqRecord::new(vec![b'A'; n], qual);
        read.process(&rec);
        pos.process(&rec);
        assert_eq!(value(read.report()), 40.0);
        let means = pos.report();
        assert_eq!(means.len(), n);
        for m in means {
            assert_eq!(value(m), 40.0);
        }
    }
}

#[test]
fn read_quality_is_mean_of_read_means() {
    // Means 40 (one base) and 0 (three bases): mean of means is 20,
    // while the mean over all bases would be 10.
    let mut stat = ReadQualityStatistic::default();
    stat.process(&record(b"A", b"I"));
    stat.process(&record(b"AAA", b"!!!"));
    assert_eq!(stat.read_count(), 2);
    assert_eq!(value(stat.report()), 20.0);
}

#[test]
fn read_quality_exact_ratio() {
    let mut stat = ReadQualityStatistic::default();
    stat.process(&record(b"AC", b"I5"));
    // codes 73 and 53: mean code 63, mean quality 30
    let r = stat.report();
    assert_eq!(r.denominator, MEAN_SCALE);
    assert_eq!(r.numerator, 30 * MEAN_SCALE as i128);
}

#[test]
fn read_quality_of_empty_quality_line_is_zero() {
    let mut stat = ReadQualityStatistic::default();
    stat.process(&record(b"", b""));
    assert_eq!(stat.read_count(), 1);
    assert_eq!(value(stat.report()), 0.0);
}

#[test]
fn empty_statistics_report_defaults() {
    let read = ReadQualityStatistic::default();
    assert_eq!(read.report(), Ratio { numerator: 0, denominator: 1 });
    assert_eq!(read.read_count(), 0);
    assert!(BaseQualityPosStatistic::default().report().is_empty());
    assert!(BaseCompositionStatistic::default().report().is_empty());
}

#[test]
fn growth_keeps_earlier_positions() {
    let mut stat = BaseQualityPosStatistic::default();
    stat.process(&record(b"AAAA", b"IIII"));
    stat.process(&record(b"AAAAAAAA", b"!!!!!!!!"));
    assert_eq!(stat.counts(), &vec![2u64, 2, 2, 2, 1, 1, 1, 1]);
    assert_eq!(stat.total_qualities(), &vec![40i64, 40, 40, 40, 0, 0, 0, 0]);
    let means = stat.report();
    assert_eq!(value(means[0]), 20.0);
    assert_eq!(value(means[7]), 0.0);

    let mut comp = BaseCompositionStatistic::default();
    comp.process(&record(b"ACGT", b"IIII"));
    comp.process(&record(b"AAAAAAAA", b"IIIIIIII"));
    let counts = comp.base_counts();
    assert_eq!(counts.len(), 8);
    assert_eq!((counts[0].a, counts[1].a, counts[1].c), (2, 1, 1));
    assert_eq!(value(comp.report()[1].c), 0.5);
}

#[test]
fn composition_other_class_and_case() {
    let mut comp = BaseCompositionStatistic::default();
    comp.process(&record(b"NacgtA", b"IIIIII"));
    let counts = comp.base_counts();
    for i in 0..5 {
        assert_eq!(counts[i].other, 1);
    }
    assert_eq!(counts[5].a, 1);
}

#[test]
fn composition_proportions_sum_to_one() {
    let mut comp = BaseCompositionStatistic::default();
    comp.process(&record(b"ACG", b"III"));
    comp.process(&record(b"CCN", b"III"));
    comp.process(&record(b"GTA", b"III"));
    for p in comp.report() {
        let sum = value(p.a) + value(p.c) + value(p.g) + value(p.t) + value(p.other);
        assert!((sum - 1.0).abs() < 1e-9);
    }
    let r = comp.report();
    assert_eq!(r[0].a, Ratio { numerator: 1, denominator: 3 });
    assert_eq!(r[1].c, Ratio { numerator: 2, denominator: 3 });
}

#[test]
fn mismatched_lengths_index_separately() {
    let mut pos = BaseQualityPosStatistic::default();
    let mut comp = BaseCompositionStatistic::default();
    let rec = record(b"ACGTA", b"II");
    pos.process(&rec);
    comp.process(&rec);
    assert_eq!(pos.report().len(), 2);
    assert_eq!(comp.report().len(), 5);
}
