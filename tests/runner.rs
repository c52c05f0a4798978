use fastq_qc::cli::CliArgs;
use fastq_qc::runner::{assemble_reports, Statistic, StatisticReport, StreamEnd, WorkflowRunner};
use fastq_qc::stats::{Ratio, ReadQualityStatistic};

fn value(r: Ratio) -> f64 {
    r.numerator as f64 / r.denominator as f64
}

fn reports(runner: WorkflowRunner) -> Vec<StatisticReport> {
    assemble_reports(&runner.finalize())
}

fn read_quality(reports: &[StatisticReport]) -> Ratio {
    match &reports[0] {
        StatisticReport::AverageReadQuality(r) => *r,
        _ => panic!("first report is not the read quality"),
    }
}

#[test]
fn two_identical_records_average_forty() {
    let mut runner = WorkflowRunner::new();
    runner.register(Statistic::ReadQuality(ReadQualityStatistic::default()));
    let data = b"@a\nAGTC\n+\nIIII\n@b\nAGTC\n+\nIIII\n";
    assert_eq!(runner.process(data), StreamEnd::Complete);
    match &runner.statistics()[0] {
        Statistic::ReadQuality(s) => assert_eq!(s.read_count(), 2),
        _ => panic!("unexpected statistic"),
    }
    assert_eq!(value(read_quality(&reports(runner))), 40.0);
}

#[test]
fn default_runner_reports_three_keys() {
    let mut runner = WorkflowRunner::with_default_statistics();
    assert_eq!(runner.process(b"@x\nACGT\n+\nIIII\n"), StreamEnd::Complete);
    let r = reports(runner);
    assert_eq!(r.len(), 3);
    assert_eq!(value(read_quality(&r)), 40.0);
    match &r[1] {
        StatisticReport::AverageBaseQualityPerPosition(v) => {
            assert_eq!(v.len(), 4);
            assert!(v.iter().all(|m| value(*m) == 40.0));
        }
        _ => panic!("second report is not per position"),
    }
    match &r[2] {
        StatisticReport::BaseCompositionPerPosition(v) => {
            assert_eq!(value(v[0].a), 1.0);
            assert_eq!(value(v[1].c), 1.0);
            assert_eq!(value(v[2].g), 1.0);
            assert_eq!(value(v[3].t), 1.0);
            assert_eq!(value(v[3].other), 0.0);
        }
        _ => panic!("third report is not the composition"),
    }
}

#[test]
fn pooling_two_streams_matches_concatenation() {
    let a: &[u8] = b"@a\nACGT\n+\nII!!\n@b\nAC\n+\n55\n";
    let b: &[u8] = b"@c\nTTTTTT\n+\n!!!!II\n";
    let mut pooled = WorkflowRunner::with_default_statistics();
    assert_eq!(pooled.process(a), StreamEnd::Complete);
    assert_eq!(pooled.process(b), StreamEnd::Complete);
    let mut joined = WorkflowRunner::with_default_statistics();
    let both: Vec<u8> = a.iter().chain(b.iter()).copied().collect();
    assert_eq!(joined.process(&both), StreamEnd::Complete);
    assert_eq!(reports(pooled), reports(joined));
}

#[test]
fn empty_stream_reports_zero_defaults() {
    let mut runner = WorkflowRunner::with_default_statistics();
    assert_eq!(runner.process(b""), StreamEnd::Complete);
    let r = reports(runner);
    assert_eq!(read_quality(&r), Ratio { numerator: 0, denominator: 1 });
    assert_eq!(r[1], StatisticReport::AverageBaseQualityPerPosition(vec![]));
    assert_eq!(r[2], StatisticReport::BaseCompositionPerPosition(vec![]));
}

#[test]
fn truncated_stream_keeps_complete_records() {
    let mut runner = WorkflowRunner::with_default_statistics();
    let end = runner.process(b"@a\nAC\n+\nII\n@b\nGG\n");
    assert_eq!(end, StreamEnd::Truncated(2));
    match &runner.statistics()[0] {
        Statistic::ReadQuality(s) => assert_eq!(s.read_count(), 1),
        _ => panic!("unexpected statistic"),
    }
}

#[test]
fn runner_without_statistics_still_reads() {
    let mut runner = WorkflowRunner::new();
    assert_eq!(runner.process(b"@a\nAC\n+\nII\n@b"), StreamEnd::Truncated(1));
    assert!(runner.finalize().is_empty());
}

#[test]
fn cli_args_pairing() {
    let single = CliArgs { read1: "r1.fq".to_string(), read2: None };
    let paired = CliArgs { read1: "r1.fq".to_string(), read2: Some("r2.fq.gz".to_string()) };
    assert!(!single.is_paired());
    assert!(paired.is_paired());
}
