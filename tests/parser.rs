use fastq_qc::record::{FastqRecord, ParseStatus, LINES_PER_RECORD};
use fastq_qc::runner::WorkflowRunner;

#[test]
fn test_parse_record_reads_correct_fields() {
    let fastq_data = b"@SEQ_ID\nAGTC\n+\nIIII\n";

    let mut record = FastqRecord::default();
    let result = WorkflowRunner::parse_record(&fastq_data[..], 0, &mut record);

    assert!(matches!(result, ParseStatus::Parsed(_)));
    assert_eq!(record.seq(), b"AGTC");
    assert_eq!(record.qual(), b"IIII");
}

#[test]
fn parse_round_trip_strips_terminators() {
    let data = b"@id\nAGTC\n+\nIIII\n";
    let mut record = FastqRecord::default();
    assert_eq!(WorkflowRunner::parse_record(data, 0, &mut record), ParseStatus::Parsed(data.len()));
    assert_eq!(record.seq(), b"AGTC");
    assert_eq!(record.qual(), b"IIII");
    assert_eq!(WorkflowRunner::parse_record(data, data.len(), &mut record), ParseStatus::EndOfInput);
}

#[test]
fn parse_strips_carriage_returns_and_keeps_other_bytes() {
    let data = b"@id\r\nAG TC \r\n+x\r\nII II\r\n";
    let mut record = FastqRecord::default();
    assert_eq!(WorkflowRunner::parse_record(data, 0, &mut record), ParseStatus::Parsed(data.len()));
    assert_eq!(record.seq(), b"AG TC ");
    assert_eq!(record.qual(), b"II II");
}

#[test]
fn parse_last_line_without_newline() {
    let data = b"@id\nAC\n+\nII";
    let mut record = FastqRecord::default();
    assert_eq!(WorkflowRunner::parse_record(data, 0, &mut record), ParseStatus::Parsed(data.len()));
    assert_eq!(record.qual(), b"II");
}

#[test]
fn parse_consecutive_records() {
    let data = b"@a\nAC\n+\nII\n@b\nGGT\n+\n!!!\n";
    let mut record = FastqRecord::default();
    let next = match WorkflowRunner::parse_record(data, 0, &mut record) {
        ParseStatus::Parsed(n) => n,
        other => panic!("unexpected {:?}", other),
    };
    assert_eq!(next, 11);
    assert_eq!(WorkflowRunner::parse_record(data, next, &mut record), ParseStatus::Parsed(data.len()));
    assert_eq!(record.seq(), b"GGT");
    assert_eq!(record.qual(), b"!!!");
}

#[test]
fn parse_empty_input_is_clean_end() {
    let mut record = FastqRecord::new(b"A".to_vec(), b"I".to_vec());
    assert_eq!(WorkflowRunner::parse_record(b"", 0, &mut record), ParseStatus::EndOfInput);
    assert_eq!(record.seq(), b"A");
}

#[test]
fn parse_truncated_record_is_reported() {
    let mut record = FastqRecord::default();
    assert_eq!(WorkflowRunner::parse_record(b"@id\nAC\n", 0, &mut record), ParseStatus::Truncated(2));
    assert_eq!(WorkflowRunner::parse_record(b"@id", 0, &mut record), ParseStatus::Truncated(1));
    assert_eq!(WorkflowRunner::parse_record(b"@id\nAC\n+\n", 0, &mut record), ParseStatus::Truncated(3));
    assert!(record.seq().is_empty());
    assert_eq!(LINES_PER_RECORD, 4);
}
