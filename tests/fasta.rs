use needletail::{parse_sequences, FastaReader, ParseErrorType};

#[test]
fn test_callback() {
    let res = parse_sequences(b">test\nAGCT\n>test2\nGATC");
    assert_eq!(res.records.len(), 2);
    assert_eq!(&res.records[0].id[..], b"test");
    assert_eq!(&res.records[0].seq[..], b"AGCT");
    assert_eq!(res.records[0].qual, None);
    assert_eq!(&res.records[1].id[..], b"test2");
    assert_eq!(&res.records[1].seq[..], b"GATC");
    assert_eq!(res.records[1].qual, None);
    assert_eq!(res.outcome, Some(Ok(())));
}

#[test]
fn test_wrapped_fasta() {
    let res = parse_sequences(b">test\nAGCT\nTCG\n>test2\nG");
    assert_eq!(res.records.len(), 2);
    assert_eq!(&res.records[0].id[..], b"test");
    assert_eq!(&res.records[0].seq[..], b"AGCTTCG");
    assert_eq!(res.records[0].qual, None);
    assert_eq!(&res.records[1].id[..], b"test2");
    assert_eq!(&res.records[1].seq[..], b"G");
    assert_eq!(res.records[1].qual, None);
    assert_eq!(res.outcome, Some(Ok(())));

    let res = parse_sequences(b">test\r\nAGCT\r\nTCG\r\n>test2\r\nG");
    assert_eq!(res.records.len(), 2);
    assert_eq!(&res.records[0].id[..], b"test");
    assert_eq!(&res.records[0].seq[..], b"AGCTTCG");
    assert_eq!(res.records[0].qual, None);
    assert_eq!(&res.records[1].id[..], b"test2");
    assert_eq!(&res.records[1].seq[..], b"G");
    assert_eq!(res.records[1].qual, None);
    assert_eq!(res.outcome, Some(Ok(())));
}

#[test]
fn test_premature_endings() {
    let res = parse_sequences(b">test\nAGCT\n>test2");
    assert_eq!(res.records.len(), 1);
    assert_eq!(&res.records[0].id[..], b"test");
    assert_eq!(&res.records[0].seq[..], b"AGCT");
    assert_eq!(res.records[0].qual, None);
    let e = res.outcome.unwrap().unwrap_err();
    assert_eq!(e.error_type, ParseErrorType::PrematureEOF);
    assert_eq!(e.record, 2);

    let res = parse_sequences(b">test\nACGT\n>test2\n");
    assert_eq!(res.records.len(), 1);
    assert_eq!(&res.records[0].id[..], b"test");
    assert_eq!(&res.records[0].seq[..], b"ACGT");
    let e = res.outcome.unwrap().unwrap_err();
    assert_eq!(e.error_type, ParseErrorType::PrematureEOF);
    assert_eq!(e.record, 2);
}

#[test]
fn test_empty_records() {
    let res = parse_sequences(b">\n\n>shine\nAGGAGGU");
    assert_eq!(res.records.len(), 2);
    assert_eq!(&res.records[0].id[..], b"");
    assert_eq!(&res.records[0].seq[..], b"");
    assert_eq!(res.records[0].qual, None);
    assert_eq!(&res.records[1].id[..], b"shine");
    assert_eq!(&res.records[1].seq[..], b"AGGAGGU");
    assert_eq!(res.records[1].qual, None);
    assert_eq!(res.outcome, Some(Ok(())));

    let res = parse_sequences(b">\r\n\r\n>shine\r\nAGGAGGU");
    assert_eq!(res.records.len(), 2);
    assert_eq!(&res.records[0].id[..], b"");
    assert_eq!(&res.records[0].seq[..], b"");
    assert_eq!(res.records[0].qual, None);
    assert_eq!(&res.records[1].id[..], b"shine");
    assert_eq!(&res.records[1].seq[..], b"AGGAGGU");
    assert_eq!(res.records[1].qual, None);
    assert_eq!(res.outcome, Some(Ok(())));
}

#[test]
fn test_reader() {
    let mut reader = FastaReader::new(b">test\nACGT");
    let rec = reader.next().unwrap().unwrap();
    assert_eq!(rec.id, b"test", "Record has the right ID");
    assert_eq!(rec.seq, b"ACGT", "Record has the right sequence");

    let mut reader = FastaReader::new(b">test");
    assert!(reader.next().is_none(), "Incomplete record returns None");
}
