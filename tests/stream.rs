use needletail::stream::StreamParser;
use needletail::util::{memchr_both, strip_whitespace};
use needletail::{check_end, parse_chunks, parse_sequences, Fasta, FastaReader, Format, ParseError, ParseErrorType};

fn cut(data: &[u8], at: &[usize]) -> Vec<Vec<u8>> {
    let mut out = Vec::new();
    let mut start = 0;
    for &p in at {
        out.push(data[start..p].to_vec());
        start = p;
    }
    out.push(data[start..].to_vec());
    out
}

#[test]
fn first_byte_not_a_sentinel_is_rejected() {
    let res = parse_sequences(b"ACGT\n>x\nA");
    assert!(res.detected.is_none());
    assert!(res.records.is_empty());
    let e = res.outcome.unwrap().unwrap_err();
    assert_eq!(e.error_type, ParseErrorType::InvalidHeader);
    assert_eq!(e.record, 0);
    assert_eq!(e.msg, String::from("Could not detect file type"));
}

#[test]
fn empty_stream_is_rejected() {
    let res = parse_sequences(b"");
    assert!(res.detected.is_none());
    let e = res.outcome.unwrap().unwrap_err();
    assert_eq!(e.error_type, ParseErrorType::InvalidHeader);
    assert_eq!(e.record, 0);
}

#[test]
fn format_is_reported_once() {
    let res = parse_sequences(b">a\nAC\n");
    assert_eq!(res.detected, Some(Format::Fasta));
    assert_eq!(Format::Fasta.name(), "FASTA");
    let mut parser = StreamParser::new();
    let first = parser.feed(b">a\nA", false);
    assert_eq!(first.detected, Some(Format::Fasta));
    assert!(first.records.is_empty());
    assert!(first.outcome.is_none());
    let second = parser.feed(b"C\n>b\nG", false);
    assert!(second.detected.is_none());
    assert_eq!(second.records.len(), 1);
    assert_eq!(&second.records[0].seq[..], b"AC");
    let last = parser.feed(b"", true);
    assert_eq!(last.records.len(), 1);
    assert_eq!(&last.records[0].id[..], b"b");
    assert_eq!(last.outcome, Some(Ok(())));
    assert!(parser.is_finished());
    let after = parser.feed(b">c\nT\n", true);
    assert!(after.records.is_empty() && after.outcome.is_none());
}

#[test]
fn every_cut_gives_the_same_records() {
    let data: &[u8] = b">test\nAGCT\nTCG\n>test2\r\nG\n>\n\n>shine\nAGGAGGU\n";
    let whole = parse_sequences(data);
    assert_eq!(whole.records.len(), 4);
    for a in 0..=data.len() {
        for b in a..=data.len() {
            let res = parse_chunks(&cut(data, &[a, b]));
            assert_eq!(res.records, whole.records);
            assert_eq!(res.outcome, whole.outcome);
            assert_eq!(res.detected, whole.detected);
        }
    }
}

#[test]
fn cut_inside_a_residue_line() {
    let res = parse_chunks(&cut(b">test\nAGCT\n>test2\nGATC", &[8]));
    assert_eq!(res.records.len(), 2);
    assert_eq!(&res.records[0].seq[..], b"AGCT");
    assert_eq!(&res.records[1].seq[..], b"GATC");
    assert_eq!(res.outcome, Some(Ok(())));
    let res = parse_chunks(&cut(b">test\nAGCT\n>test2\nGATC", &[10, 11]));
    assert_eq!(res.records.len(), 2);
    assert_eq!(&res.records[0].seq[..], b"AGCT");
    assert_eq!(&res.records[1].id[..], b"test2");
}

#[test]
fn write_then_parse() {
    let rec = Fasta { id: b"seq one", seq: b"ACGT\nTT" };
    let mut out = Vec::new();
    rec.write(&mut out);
    assert_eq!(&out[..], b">seq one\nACGT\nTT\n");
    let res = parse_sequences(&out);
    assert_eq!(res.records.len(), 1);
    assert_eq!(&res.records[0].id[..], b"seq one");
    assert_eq!(&res.records[0].seq[..], b"ACGTTT");
    assert_eq!(res.outcome, Some(Ok(())));
}

#[test]
fn owned_record_writes_back() {
    let res = parse_sequences(b">r\nAC\nGT\n");
    let mut out = Vec::new();
    Fasta::from_sequence(&res.records[0]).write(&mut out);
    assert_eq!(&out[..], b">r\nACGT\n");
}

#[test]
fn normalising_twice_changes_nothing() {
    let once = strip_whitespace(b"AC\r\nGT\nT\r");
    assert_eq!(&once[..], b"ACGTT");
    assert_eq!(strip_whitespace(&once), once);
}

#[test]
fn header_followed_by_next_header_is_an_empty_record() {
    let res = parse_sequences(b">a\n>b\nAC");
    assert_eq!(res.records.len(), 2);
    assert_eq!(&res.records[0].id[..], b"a");
    assert_eq!(&res.records[0].seq[..], b"");
    assert_eq!(&res.records[1].seq[..], b"AC");
    assert_eq!(res.outcome, Some(Ok(())));
}

#[test]
fn sentinel_inside_a_line_is_residue_data() {
    let res = parse_sequences(b">a\nAC>GT\n");
    assert_eq!(res.records.len(), 1);
    assert_eq!(&res.records[0].seq[..], b"AC>GT");
}

#[test]
fn empty_sequence_error_carries_the_header() {
    let res = parse_sequences(b">lonely\n");
    let e = res.outcome.unwrap().unwrap_err();
    assert_eq!(e.error_type, ParseErrorType::PrematureEOF);
    assert_eq!(e.msg, String::from("Sequence completely empty"));
    assert_eq!(e.context, String::from("lonely"));
    assert_eq!(e.record, 1);
}

#[test]
fn check_end_accepts_line_terminators_only() {
    assert_eq!(check_end(b"\r\n\n", true), Ok(()));
    assert_eq!(check_end(b"", true), Ok(()));
    let e = check_end(b"", false).unwrap_err();
    assert_eq!(e.msg, String::from("File ended abruptly"));
    assert_eq!(e.error_type, ParseErrorType::PrematureEOF);
    let e = check_end(b"\nabcdefghijklmnopqrstuvwxyz", true).unwrap_err();
    assert_eq!(e.msg, String::from("File had extra data past end of records"));
    assert_eq!(e.context, String::from("\nabcdefghijklmno"));
    let e = check_end(b"xy", true).unwrap_err();
    assert_eq!(e.context, String::from("xy"));
}

#[test]
fn reader_waits_for_more_bytes_unless_last() {
    let mut reader = FastaReader::from_buffer(b">a\nACGT", false);
    assert!(reader.next().is_none());
    assert_eq!(reader.used(), 0);
    let mut reader = FastaReader::from_buffer(b">a\nAC\n>b\nG", false);
    let rec = reader.next().unwrap().unwrap();
    assert_eq!(rec.seq, b"AC\n");
    assert_eq!(reader.used(), 6);
    assert!(reader.next().is_none());
    assert!(reader.eof().is_err());
}

#[test]
fn reader_rejects_a_record_without_sentinel() {
    let mut reader = FastaReader::new(b"a\nAC");
    let e = reader.next().unwrap().unwrap_err();
    assert_eq!(e.error_type, ParseErrorType::InvalidRecord);
    assert_eq!(e.context, String::from("a\nAC"));
}

#[test]
fn pair_search_finds_the_first_pair() {
    assert_eq!(memchr_both(b'\n', b'>', b"AC\nGT\n>x"), Some(5));
    assert_eq!(memchr_both(b'\n', b'>', b"AC\nGT\n"), None);
    assert_eq!(memchr_both(b'\n', b'>', b""), None);
    assert_eq!(memchr_both(b'\n', b'>', b"\n>"), Some(0));
}

#[test]
fn error_builders_keep_other_fields() {
    let e = ParseError::new("m", ParseErrorType::IOError).record(3).context(String::from("c"));
    assert_eq!(e.msg, String::from("m"));
    assert_eq!(e.error_type, ParseErrorType::IOError);
    assert_eq!(e.record, 3);
    assert_eq!(e.context, String::from("c"));
}
