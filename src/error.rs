//! The error value reported by the scanners and the stream driver.
use vstd::prelude::*;

verus! {

/// What went wrong.
#[derive(Clone, Copy, Debug, PartialEq, Eq, Structural)]
pub enum ParseErrorType {
    /// The format of the stream could not be recognised from its first byte.
    InvalidHeader,
    /// A record does not begin where the format says it must.
    InvalidRecord,
    /// The stream ended before a record, or the stream itself, was complete.
    PrematureEOF,
    /// The byte source failed.
    IOError,
}

/// A failure, with the record it concerns and a few bytes of context.
#[derive(Clone, Debug, PartialEq)]
pub struct ParseError {
    pub msg: String,
    pub error_type: ParseErrorType,
    /// One-based index of the record being read when the failure occurred;
    /// zero before any record.
    pub record: usize,
    pub context: String,
}

/// The kinds of malformed input that the scanners and the driver report,
/// each with the raw bytes that its context is made from.
pub enum Fault {
    /// The first byte of the stream is no known record sentinel.
    NoFormat,
    /// A record that does not start with the sentinel; its first bytes.
    BadStart(Seq<u8>),
    /// A header with nothing after it at the end of the stream; the header.
    EmptySequence(Seq<u8>),
    /// The byte source stopped before signalling the end of its input.
    AbruptEnd,
    /// Bytes other than line terminators after the last record; the first of them.
    ExtraData(Seq<u8>),
}

/// Text made of `b`, with each invalid UTF-8 sequence replaced by U+FFFD.
pub uninterp spec fn lossy_text(b: Seq<u8>) -> Seq<char>;

/// Relies on String::from_utf8_lossy: its result depends on the bytes alone.
#[verifier::external_body]
pub(crate) fn text_of(b: &[u8]) -> (r: String)
    ensures
        r@ == lossy_text(b@),
{
    String::from_utf8_lossy(b).into_owned()
}

/// At most the first sixteen bytes of `s`.
pub open spec fn snippet(s: Seq<u8>) -> Seq<u8> {
    if s.len() <= 16 {
        s
    } else {
        s.take(16)
    }
}

impl ParseError {
    /// This error reports `f`: its kind, message and context.
    pub open spec fn describes(&self, f: Fault) -> bool {
        match f {
            Fault::NoFormat => self.error_type == ParseErrorType::InvalidHeader && self.msg@
                == "Could not detect file type"@ && self.context@ == Seq::<char>::empty(),
            Fault::BadStart(b) => self.error_type == ParseErrorType::InvalidRecord && self.msg@
                == "Record does not begin with the sentinel"@ && self.context@ == lossy_text(b),
            Fault::EmptySequence(h) => self.error_type == ParseErrorType::PrematureEOF && self.msg@
                == "Sequence completely empty"@ && self.context@ == lossy_text(h),
            Fault::AbruptEnd => self.error_type == ParseErrorType::PrematureEOF && self.msg@
                == "File ended abruptly"@ && self.context@ == Seq::<char>::empty(),
            Fault::ExtraData(b) => self.error_type == ParseErrorType::PrematureEOF && self.msg@
                == "File had extra data past end of records"@ && self.context@ == lossy_text(b),
        }
    }

    /// An error of the given kind and message, at record zero, without context.
    pub fn new(msg: &str, error_type: ParseErrorType) -> (r: ParseError)
        ensures
            r.msg@ == msg@,
            r.error_type == error_type,
            r.record == 0,
            r.context@ == Seq::<char>::empty(),
    {
        ParseError { msg: msg.to_owned(), error_type, record: 0, context: String::new() }
    }

    /// The same error, with `context` as its context.
    pub fn context(self, context: String) -> (r: ParseError)
        ensures
            r.msg == self.msg,
            r.error_type == self.error_type,
            r.record == self.record,
            r.context == context,
    {
        ParseError { context, ..self }
    }

    /// The same error, attributed to record `record`.
    pub fn record(self, record: usize) -> (r: ParseError)
        ensures
            r.msg == self.msg,
            r.error_type == self.error_type,
            r.record == record,
            r.context == self.context,
    {
        ParseError { record, ..self }
    }
}

} // verus!
