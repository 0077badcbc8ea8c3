//! The FASTA boundary scanner: finds complete records in a buffer, tells
//! "need more bytes" apart from malformed input, and frames records back
//! into text.
use vstd::prelude::*;
use crate::error::{snippet, text_of, Fault, ParseError, ParseErrorType};
use crate::record::Sequence;
use crate::util::{find_byte, is_line_byte, memchr_both, pair_at, push_all, strip_cr};

verus! {

/// The byte that starts a FASTA header line.
pub const SENTINEL: u8 = 62;

/// What one scan of a buffer finds.
pub enum Scan {
    /// A complete record: its header text, its residue bytes (line
    /// terminators still inside) and how many buffer bytes it occupies.
    Found(Seq<u8>, Seq<u8>, int),
    /// No complete record is visible yet.
    NeedMore,
    /// At the end of the stream, a header followed by nothing.
    Empty(Seq<u8>),
    /// The buffer does not begin with the sentinel.
    BadStart(Seq<u8>),
}

/// `i` is the first position of `s` that holds `b`.
pub open spec fn first_of(s: Seq<u8>, i: int, b: u8) -> bool {
    0 <= i < s.len() && s[i] == b && forall|k: int| 0 <= k < i ==> s[k] != b
}

/// `j` is the first position at or after `from` where a line feed is
/// followed by the sentinel, that is where the next record begins.
pub open spec fn first_break_from(s: Seq<u8>, from: int, j: int) -> bool {
    from <= j && pair_at(s, j, 10u8, SENTINEL) && forall|k: int|
        from <= k < j ==> !pair_at(s, k, 10u8, SENTINEL)
}

/// The scan of the unread bytes `s`; `last` tells whether the byte source
/// has reached the end of its input, so that no more bytes can follow.
pub open spec fn scan(s: Seq<u8>, last: bool) -> Scan {
    if s.len() == 0 {
        Scan::NeedMore
    } else if s[0] != SENTINEL {
        Scan::BadStart(snippet(s))
    } else if !(exists|i: int| first_of(s, i, 10u8)) {
        Scan::NeedMore
    } else {
        let nl = choose|i: int| first_of(s, i, 10u8);
        let id = strip_cr(s.subrange(1, nl));
        if exists|j: int| first_break_from(s, nl, j) {
            let j = choose|j: int| first_break_from(s, nl, j);
            Scan::Found(id, strip_cr(s.subrange(nl + 1, j + 1)), j + 1)
        } else if !last {
            Scan::NeedMore
        } else if nl + 1 == s.len() {
            Scan::Empty(id)
        } else {
            Scan::Found(id, strip_cr(s.subrange(nl + 1, s.len() as int)), s.len() as int)
        }
    }
}

/// The text form of a record: sentinel, header, line feed, residues, line feed.
pub open spec fn framed(id: Seq<u8>, seq: Seq<u8>) -> Seq<u8> {
    seq![SENTINEL] + id + seq![10u8] + seq + seq![10u8]
}

/// Why the stream may not end on the unread bytes `s`, if it may not.
pub open spec fn end_fault(s: Seq<u8>, last: bool) -> Option<Fault> {
    if !last {
        Some(Fault::AbruptEnd)
    } else if forall|k: int| 0 <= k < s.len() ==> is_line_byte(#[trigger] s[k]) {
        None
    } else {
        Some(Fault::ExtraData(snippet(s)))
    }
}

pub proof fn lemma_first_of_unique(s: Seq<u8>, i: int, b: u8)
    requires
        first_of(s, i, b),
    ensures
        (choose|k: int| first_of(s, k, b)) == i,
{
    let k = choose|k: int| first_of(s, k, b);
    assert(first_of(s, k, b));
    if k < i {
        assert(s[k] != b);
    } else if i < k {
        assert(s[i] != b);
    }
}

pub proof fn lemma_first_break_unique(s: Seq<u8>, from: int, j: int)
    requires
        first_break_from(s, from, j),
    ensures
        (choose|k: int| first_break_from(s, from, k)) == j,
{
    let k = choose|k: int| first_break_from(s, from, k);
    assert(first_break_from(s, from, k));
    if k < j {
        assert(!pair_at(s, k, 10u8, SENTINEL));
    } else if j < k {
        assert(!pair_at(s, j, 10u8, SENTINEL));
    }
}

/// A record found by a scan occupies at least one byte and at most the
/// buffer; when bytes are left, the next record's sentinel comes first; and
/// before the end of the stream a record is only found ahead of another one.
pub proof fn lemma_scan_found(s: Seq<u8>, last: bool)
    ensures
        match scan(s, last) {
            Scan::Found(id, body, used) => 0 < used <= s.len() && (used < s.len() ==> s[used]
                == SENTINEL) && (!last ==> used < s.len()),
            Scan::Empty(_) => last,
            _ => true,
        },
{
    if s.len() > 0 && s[0] == SENTINEL && exists|i: int| first_of(s, i, 10u8) {
        let nl = choose|i: int| first_of(s, i, 10u8);
        if exists|j: int| first_break_from(s, nl, j) {
            let j = choose|j: int| first_break_from(s, nl, j);
            assert(pair_at(s, j, 10u8, SENTINEL));
        }
    }
}

/// A record found before the end of the stream is the same record whatever
/// bytes follow, and whether or not the stream ends after them.
pub proof fn lemma_scan_extend(s: Seq<u8>, more: Seq<u8>, last: bool)
    requires
        s.len() > 0,
        s[0] == SENTINEL,
        scan(s, false) is Found,
    ensures
        scan(s + more, last) == scan(s, false),
{
    let t = s + more;
    assert(t[0] == SENTINEL);
    let nl = choose|i: int| first_of(s, i, 10u8);
    assert(first_of(s, nl, 10u8));
    assert(first_of(t, nl, 10u8));
    lemma_first_of_unique(t, nl, 10u8);
    let j = choose|j: int| first_break_from(s, nl, j);
    assert(first_break_from(s, nl, j));
    assert forall|k: int| nl <= k < j implies !pair_at(t, k, 10u8, SENTINEL) by {
        assert(!pair_at(s, k, 10u8, SENTINEL));
    }
    assert(first_break_from(t, nl, j));
    lemma_first_break_unique(t, nl, j);
    assert(t.subrange(1, nl) == s.subrange(1, nl));
    assert(t.subrange(nl + 1, j + 1) == s.subrange(nl + 1, j + 1));
}

/// A record as it stands in the scanned buffer.
#[derive(Debug)]
pub struct Fasta<'a> {
    pub id: &'a [u8],
    pub seq: &'a [u8],
}

impl<'a> Fasta<'a> {
    /// A view of an owned record, to write it back out.
    pub fn from_sequence(seq: &'a Sequence) -> (r: Fasta<'a>)
        ensures
            r.id@ == seq.id@,
            r.seq@ == seq.seq@,
    {
        Fasta { id: seq.id.as_slice(), seq: seq.seq.as_slice() }
    }

    /// Appends the text form of this record to `writer`.
    pub fn write(&self, writer: &mut Vec<u8>)
        ensures
            final(writer)@ == old(writer)@ + framed(self.id@, self.seq@),
    {
        writer.push(SENTINEL);
        push_all(writer, self.id);
        writer.push(10u8);
        push_all(writer, self.seq);
        writer.push(10u8);
        assert(final(writer)@ == old(writer)@ + framed(self.id@, self.seq@));
    }
}

/// Reads records one by one out of a buffer.
pub struct FastaReader<'a> {
    buf: &'a [u8],
    last: bool,
    pos: usize,
}

impl<'a> FastaReader<'a> {
    pub closed spec fn buffer(&self) -> Seq<u8> {
        self.buf@
    }

    pub closed spec fn is_last(&self) -> bool {
        self.last
    }

    /// How many bytes of the buffer the records read so far occupy.
    pub closed spec fn position(&self) -> int {
        self.pos as int
    }

    /// The bytes not yet read.
    pub open spec fn rest(&self) -> Seq<u8> {
        self.buffer().subrange(self.position(), self.buffer().len() as int)
    }

    pub open spec fn wf(&self) -> bool {
        0 <= self.position() <= self.buffer().len()
    }

    /// A reader over a whole input: nothing follows `buf`.
    pub fn new(buf: &'a [u8]) -> (r: FastaReader<'a>)
        ensures
            r.wf(),
            r.buffer() == buf@,
            r.is_last(),
            r.position() == 0,
    {
        FastaReader { buf, last: true, pos: 0 }
    }

    /// A reader over a buffer that more bytes may follow unless `last`.
    pub fn from_buffer(buf: &'a [u8], last: bool) -> (r: FastaReader<'a>)
        ensures
            r.wf(),
            r.buffer() == buf@,
            r.is_last() == last,
            r.position() == 0,
    {
        FastaReader { buf, last, pos: 0 }
    }

    /// How many bytes of the buffer the records read so far occupy.
    pub fn used(&self) -> (r: usize)
        ensures
            r == self.position(),
    {
        self.pos
    }

    /// Whether the stream may end where this reader stands.
    pub fn eof(&self) -> (r: Result<(), ParseError>)
        requires
            self.wf(),
        ensures
            match end_fault(self.rest(), self.is_last()) {
                None => r is Ok,
                Some(f) => match r {
                    Err(e) => e.describes(f) && e.record == 0,
                    Ok(_) => false,
                },
            },
    {
        check_end(&self.buf[self.pos..self.buf.len()], self.last)
    }

    /// The next record, `None` while none is complete, or the reason the
    /// bytes cannot be read as a record.
    pub fn next(&mut self) -> (r: Option<Result<Fasta<'a>, ParseError>>)
        requires
            old(self).wf(),
        ensures
            final(self).wf(),
            final(self).buffer() == old(self).buffer(),
            final(self).is_last() == old(self).is_last(),
            match scan(old(self).rest(), old(self).is_last()) {
                Scan::Found(id, body, used) => final(self).position() == old(self).position()
                    + used && match r {
                    Some(Ok(f)) => f.id@ == id && f.seq@ == body,
                    _ => false,
                },
                Scan::NeedMore => final(self).position() == old(self).position() && r is None,
                Scan::Empty(h) => final(self).position() == old(self).position() && match r {
                    Some(Err(e)) => e.describes(Fault::EmptySequence(h)) && e.record == 0,
                    _ => false,
                },
                Scan::BadStart(b) => final(self).position() == old(self).position() && match r {
                    Some(Err(e)) => e.describes(Fault::BadStart(b)) && e.record == 0,
                    _ => false,
                },
            },
    {
        let all: &'a [u8] = self.buf;
        let buf: &'a [u8] = &all[self.pos..all.len()];
        assert(buf@ == old(self).rest());
        if buf.len() == 0 {
            return None;
        }
        if buf[0] != SENTINEL {
            let end: usize = if buf.len() < 16 { buf.len() } else { 16 };
            assert(buf@.subrange(0, end as int) == snippet(buf@));
            let e = ParseError::new("Record does not begin with the sentinel", ParseErrorType::InvalidRecord);
            return Some(Err(e.context(text_of(&buf[0..end]))));
        }
        let nl = match find_byte(10u8, buf) {
            Some(i) => i,
            None => {
                return None;
            },
        };
        assert(first_of(buf@, nl as int, 10u8));
        proof {
            lemma_first_of_unique(buf@, nl as int, 10u8);
        }
        let mut id: &'a [u8] = &buf[1..nl];
        if id.len() > 0 && id[id.len() - 1] == 13u8 {
            id = &id[0..id.len() - 1];
        }
        assert(id@ == strip_cr(buf@.subrange(1, nl as int)));
        let rest: &'a [u8] = &buf[nl..buf.len()];
        assert forall|k: int| pair_at(rest@, k, 10u8, SENTINEL) <==> pair_at(buf@, nl + k, 10u8, SENTINEL) by {
            if 0 <= k && k + 1 < rest@.len() {
                assert(rest@[k] == buf@[nl + k]);
                assert(rest@[k + 1] == buf@[nl + k + 1]);
            }
        }
        let found = memchr_both(10u8, SENTINEL, rest);
        let seq_end: usize = match found {
            Some(i) => {
                assert forall|k: int| nl <= k < nl + i implies !pair_at(buf@, k, 10u8, SENTINEL) by {
                    assert(!pair_at(rest@, k - nl, 10u8, SENTINEL));
                }
                assert(first_break_from(buf@, nl as int, nl + i));
                proof {
                    lemma_first_break_unique(buf@, nl as int, nl + i);
                }
                nl + i + 1
            },
            None => {
                assert forall|j: int| !first_break_from(buf@, nl as int, j) by {
                    assert(!pair_at(rest@, j - nl, 10u8, SENTINEL));
                }
                if self.last {
                    buf.len()
                } else {
                    return None;
                }
            },
        };
        if found.is_none() && seq_end == nl + 1 {
            let e = ParseError::new("Sequence completely empty", ParseErrorType::PrematureEOF);
            return Some(Err(e.context(text_of(id))));
        }
        let mut seq: &'a [u8] = &buf[nl + 1..seq_end];
        if seq.len() > 0 && seq[seq.len() - 1] == 13u8 {
            seq = &seq[0..seq.len() - 1];
        }
        assert(seq@ == strip_cr(buf@.subrange(nl + 1, seq_end as int)));
        self.pos = self.pos + seq_end;
        Some(Ok(Fasta { id, seq }))
    }
}

/// Whether a stream may end on the unread bytes `buf`: only once the source
/// has reached its end, and only with line terminators left over.
pub fn check_end(buf: &[u8], last: bool) -> (r: Result<(), ParseError>)
    ensures
        match end_fault(buf@, last) {
            None => r is Ok,
            Some(f) => match r {
                Err(e) => e.describes(f) && e.record == 0,
                Ok(_) => false,
            },
        },
{
    if !last {
        return Err(ParseError::new("File ended abruptly", ParseErrorType::PrematureEOF));
    }
    let mut i: usize = 0;
    while i < buf.len()
        invariant
            last,
            i <= buf@.len(),
            forall|k: int| 0 <= k < i ==> is_line_byte(#[trigger] buf@[k]),
        decreases buf@.len() - i,
    {
        let c = buf[i];
        if c != 13u8 && c != 10u8 {
            let end: usize = if buf.len() < 16 { buf.len() } else { 16 };
            assert(buf@.subrange(0, end as int) == snippet(buf@));
            assert(!is_line_byte(buf@[i as int]));
            let e = ParseError::new("File had extra data past end of records", ParseErrorType::PrematureEOF);
            return Err(e.context(text_of(&buf[0..end])));
        }
        i += 1;
    }
    Ok(())
}

} // verus!
