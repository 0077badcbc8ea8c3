//! The streaming driver: recognises the format from the first byte, then
//! alternates between scanning the buffered bytes for records and taking in
//! the next chunk, and checks what is left when the input ends.
use vstd::prelude::*;
use vstd::seq_lib::lemma_flatten_concat;
use crate::error::{Fault, ParseError, ParseErrorType};
use crate::fasta::{check_end, end_fault, first_break_from, first_of, framed, lemma_first_of_unique, lemma_scan_extend, lemma_scan_found, scan, FastaReader, Scan, SENTINEL};
use crate::record::{contents, without_quality, Sequence};
use crate::util::{lemma_normalize_concat, normalize, pair_at, push_all, strip_cr};

verus! {

/// The unread bytes may begin a record: they are empty or start with the sentinel.
pub open spec fn starts_record(s: Seq<u8>) -> bool {
    s.len() == 0 || s[0] == SENTINEL
}

/// Scans `s` for one record after the other: the records found (header and
/// joined residues), the bytes left unread, and the fault that stopped the
/// scan, if one did.
pub open spec fn drain(s: Seq<u8>, last: bool) -> (Seq<(Seq<u8>, Seq<u8>)>, Seq<u8>, Option<Fault>)
    decreases s.len(),
{
    match scan(s, last) {
        Scan::Found(id, body, used) => if 0 < used <= s.len() {
            let d = drain(s.skip(used), last);
            (seq![(id, normalize(body))] + d.0, d.1, d.2)
        } else {
            (Seq::empty(), s, None)
        },
        Scan::NeedMore => (Seq::empty(), s, None),
        Scan::Empty(h) => (Seq::empty(), s, Some(Fault::EmptySequence(h))),
        Scan::BadStart(b) => (Seq::empty(), s, Some(Fault::BadStart(b))),
    }
}

pub proof fn lemma_drain(s: Seq<u8>, last: bool)
    requires
        starts_record(s),
    ensures
        drain(s, last).0.len() + drain(s, last).1.len() <= s.len(),
        !last ==> drain(s, last).2 is None,
        !last && s.len() > 0 ==> drain(s, last).1.len() > 0 && drain(s, last).1[0] == SENTINEL,
    decreases s.len(),
{
    lemma_scan_found(s, last);
    if let Scan::Found(id, body, used) = scan(s, last) {
        lemma_drain(s.skip(used), last);
    }
}

/// Scanning a prefix before the end of the stream, then the rest of the
/// stream after what it left unread, finds what scanning the whole finds.
pub proof fn lemma_drain_extend(s: Seq<u8>, more: Seq<u8>, last: bool)
    requires
        s.len() > 0,
        s[0] == SENTINEL,
    ensures
        ({
            let d = drain(s, false);
            let e = drain(d.1 + more, last);
            drain(s + more, last) == (d.0 + e.0, e.1, e.2)
        }),
    decreases s.len(),
{
    lemma_scan_found(s, false);
    match scan(s, false) {
        Scan::Found(id, body, used) => {
            lemma_scan_extend(s, more, last);
            lemma_scan_found(s + more, last);
            assert((s + more).skip(used) == s.skip(used) + more);
            lemma_drain_extend(s.skip(used), more, last);
            let d1 = drain(s.skip(used), false);
            let e = drain(d1.1 + more, last);
            assert(seq![(id, normalize(body))] + (d1.0 + e.0) == (seq![(id, normalize(body))] + d1.0) + e.0);
        },
        _ => {
            assert(Seq::<(Seq<u8>, Seq<u8>)>::empty() + drain(s + more, last).0 == drain(s + more, last).0);
        },
    }
}

/// The state of a stream being parsed.
pub struct ParserModel {
    /// Bytes taken in and not yet part of a record.
    pub pending: Seq<u8>,
    /// Records handed out so far.
    pub count: nat,
    /// The format has been recognised.
    pub started: bool,
    /// The stream has ended, successfully or not; nothing more happens.
    pub finished: bool,
}

/// What taking in one chunk does.
pub struct StepModel {
    pub next: ParserModel,
    /// Records completed by the chunk, in stream order.
    pub records: Seq<(Seq<u8>, Seq<u8>)>,
    /// The format was recognised by this chunk.
    pub detected: bool,
    /// How the stream ended, if it did: on success, or on a fault and the
    /// one-based index of the record it concerns (zero before any record).
    pub outcome: Option<Result<(), (Fault, nat)>>,
}

pub open spec fn initial() -> ParserModel {
    ParserModel { pending: Seq::empty(), count: 0, started: false, finished: false }
}

/// The states that a parser passes through.
pub open spec fn reachable(m: ParserModel) -> bool {
    &&& !m.started ==> m.pending.len() == 0
    &&& m.started && !m.finished ==> m.pending.len() > 0 && m.pending[0] == SENTINEL
}

/// Nothing happens.
pub open spec fn idle(m: ParserModel) -> StepModel {
    StepModel { next: m, records: Seq::empty(), detected: false, outcome: None }
}

/// The parser in state `m` takes in `chunk`; `at_end` tells whether the
/// byte source has reached the end of its input with it.
pub open spec fn step(m: ParserModel, chunk: Seq<u8>, at_end: bool) -> StepModel {
    let p = m.pending + chunk;
    if m.finished {
        idle(m)
    } else if !m.started && p.len() == 0 && !at_end {
        idle(m)
    } else if !m.started && (p.len() == 0 || p[0] != SENTINEL) {
        StepModel {
            next: ParserModel { finished: true, ..m },
            records: Seq::empty(),
            detected: false,
            outcome: Some(Err((Fault::NoFormat, 0))),
        }
    } else {
        let d = drain(p, at_end);
        let n = m.count + d.0.len();
        let done = ParserModel { pending: d.1, count: n, started: true, finished: true };
        let ended = match d.2 {
            Some(f) => Some(Err((f, n + 1))),
            None => if at_end {
                match end_fault(d.1, true) {
                    None => Some(Ok(())),
                    Some(f) => Some(Err((f, n + 1))),
                }
            } else {
                None
            },
        };
        StepModel {
            next: ParserModel { finished: ended is Some, ..done },
            records: d.0,
            detected: !m.started,
            outcome: ended,
        }
    }
}

/// `a` followed by `b`.
pub open spec fn then(a: StepModel, b: StepModel) -> StepModel {
    StepModel {
        next: b.next,
        records: a.records + b.records,
        detected: a.detected || b.detected,
        outcome: if a.outcome is Some {
            a.outcome
        } else {
            b.outcome
        },
    }
}

/// `a` and `b` hand out the same records, detect the format alike and end alike.
pub open spec fn same_result(a: StepModel, b: StepModel) -> bool {
    a.records == b.records && a.detected == b.detected && a.outcome == b.outcome
}

/// Taking in each chunk of `chunks` in turn, none of them the last.
pub open spec fn feed_all(m: ParserModel, chunks: Seq<Seq<u8>>) -> StepModel
    decreases chunks.len(),
{
    if chunks.len() == 0 {
        idle(m)
    } else {
        let a = step(m, chunks[0], false);
        then(a, feed_all(a.next, chunks.drop_first()))
    }
}

/// A whole stream delivered as `chunks`, followed by the end of input.
pub open spec fn run(chunks: Seq<Seq<u8>>) -> StepModel {
    let a = feed_all(initial(), chunks);
    then(a, step(a.next, Seq::empty(), true))
}

/// A whole stream delivered at once.
pub open spec fn parse(s: Seq<u8>) -> StepModel {
    step(initial(), s, true)
}

pub proof fn lemma_step_reachable(m: ParserModel, chunk: Seq<u8>, at_end: bool)
    requires
        reachable(m),
    ensures
        reachable(step(m, chunk, at_end).next),
        step(m, chunk, at_end).outcome is Some ==> step(m, chunk, at_end).next.finished,
        at_end ==> step(m, chunk, at_end).next.finished,
        !m.finished ==> step(m, chunk, at_end).next.count + step(m, chunk, at_end).next.pending.len()
            <= m.count + m.pending.len() + chunk.len(),
{
    let p = m.pending + chunk;
    if !m.finished && (m.started || (p.len() > 0 && p[0] == SENTINEL)) {
        lemma_drain(p, at_end);
    }
}

/// Splitting input in two chunks changes nothing: taking in `chunk` before
/// the end, then `more` at the end, is taking in both at once.
pub proof fn lemma_step_split(m: ParserModel, chunk: Seq<u8>, more: Seq<u8>)
    requires
        reachable(m),
    ensures
        ({
            let a = step(m, chunk, false);
            same_result(then(a, step(a.next, more, true)), step(m, chunk + more, true))
        }),
{
    let p = m.pending + chunk;
    let a = step(m, chunk, false);
    assert(m.pending + (chunk + more) == p + more);
    if m.finished {
    } else if !m.started && p.len() == 0 {
        assert(p + more == more);
        assert(a.next.pending + more == m.pending + (chunk + more));
    } else if !m.started && p[0] != SENTINEL {
        assert((p + more)[0] == p[0]);
    } else {
        lemma_drain(p, false);
        lemma_drain_extend(p, more, true);
        let d = drain(p, false);
        assert(a.next.pending == d.1);
    }
}

/// Taking in a stream chunk by chunk gives the same records, the same format
/// detection and the same ending as taking it in at once, however it is cut.
#[verifier::rlimit(40)]
pub proof fn lemma_feed_all(m: ParserModel, chunks: Seq<Seq<u8>>, tail: Seq<u8>)
    requires
        reachable(m),
    ensures
        ({
            let a = feed_all(m, chunks);
            same_result(then(a, step(a.next, tail, true)), step(m, chunks.flatten() + tail, true))
        }),
    decreases chunks.len(),
{
    if chunks.len() == 0 {
        assert(chunks.flatten() + tail == tail);
        assert(Seq::<(Seq<u8>, Seq<u8>)>::empty() + step(m, tail, true).records == step(m, tail, true).records);
    } else {
        let a = step(m, chunks[0], false);
        lemma_step_reachable(m, chunks[0], false);
        let rest = chunks.drop_first();
        lemma_feed_all(a.next, rest, tail);
        lemma_step_split(m, chunks[0], rest.flatten() + tail);
        assert(chunks.flatten() + tail == chunks[0] + (rest.flatten() + tail));
        let b = feed_all(a.next, rest);
        let c = step(b.next, tail, true);
        assert(a.records + (b.records + c.records) == (a.records + b.records) + c.records);
    }
}

/// However a stream is cut into chunks, the records handed out, the format
/// detection and the way the stream ends are those of the whole stream.
pub proof fn lemma_chunk_boundaries_irrelevant(chunks: Seq<Seq<u8>>)
    ensures
        same_result(run(chunks), parse(chunks.flatten())),
{
    lemma_feed_all(initial(), chunks, Seq::empty());
    assert(chunks.flatten() + Seq::empty() == chunks.flatten());
}

/// Two cuttings of the same bytes give the same result.
pub proof fn lemma_same_bytes_same_records(a: Seq<Seq<u8>>, b: Seq<Seq<u8>>)
    requires
        a.flatten() == b.flatten(),
    ensures
        same_result(run(a), run(b)),
{
    lemma_chunk_boundaries_irrelevant(a);
    lemma_chunk_boundaries_irrelevant(b);
}

/// Writing a record and reading the text back gives the record again: its
/// header without a trailing carriage return and its residues joined into
/// one line. The header must be one line, and no residue line may begin with
/// the sentinel, or the text would hold another record.
pub proof fn lemma_write_then_parse(id: Seq<u8>, residues: Seq<u8>)
    requires
        forall|k: int| 0 <= k < id.len() ==> id[k] != 10u8,
        residues.len() == 0 || residues[0] != SENTINEL,
        forall|k: int| !pair_at(residues, k, 10u8, SENTINEL),
    ensures
        parse(framed(id, residues)).records == seq![(strip_cr(id), normalize(residues))],
        parse(framed(id, residues)).detected,
        parse(framed(id, residues)).outcome == Some(Ok::<(), (Fault, nat)>(())),
{
    let s = framed(id, residues);
    let nl: int = id.len() as int + 1;
    assert(s[0] == SENTINEL);
    assert(s[nl] == 10u8);
    assert forall|k: int| 0 <= k < nl implies s[k] != 10u8 by {
        if k > 0 {
            assert(s[k] == id[k - 1]);
        }
    }
    assert(first_of(s, nl, 10u8));
    lemma_first_of_unique(s, nl, 10u8);
    assert forall|j: int| !first_break_from(s, nl, j) by {
        if first_break_from(s, nl, j) {
            if j == nl {
                if residues.len() > 0 {
                    assert(s[nl + 1] == residues[0]);
                }
            } else if j + 1 < s.len() - 1 {
                assert(s[j] == residues[j - nl - 1]);
                assert(s[j + 1] == residues[j - nl]);
                assert(pair_at(residues, j - nl - 1, 10u8, SENTINEL));
            }
        }
    }
    let body = s.subrange(nl + 1, s.len() as int);
    assert(body == residues + seq![10u8]);
    assert(s.subrange(1, nl) == id);
    assert(scan(s, true) == Scan::Found(strip_cr(id), body, s.len() as int));
    assert(s.skip(s.len() as int) == Seq::<u8>::empty());
    assert(scan(Seq::<u8>::empty(), true) == Scan::NeedMore);
    lemma_normalize_concat(residues, seq![10u8]);
    assert(seq![10u8].drop_last() == Seq::<u8>::empty());
    assert(seq![10u8].last() == 10u8);
    assert(normalize(Seq::<u8>::empty()) == Seq::<u8>::empty());
    assert(normalize(seq![10u8]) == Seq::<u8>::empty());
    assert(normalize(residues) + Seq::<u8>::empty() == normalize(residues));
    assert(initial().pending + s == s);
    assert(normalize(body) == normalize(residues));
    let e = drain(s.skip(s.len() as int), true);
    assert(e.0 == Seq::<(Seq<u8>, Seq<u8>)>::empty());
    let d = drain(s, true);
    assert(d.0 == seq![(strip_cr(id), normalize(body))] + e.0);
    assert(d.0 == seq![(strip_cr(id), normalize(residues))]);
}

/// The record formats that a stream can be recognised as.
#[derive(Clone, Copy, Debug, PartialEq, Eq, Structural)]
pub enum Format {
    Fasta,
}

impl Format {
    /// The name handed to the format-detected callback.
    pub fn name(&self) -> (r: &'static str)
        ensures
            r@ == "FASTA"@,
    {
        "FASTA"
    }
}

/// What taking in one chunk produced.
#[derive(Debug)]
pub struct Step {
    /// The format, when this chunk let it be recognised.
    pub detected: Option<Format>,
    /// Records completed by the chunk, in stream order.
    pub records: Vec<Sequence>,
    /// How the stream ended, if it did.
    pub outcome: Option<Result<(), ParseError>>,
}

/// `o` reports the ending `m`.
pub open spec fn outcome_agrees(o: Option<Result<(), ParseError>>, m: Option<Result<(), (Fault, nat)>>) -> bool {
    match (o, m) {
        (None, None) => true,
        (Some(Ok(_)), Some(Ok(_))) => true,
        (Some(Err(e)), Some(Err((f, n)))) => e.describes(f) && e.record == n,
        _ => false,
    }
}

impl Step {
    /// This step hands out what `m` describes.
    pub open spec fn agrees(&self, m: StepModel) -> bool {
        &&& contents(self.records@) == m.records
        &&& without_quality(self.records@)
        &&& (self.detected is Some) == m.detected
        &&& outcome_agrees(self.outcome, m.outcome)
    }
}

/// A parser that is handed a stream chunk by chunk.
pub struct StreamParser {
    pending: Vec<u8>,
    count: usize,
    started: bool,
    finished: bool,
}

impl StreamParser {
    pub closed spec fn model(&self) -> ParserModel {
        ParserModel {
            pending: self.pending@,
            count: self.count as nat,
            started: self.started,
            finished: self.finished,
        }
    }

    /// A parser before the first byte of a stream.
    pub fn new() -> (r: StreamParser)
        ensures
            r.model() == initial(),
    {
        StreamParser { pending: Vec::new(), count: 0, started: false, finished: false }
    }

    /// Whether the stream has ended, so that further chunks change nothing.
    pub fn is_finished(&self) -> (r: bool)
        ensures
            r == self.model().finished,
    {
        self.finished
    }

    /// Takes in the next chunk of the stream; `at_end` tells that the byte
    /// source reached the end of its input with it.
    pub fn feed(&mut self, chunk: &[u8], at_end: bool) -> (r: Step)
        requires
            reachable(old(self).model()),
            old(self).model().count + old(self).model().pending.len() + chunk@.len() <= usize::MAX,
        ensures
            final(self).model() == step(old(self).model(), chunk@, at_end).next,
            r.agrees(step(old(self).model(), chunk@, at_end)),
    {
        let ghost m = self.model();
        let none: Vec<Sequence> = Vec::new();
        assert(contents(none@) =~= Seq::empty());
        if self.finished {
            return Step { detected: None, records: none, outcome: None };
        }
        let mut buf: Vec<u8> = Vec::new();
        push_all(&mut buf, self.pending.as_slice());
        push_all(&mut buf, chunk);
        let detected = !self.started;
        if !self.started {
            if buf.len() == 0 && !at_end {
                return Step { detected: None, records: none, outcome: None };
            }
            if buf.len() == 0 || buf[0] != SENTINEL {
                self.finished = true;
                let e = ParseError::new("Could not detect file type", ParseErrorType::InvalidHeader);
                return Step { detected: None, records: none, outcome: Some(Err(e)) };
            }
        }
        let found = if detected { Some(Format::Fasta) } else { None };
        let mut records: Vec<Sequence> = Vec::new();
        let mut reader = FastaReader::from_buffer(buf.as_slice(), at_end);
        assert(reader.rest() == buf@);
        assert(contents(records@) + drain(buf@, at_end).0 == drain(buf@, at_end).0);
        loop
            invariant
                self.model() == m,
                !m.finished,
                m == old(self).model(),
                buf@ == m.pending + chunk@,
                m.count + buf@.len() <= usize::MAX,
                m.started || (buf@.len() > 0 && buf@[0] == SENTINEL),
                detected == !m.started,
                found is Some <==> detected,
                reader.wf(),
                reader.buffer() == buf@,
                reader.is_last() == at_end,
                drain(buf@, at_end) == (contents(records@) + drain(reader.rest(), at_end).0, drain(
                    reader.rest(),
                    at_end,
                ).1, drain(reader.rest(), at_end).2),
                without_quality(records@),
                records@.len() + reader.rest().len() <= buf@.len(),
            decreases reader.rest().len(),
        {
            let ghost s = reader.rest();
            proof {
                lemma_scan_found(s, at_end);
            }
            match reader.next() {
                Some(Ok(f)) => {
                    let rec = Sequence::from_fasta(&f);
                    let ghost before = records@;
                    records.push(rec);
                    proof {
                        if let Scan::Found(id, body, used) = scan(s, at_end) {
                            assert(reader.rest() == s.skip(used));
                            let d = drain(s.skip(used), at_end);
                            assert(contents(records@) == contents(before).push((id, normalize(body))));
                            assert(contents(before) + (seq![(id, normalize(body))] + d.0)
                                == contents(records@) + d.0);
                        }
                        assert forall|i: int| 0 <= i < records@.len() implies (#[trigger] records@[i]).qual is None by {
                            if i < before.len() {
                                assert(records@[i] == before[i]);
                            }
                        }
                    }
                },
                Some(Err(e)) => {
                    let n = self.count + records.len();
                    let used = reader.used();
                    self.pending = vstd::slice::slice_to_vec(&buf[used..buf.len()]);
                    self.count = n;
                    self.started = true;
                    self.finished = true;
                    assert(contents(records@) + Seq::empty() == contents(records@));
                    return Step { detected: found, records, outcome: Some(Err(e.record(n + 1))) };
                },
                None => {
                    let n = self.count + records.len();
                    let used = reader.used();
                    let rest: &[u8] = &buf[used..buf.len()];
                    assert(rest@ == s);
                    assert(contents(records@) + Seq::empty() == contents(records@));
                    self.pending = vstd::slice::slice_to_vec(rest);
                    self.count = n;
                    self.started = true;
                    if at_end {
                        self.finished = true;
                        let outcome = match check_end(rest, true) {
                            Ok(()) => Ok(()),
                            Err(e) => {
                                assert(rest@.len() > 0);
                                Err(e.record(n + 1))
                            },
                        };
                        return Step { detected: found, records, outcome: Some(outcome) };
                    }
                    return Step { detected: found, records, outcome: None };
                },
            }
        }
    }
}

/// Parses a whole stream held in memory.
pub fn parse_sequences(data: &[u8]) -> (r: Step)
    ensures
        r.agrees(parse(data@)),
{
    let mut parser = StreamParser::new();
    proof {
        broadcast use vstd::slice::axiom_spec_len;
    }
    assert(data.len() == data@.len());
    parser.feed(data, true)
}

/// After the input `prefix`, which has handed out `acc` and left the parser
/// in state `m`, whatever follows until the end gives what the whole gives.
pub open spec fn continues(acc: StepModel, m: ParserModel, prefix: Seq<u8>) -> bool {
    forall|t: Seq<u8>| same_result(#[trigger] then(acc, step(m, t, true)), parse(prefix + t))
}

proof fn lemma_continues_start()
    ensures
        continues(idle(initial()), initial(), Seq::empty()),
{
    assert forall|t: Seq<u8>| same_result(#[trigger] then(idle(initial()), step(initial(), t, true)), parse(Seq::empty() + t)) by {
        assert(Seq::<u8>::empty() + t == t);
        let b = step(initial(), t, true);
        assert(Seq::<(Seq<u8>, Seq<u8>)>::empty() + b.records == b.records);
    }
}

proof fn lemma_then_assoc(x: StepModel, a: StepModel, b: StepModel, w: StepModel, target: StepModel)
    requires
        same_result(then(a, b), w),
        same_result(then(x, w), target),
    ensures
        same_result(then(then(x, a), b), target),
{
    assert(x.records + (a.records + b.records) == (x.records + a.records) + b.records);
}

proof fn lemma_continues_step(acc: StepModel, m: ParserModel, prefix: Seq<u8>, chunk: Seq<u8>)
    requires
        continues(acc, m, prefix),
        reachable(m),
    ensures
        continues(then(acc, step(m, chunk, false)), step(m, chunk, false).next, prefix + chunk),
{
    let a = step(m, chunk, false);
    assert forall|t: Seq<u8>| same_result(#[trigger] then(then(acc, a), step(a.next, t, true)), parse((prefix + chunk) + t)) by {
        lemma_step_split(m, chunk, t);
        assert(prefix + (chunk + t) == (prefix + chunk) + t);
        lemma_then_assoc(acc, a, step(a.next, t, true), step(m, chunk + t, true), parse(prefix + (chunk + t)));
    }
}

/// The bytes of each chunk of `chunks`.
pub open spec fn chunk_bytes(chunks: Seq<Vec<u8>>) -> Seq<Seq<u8>> {
    chunks.map_values(|c: Vec<u8>| c@)
}

/// Parses a stream that arrives as `chunks`, taking them in one at a time.
pub fn parse_chunks(chunks: &Vec<Vec<u8>>) -> (r: Step)
    requires
        chunk_bytes(chunks@).flatten().len() <= usize::MAX,
    ensures
        r.agrees(parse(chunk_bytes(chunks@).flatten())),
{
    let ghost all = chunk_bytes(chunks@);
    let mut parser = StreamParser::new();
    let mut records: Vec<Sequence> = Vec::new();
    let mut detected: Option<Format> = None;
    let mut outcome: Option<Result<(), ParseError>> = None;
    let ghost mut acc = idle(initial());
    proof {
        lemma_continues_start();
        assert(contents(records@) =~= Seq::empty());
        assert(all.take(0) =~= Seq::<Seq<u8>>::empty());
    }
    let mut i: usize = 0;
    while i < chunks.len()
        invariant
            i <= chunks@.len(),
            all == chunk_bytes(chunks@),
            all.flatten().len() <= usize::MAX,
            reachable(parser.model()),
            parser.model().count + parser.model().pending.len() <= all.take(i as int).flatten().len(),
            continues(acc, parser.model(), all.take(i as int).flatten()),
            contents(records@) == acc.records,
            without_quality(records@),
            (detected is Some) == acc.detected,
            outcome_agrees(outcome, acc.outcome),
        decreases chunks@.len() - i,
    {
        let ghost m = parser.model();
        let ghost prefix = all.take(i as int).flatten();
        proof {
            lemma_flatten_concat(all.take(i + 1), all.skip(i + 1));
            assert(all.take(i + 1) + all.skip(i + 1) == all);
            lemma_flatten_concat(all.take(i as int), seq![all[i as int]]);
            assert(all.take(i as int) + seq![all[i as int]] == all.take(i + 1));
            seq![all[i as int]].lemma_flatten_one_element();
            assert(all[i as int] == chunks@[i as int]@);
            lemma_step_reachable(m, chunks@[i as int]@, false);
            lemma_continues_step(acc, m, prefix, chunks@[i as int]@);
        }
        let mut st = parser.feed(chunks[i].as_slice(), false);
        let ghost before = records@;
        let ghost got = st.records@;
        records.append(&mut st.records);
        proof {
            let a = step(m, chunks@[i as int]@, false);
            assert(contents(records@) =~= contents(before) + a.records);
            assert forall|k: int| 0 <= k < records@.len() implies (#[trigger] records@[k]).qual is None by {
                if k < before.len() {
                    assert(records@[k] == before[k]);
                } else {
                    assert(records@[k] == got[k - before.len()]);
                }
            }
            acc = then(acc, a);
        }
        if detected.is_none() {
            detected = st.detected;
        }
        if outcome.is_none() {
            outcome = st.outcome;
        }
        i += 1;
    }
    proof {
        assert(all.take(i as int) == all);
    }
    let ghost m = parser.model();
    let empty: Vec<u8> = Vec::new();
    let mut st = parser.feed(empty.as_slice(), true);
    let ghost before = records@;
    let ghost got = st.records@;
    records.append(&mut st.records);
    proof {
        let z = step(m, Seq::empty(), true);
        assert(empty@ == Seq::<u8>::empty());
        assert(all.flatten() + Seq::<u8>::empty() == all.flatten());
        assert(same_result(then(acc, z), parse(all.flatten())));
        assert(contents(records@) =~= contents(before) + z.records);
        assert forall|k: int| 0 <= k < records@.len() implies (#[trigger] records@[k]).qual is None by {
            if k < before.len() {
                assert(records@[k] == before[k]);
            } else {
                assert(records@[k] == got[k - before.len()]);
            }
        }
    }
    if detected.is_none() {
        detected = st.detected;
    }
    if outcome.is_none() {
        outcome = st.outcome;
    }
    Step { detected, records, outcome }
}

} // verus!
