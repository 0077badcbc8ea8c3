//! Byte-level helpers shared by the record scanners: line normalisation and
//! searches for record boundaries.
use vstd::prelude::*;

verus! {

/// A line-terminator byte: carriage return or line feed.
pub open spec fn is_line_byte(b: u8) -> bool {
    b == 10u8 || b == 13u8
}

/// The bytes of `s` with every carriage return and line feed removed.
pub open spec fn normalize(s: Seq<u8>) -> Seq<u8>
    decreases s.len(),
{
    if s.len() == 0 {
        Seq::empty()
    } else if is_line_byte(s.last()) {
        normalize(s.drop_last())
    } else {
        normalize(s.drop_last()).push(s.last())
    }
}

/// `s` without a single trailing carriage return, if it has one.
pub open spec fn strip_cr(s: Seq<u8>) -> Seq<u8> {
    if s.len() > 0 && s.last() == 13u8 {
        s.drop_last()
    } else {
        s
    }
}

/// Position `i` of `s` holds `b1` and position `i + 1` holds `b2`.
pub open spec fn pair_at(s: Seq<u8>, i: int, b1: u8, b2: u8) -> bool {
    0 <= i && i + 1 < s.len() && s[i] == b1 && s[i + 1] == b2
}

/// Relies on memchr::memchr: the index of the first occurrence of `needle`
/// in `haystack`, or `None` when the byte does not occur.
#[verifier::external_body]
pub(crate) fn find_byte(needle: u8, haystack: &[u8]) -> (r: Option<usize>)
    ensures
        match r {
            Some(i) => i < haystack@.len() && haystack@[i as int] == needle && forall|k: int|
                0 <= k < i ==> haystack@[k] != needle,
            None => forall|k: int| 0 <= k < haystack@.len() ==> haystack@[k] != needle,
        },
{
    memchr::memchr(needle, haystack)
}

/// The first position at which `b1` is immediately followed by `b2`.
pub fn memchr_both(b1: u8, b2: u8, seq: &[u8]) -> (r: Option<usize>)
    ensures
        match r {
            Some(i) => pair_at(seq@, i as int, b1, b2) && forall|k: int|
                0 <= k < i ==> !pair_at(seq@, k, b1, b2),
            None => forall|k: int| !pair_at(seq@, k, b1, b2),
        },
{
    let mut pos: usize = 0;
    loop
        invariant
            pos <= seq@.len(),
            forall|k: int| 0 <= k < pos ==> !pair_at(seq@, k, b1, b2),
        decreases seq@.len() - pos,
    {
        let rest = &seq[pos..seq.len()];
        match find_byte(b1, rest) {
            None => {
                assert forall|k: int| !pair_at(seq@, k, b1, b2) by {
                    if pos <= k < seq@.len() {
                        assert(rest@[k - pos] == seq@[k]);
                    }
                }
                return None;
            },
            Some(m) => {
                assert(rest@[m as int] == seq@[pos + m]);
                assert forall|k: int| pos <= k < pos + m implies !pair_at(seq@, k, b1, b2) by {
                    assert(rest@[k - pos] == seq@[k]);
                }
                if pos + m + 1 == seq.len() {
                    return None;
                } else if seq[pos + m + 1] == b2 {
                    return Some(pos + m);
                } else {
                    pos = pos + m + 1;
                }
            },
        }
    }
}

/// Appends the bytes of `b` to `out`.
pub(crate) fn push_all(out: &mut Vec<u8>, b: &[u8])
    ensures
        final(out)@ == old(out)@ + b@,
{
    let mut i: usize = 0;
    while i < b.len()
        invariant
            i <= b@.len(),
            out@ == old(out)@ + b@.take(i as int),
        decreases b@.len() - i,
    {
        out.push(b[i]);
        assert(b@.take(i + 1) == b@.take(i as int).push(b@[i as int]));
        i += 1;
    }
    assert(b@.take(b@.len() as int) == b@);
}

/// Removes every carriage return and line feed, joining wrapped lines into
/// one contiguous run of bytes.
pub fn strip_whitespace(seq: &[u8]) -> (r: Vec<u8>)
    ensures
        r@ == normalize(seq@),
{
    let mut out: Vec<u8> = Vec::new();
    let mut i: usize = 0;
    while i < seq.len()
        invariant
            i <= seq@.len(),
            out@ == normalize(seq@.take(i as int)),
        decreases seq@.len() - i,
    {
        let c = seq[i];
        assert(seq@.take(i + 1).drop_last() == seq@.take(i as int));
        if c != 13u8 && c != 10u8 {
            out.push(c);
        }
        i += 1;
    }
    assert(seq@.take(seq@.len() as int) == seq@);
    out
}

/// Normalising bytes that are already normalised changes nothing.
pub proof fn lemma_normalize_idempotent(s: Seq<u8>)
    ensures
        normalize(normalize(s)) == normalize(s),
    decreases s.len(),
{
    if s.len() > 0 {
        lemma_normalize_idempotent(s.drop_last());
        let rest = normalize(s.drop_last());
        if !is_line_byte(s.last()) {
            assert(rest.push(s.last()).drop_last() == rest);
        }
    }
}

/// Normalisation works byte by byte, so it distributes over concatenation.
pub proof fn lemma_normalize_concat(a: Seq<u8>, b: Seq<u8>)
    ensures
        normalize(a + b) == normalize(a) + normalize(b),
    decreases b.len(),
{
    if b.len() == 0 {
        assert(a + b == a);
        assert(normalize(a) + normalize(b) == normalize(a));
    } else {
        lemma_normalize_concat(a, b.drop_last());
        assert((a + b).drop_last() == a + b.drop_last());
        assert((a + b).last() == b.last());
        if !is_line_byte(b.last()) {
            assert(normalize(a) + normalize(b.drop_last()).push(b.last()) == (normalize(a)
                + normalize(b.drop_last())).push(b.last()));
        }
    }
}

} // verus!
