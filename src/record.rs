//! The owned record handed to callers once a scan has found it.
use vstd::prelude::*;
use crate::fasta::Fasta;
use crate::util::{normalize, strip_whitespace};

verus! {

/// A record with its residues joined into one line.
#[derive(Clone, Debug, PartialEq)]
pub struct Sequence {
    pub id: Vec<u8>,
    pub seq: Vec<u8>,
    pub qual: Option<Vec<u8>>,
}

/// The identifier and residues of each record of `v`.
pub open spec fn contents(v: Seq<Sequence>) -> Seq<(Seq<u8>, Seq<u8>)> {
    v.map_values(|r: Sequence| (r.id@, r.seq@))
}

/// No record of `v` carries quality data.
pub open spec fn without_quality(v: Seq<Sequence>) -> bool {
    forall|i: int| 0 <= i < v.len() ==> (#[trigger] v[i]).qual is None
}

impl Sequence {
    /// The owned form of a scanned FASTA record: the header as it stands and
    /// the residues with their line terminators removed.
    pub fn from_fasta(fasta: &Fasta) -> (r: Sequence)
        ensures
            r.id@ == fasta.id@,
            r.seq@ == normalize(fasta.seq@),
            r.qual is None,
    {
        Sequence { id: vstd::slice::slice_to_vec(fasta.id), seq: strip_whitespace(fasta.seq), qual: None }
    }
}

} // verus!
