//! Incremental scanning of FASTA records from a byte stream.
//!
//! [`fasta::FastaReader`] finds complete records in a buffer and tells
//! "need more bytes" apart from malformed input; [`stream::StreamParser`]
//! recognises the format, takes the stream in chunk by chunk and checks how
//! it ends. Both are specified against the model in [`stream`], which also
//! states that the cut of the stream into chunks does not matter.
pub mod error;
pub mod fasta;
pub mod record;
pub mod stream;
pub mod util;

pub use error::{ParseError, ParseErrorType};
pub use fasta::{check_end, Fasta, FastaReader};
pub use record::Sequence;
pub use stream::{parse_chunks, parse_sequences, Format, Step, StreamParser};
