//! Run records: a block-delimited text format for one run of a command (META, COMMAND,
//! STDOUT, STDERR), its encoder and parser, the proof that what is written reads back, and the
//! decisions of the locked, atomic writer that appends records to a shared file.
use vstd::prelude::*;

pub mod encode;
pub mod meta;
pub mod outpath;
pub mod parser;
pub mod protocol;
pub mod roundtrip;
pub mod scratch;
pub mod shell;
pub mod text;
pub mod writer;

verus! {

} // verus!
