//! Splitting of a log file, held in memory, into the contents and names of
//! smaller files: by a count of lines, by a count of bytes, or by the time
//! bucket that each line's leading timestamp falls into.
//!
//! Every function here computes on values: the input comes in as a slice of
//! bytes and the files come out as a list of names and contents. Reading the
//! input and creating the files is left to the caller.

pub mod dateex;
pub mod engine;
pub mod linebyte;
pub mod output;
pub mod source;
pub mod text;
pub mod timestamp;
