//! The files that a split produces, and their names.

use crate::text::{decimal_string, decimal_text};
use crate::timestamp::{stamp_label, stamp_text, Timestamp, NANOS_PER_SEC};
use vstd::prelude::*;
use vstd::string::*;

verus! {

/// One file to be created: its name and its whole content.
#[derive(Debug)]
pub struct OutputFile {
    pub name: String,
    pub content: Vec<u8>,
}

impl View for OutputFile {
    type V = (Seq<char>, Seq<u8>);

    open spec fn view(&self) -> (Seq<char>, Seq<u8>) {
        (self.name@, self.content@)
    }
}

/// The names and contents of a list of files, in order.
pub open spec fn files_view(files: Seq<OutputFile>) -> Seq<(Seq<char>, Seq<u8>)> {
    Seq::new(files.len(), |i: int| files[i]@)
}

/// The name of the file with a given index: the base, the index in decimal
/// digits, and the suffix.
pub open spec fn chunk_name(base: Seq<char>, index: nat) -> Seq<char> {
    base + decimal_text(index) + ".out"@
}

/// The name of the file of the time bucket that ends at `upper`: the base,
/// the bucket's end as `YYYYMMDDHHMMSS`, and the suffix.
pub open spec fn bucket_name(base: Seq<char>, upper: Timestamp) -> Seq<char> {
    base + stamp_label(upper.secs as int, upper.nanos as int) + ".out"@
}

/// Builds the name of the file with a given index.
pub fn make_chunk_name(base: &str, index: u64) -> (name: String)
    ensures
        name@ == chunk_name(base@, index as nat),
{
    let digits = decimal_string(index);
    String::from_str(base).concat(digits.as_str()).concat(".out")
}

/// Builds the name of the file of the time bucket that ends at `upper`.
pub fn make_bucket_name(base: &str, upper: &Timestamp) -> (name: String)
    requires
        upper.wf(),
        upper.nanos < NANOS_PER_SEC,
    ensures
        name@ == bucket_name(base@, *upper),
{
    let label = stamp_text(upper);
    String::from_str(base).concat(label.as_str()).concat(".out")
}

} // verus!
