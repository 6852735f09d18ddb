//! The overlap of two files in three lines of text, with the byte counts in
//! binary units.

use crate::overlap::Overlap;
use humansize::{SizeFormatter, BINARY};
use vstd::prelude::*;

verus! {

/// The text that humansize's `SizeFormatter` with its `BINARY` options writes
/// for a count of bytes: the count scaled by powers of 1024, and a unit from
/// `B`, `KiB`, `MiB` upwards.
pub uninterp spec fn binary_size_text(bytes: u64) -> Seq<char>;

/// Formats a count of bytes with humansize's `SizeFormatter::new` and its
/// `BINARY` options. Trusted: the text depends on the count alone.
#[verifier::external_body]
fn format_binary_size(bytes: u64) -> (text: String)
    ensures
        text@ == binary_size_text(bytes),
{
    format!("{}", SizeFormatter::new(bytes, BINARY))
}

/// The line that tells how much of a file is unique to it.
pub open spec fn unique_line(name: Seq<char>, size: Seq<char>) -> Seq<char> {
    name + ": "@ + size + " unique"@
}

/// The line that tells how much the two files share.
pub open spec fn shared_line(size: Seq<char>) -> Seq<char> {
    size + " shared"@
}

/// The three lines of a summary from the names of the two files and the
/// sizes already put into text: what is unique to the first file, what is
/// unique to the second, and what they share.
pub fn summary_lines(
    name1: &str,
    name2: &str,
    unique1: &str,
    unique2: &str,
    shared: &str,
) -> (lines: Vec<String>)
    ensures
        lines.len() == 3,
        lines[0]@ == unique_line(name1@, unique1@),
        lines[1]@ == unique_line(name2@, unique2@),
        lines[2]@ == shared_line(shared@),
{
    let mut first = String::from_str(name1);
    first.append(": ");
    first.append(unique1);
    first.append(" unique");
    let mut second = String::from_str(name2);
    second.append(": ");
    second.append(unique2);
    second.append(" unique");
    let mut third = String::from_str(shared);
    third.append(" shared");
    let mut lines: Vec<String> = Vec::new();
    lines.push(first);
    lines.push(second);
    lines.push(third);
    lines
}

/// The three lines that report an overlap, each byte count in binary units.
pub fn summarize(name1: &str, name2: &str, overlap: Overlap) -> (lines: Vec<String>)
    ensures
        lines.len() == 3,
        lines[0]@ == unique_line(name1@, binary_size_text(overlap.diff_bytes_1)),
        lines[1]@ == unique_line(name2@, binary_size_text(overlap.diff_bytes_2)),
        lines[2]@ == shared_line(binary_size_text(overlap.shared_bytes)),
{
    let unique1 = format_binary_size(overlap.diff_bytes_1);
    let unique2 = format_binary_size(overlap.diff_bytes_2);
    let shared = format_binary_size(overlap.shared_bytes);
    summary_lines(name1, name2, unique1.as_str(), unique2.as_str(), shared.as_str())
}

} // verus!
