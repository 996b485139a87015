//! The lines of a JSONL sample file, once its bytes have been read.

use vstd::prelude::*;
use vstd::utf8::{decode_utf8, valid_utf8};

use crate::text::{decode_lossy, lossy_utf8, non_blank_lines, non_blank_trimmed_lines};

verus! {

/// The records of a JSONL file: its bytes are decoded as UTF-8, invalid
/// sequences replaced by U+FFFD, and the non-blank lines are kept, trimmed,
/// in order.
pub fn jsonl_lines(bytes: &[u8]) -> (r: Vec<String>)
    ensures
        r@.map_values(|l: String| l@) == non_blank_lines(lossy_utf8(bytes@)),
        valid_utf8(bytes@) ==> r@.map_values(|l: String| l@) == non_blank_lines(
            decode_utf8(bytes@),
        ),
{
    let text = decode_lossy(bytes);
    non_blank_trimmed_lines(text.as_str())
}

} // verus!
