//! Grapheme-cluster reversal, the sort key of the suffix index.
//!
//! Reversal must keep combining marks attached to their base character, so
//! it works on extended grapheme clusters, not code points.  The clustering
//! itself comes from the `unicode_segmentation` crate; its result is named
//! here and every contract above speaks of that name.

use vstd::prelude::*;
use unicode_segmentation::UnicodeSegmentation;

verus! {

/// The grapheme reversal of the UTF-8 string `b`: the concatenation of its
/// extended grapheme clusters in reverse order, as bytes.  A function of
/// the bytes alone; bytes that are not valid UTF-8 are left as they are.
pub uninterp spec fn grev_of(b: Seq<u8>) -> Seq<u8>;

/// Relies on `unicode_segmentation::UnicodeSegmentation::graphemes` (with
/// extended clusters): the clusters partition the string, so concatenating
/// them back to front permutes its bytes and keeps the length.
#[verifier::external_body]
pub(crate) fn grapheme_reverse(b: &Vec<u8>) -> (r: Vec<u8>)
    ensures
        r@ == grev_of(b@),
        r@.len() == b@.len(),
{
    match std::str::from_utf8(b.as_slice()) {
        Ok(s) => {
            let mut out = String::with_capacity(s.len());
            for g in s.graphemes(true).rev() {
                out.push_str(g);
            }
            out.into_bytes()
        },
        Err(_) => b.clone(),
    }
}

} // verus!
