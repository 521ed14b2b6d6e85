//! Grapheme clusters: where the `n`th cluster of a line starts and ends.

use vstd::prelude::*;
use vstd::string::StringSliceAdditionalSpecFns;
use unicode_segmentation::UnicodeSegmentation;

verus! {

/// The byte offsets at which the extended grapheme clusters of a text start
/// (UAX 29), as unicode-segmentation finds them.
pub uninterp spec fn grapheme_start_offsets(text: Seq<char>) -> Seq<usize>;

/// The start offsets of the extended grapheme clusters of `text`, from
/// `unicode_segmentation::UnicodeSegmentation::grapheme_indices`.
///
/// Trusted: the crate's source shows that the clusters are non-empty and
/// follow each other from the start of the text to its end, so their start
/// offsets strictly increase, the first is 0, all are within the text, and
/// only an empty text has none. Where the boundaries fall is left to the
/// name.
#[verifier::external_body]
fn grapheme_starts(text: &str) -> (r: Vec<usize>)
    ensures
        r@ == grapheme_start_offsets(text@),
        r@.len() == 0 <==> text.spec_bytes().len() == 0,
        r@.len() > 0 ==> r@[0] == 0,
        forall|i: int| 0 <= i < r@.len() ==> #[trigger] r@[i] < text.spec_bytes().len(),
        forall|i: int, j: int| 0 <= i < j < r@.len() ==> #[trigger] r@[i] < #[trigger] r@[j],
{
    text.grapheme_indices(true).map(|(i, _)| i).collect()
}

/// The byte range of cluster `position` given the clusters' start offsets
/// in a text of `len` bytes: from its start to the next cluster's start, or
/// to the end of the text for the last one. None past the last cluster.
pub open spec fn grapheme_range(starts: Seq<usize>, len: usize, position: int) -> Option<
    (usize, usize),
> {
    if 0 <= position < starts.len() {
        Some(
            (
                starts[position],
                if position + 1 < starts.len() {
                    starts[position + 1]
                } else {
                    len
                },
            ),
        )
    } else {
        None
    }
}

/// The byte range of the cluster `position`, from the clusters' start
/// offsets.
pub fn grapheme_bounds_in(starts: &[usize], len: usize, position: usize) -> (r: Option<
    (usize, usize),
>)
    ensures
        r == grapheme_range(starts@, len, position as int),
{
    if position >= starts.len() {
        return None;
    }
    let next = if position + 1 < starts.len() {
        starts[position + 1]
    } else {
        len
    };
    Some((starts[position], next))
}

/// The byte range in `text` of its grapheme cluster number `position`, the
/// part of finding a cluster's edges that precedes measuring them.
pub fn get_grapheme_boundaries(text: &str, position: usize) -> (r: Option<(usize, usize)>)
    ensures
        r == grapheme_range(
            grapheme_start_offsets(text@),
            text.spec_bytes().len() as usize,
            position as int,
        ),
        r matches Some((a, b)) ==> a < b <= text.spec_bytes().len(),
{
    let starts = grapheme_starts(text);
    let len = text.as_bytes().len();
    grapheme_bounds_in(starts.as_slice(), len, position)
}

} // verus!
