//! Dotted paths and their segments.

use crate::text::{lemma_split_injective, lemma_split_then_join, split, split_on};
use vstd::prelude::*;

verus! {

/// The character that separates the segments of a dotted path.
pub const SEPARATOR: char = '.';

/// The segments of a dotted path: the pieces between its dots, in order. The
/// empty path has no segments; every other path has at least one, and a
/// segment may be empty.
pub open spec fn path_segments(path: Seq<char>) -> Seq<Seq<char>> {
    if path.len() == 0 {
        Seq::empty()
    } else {
        split(path, SEPARATOR)
    }
}

/// Only the empty path has no segments, and no segment holds a dot.
pub proof fn lemma_segments_of_path(path: Seq<char>)
    ensures
        path_segments(path).len() == 0 <==> path.len() == 0,
        forall|i: int, j: int|
            0 <= i < path_segments(path).len() && 0 <= j < path_segments(path)[i].len()
                ==> #[trigger] path_segments(path)[i][j] != SEPARATOR,
{
    lemma_split_then_join(path, SEPARATOR);
}

/// Two paths with the same segments are the same path.
pub proof fn lemma_segments_injective(a: Seq<char>, b: Seq<char>)
    requires
        path_segments(a) == path_segments(b),
    ensures
        a == b,
{
    lemma_split_then_join(a, SEPARATOR);
    lemma_split_then_join(b, SEPARATOR);
    if a.len() > 0 && b.len() > 0 {
        lemma_split_injective(a, b, SEPARATOR);
    }
}

/// Splits a dotted path into its segments.
pub fn split_path(path: &str) -> (segments: Vec<String>)
    ensures
        segments.deep_view() == path_segments(path@),
{
    if path.is_empty() {
        Vec::new()
    } else {
        split_on(path, SEPARATOR)
    }
}

} // verus!
