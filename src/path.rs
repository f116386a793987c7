use vstd::prelude::*;

use crate::text::{lemma_split_on_nonempty, split_on, split_str, views};

verus! {

/// Why a tag path could not be split into segments.
#[derive(Debug, Clone, Copy, PartialEq, Eq, Structural)]
pub enum PathError {
    /// The path is empty, or one of its segments is empty.
    InvalidPath,
}

/// The `/`-separated segments of a tag path, root first.
pub open spec fn segments(tag: Seq<char>) -> Seq<Seq<char>> {
    split_on(tag, '/')
}

/// Every segment of the path is non-empty (so the path itself is non-empty too).
pub open spec fn segments_valid(segs: Seq<Seq<char>>) -> bool {
    segs.len() > 0 && forall|i: int| 0 <= i < segs.len() ==> #[trigger] segs[i].len() > 0
}

/// A tag path is accepted when none of its segments is empty.
pub open spec fn valid_path(tag: Seq<char>) -> bool {
    segments_valid(segments(tag))
}

/// Whether every string in `v` is non-empty.
pub fn all_non_empty(v: &Vec<String>) -> (r: bool)
    ensures
        r == (forall|i: int| 0 <= i < v@.len() ==> #[trigger] v@[i]@.len() > 0),
{
    let mut i: usize = 0;
    while i < v.len()
        invariant
            i <= v@.len(),
            forall|k: int| 0 <= k < i ==> #[trigger] v@[k]@.len() > 0,
        decreases v@.len() - i,
    {
        if v[i].as_str().is_empty() {
            return false;
        }
        i += 1;
    }
    true
}

/// Splits a tag path into its ancestor chain (root first) and its leaf.
///
/// `it/programming/rust` gives the ancestors `it`, `programming` and the leaf `rust`;
/// a path of one segment gives no ancestors. A path that is empty, or that has an empty
/// segment (a leading, trailing or doubled `/`), is refused.
pub fn get_parents(tag: &str) -> (r: Result<(Vec<String>, String), PathError>)
    ensures
        match r {
            Ok((ancestors, leaf)) => {
                &&& valid_path(tag@)
                &&& views(ancestors@) == segments(tag@).drop_last()
                &&& leaf@ == segments(tag@).last()
            },
            Err(e) => !valid_path(tag@) && e == PathError::InvalidPath,
        },
{
    let mut parts = split_str(tag, '/');
    proof {
        lemma_split_on_nonempty(tag@, '/');
    }
    if !all_non_empty(&parts) {
        proof {
            let segs = segments(tag@);
            assert(views(parts@) == segs);
            assert(exists|i: int| 0 <= i < parts@.len() && !(parts@[i]@.len() > 0));
            let i = choose|i: int| 0 <= i < parts@.len() && !(parts@[i]@.len() > 0);
            assert(segs[i] == parts@[i]@);
        }
        return Err(PathError::InvalidPath);
    }
    let ghost before = parts@;
    match parts.pop() {
        Some(leaf) => {
            proof {
                let segs = segments(tag@);
                assert(views(before) == segs);
                assert forall|i: int| 0 <= i < segs.len() implies #[trigger] segs[i].len() > 0 by {
                    assert(segs[i] == before[i]@);
                }
                assert(views(parts@) =~= segs.drop_last());
                assert(leaf@ == segs.last());
            }
            Ok((parts, leaf))
        },
        None => Err(PathError::InvalidPath),
    }
}

} // verus!
