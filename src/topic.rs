use vstd::prelude::*;

use crate::forest::{resolve_path, tree_wf, ResolveError, TagTree};
use crate::path::segments_valid;
use crate::text::views;

verus! {

/// Resolves the hierarchical tag `parents` (root first) then `name` in `tree`, creating
/// the nodes that are missing, and gives the identifier of the node named `name`.
pub fn get_id(tree: &mut TagTree, name: &str, parents: Vec<String>) -> (r: Result<i64, ResolveError>)
    requires
        tree_wf(old(tree)@),
    ensures
        tree_wf(final(tree)@),
        !segments_valid(views(parents@).push(name@)) ==> r == Err::<i64, ResolveError>(
            ResolveError::InvalidPath,
        ) && final(tree)@ == old(tree)@,
        segments_valid(views(parents@).push(name@)) ==> match resolve_path(
            old(tree)@,
            views(parents@).push(name@),
        ) {
            Some((t, id)) => r == Ok::<i64, ResolveError>(id) && final(tree)@ == t,
            None => r == Err::<i64, ResolveError>(ResolveError::IdsExhausted) && final(tree)@ == old(tree)@,
        },
{
    let leaf = String::from_str(name);
    tree.resolve(&parents, &leaf)
}

} // verus!
