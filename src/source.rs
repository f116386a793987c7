use vstd::prelude::*;

use crate::forest::{
    get_or_create, lemma_get_or_create, lemma_get_or_create_wf, lemma_lookup_finds, node_matches,
    tree_wf, NodeView, ResolveError, TagTree,
};

verus! {

/// A table of flat tags: a forest in which every node is a root.
pub open spec fn flat_wf(t: Seq<NodeView>) -> bool {
    tree_wf(t) && forall|i: int| 0 <= i < t.len() ==> #[trigger] t[i].parent is None
}

/// Gives the identifier of the flat tag `name`, creating it when it is missing. Repeated
/// calls with one name give one identifier: an existing tag is returned unchanged.
pub fn get_id(tags: &mut TagTree, name: &str) -> (r: Result<i64, ResolveError>)
    requires
        flat_wf(old(tags)@),
    ensures
        flat_wf(final(tags)@),
        name@.len() == 0 ==> r == Err::<i64, ResolveError>(ResolveError::InvalidPath) && final(tags)@ == old(tags)@,
        name@.len() > 0 ==> match get_or_create(old(tags)@, name@, None) {
            Some((t, id)) => r == Ok::<i64, ResolveError>(id) && final(tags)@ == t,
            None => r == Err::<i64, ResolveError>(ResolveError::IdsExhausted) && final(tags)@ == old(tags)@,
        },
{
    if name.is_empty() {
        return Err(ResolveError::InvalidPath);
    }
    let name = String::from_str(name);
    let ghost before = tags@;
    match tags.get_or_create(&name, None) {
        Some(id) => {
            assert forall|i: int| 0 <= i < tags@.len() implies #[trigger] tags@[i].parent is None by {
                if i < before.len() {
                    assert(tags@[i] == tags@.subrange(0, before.len() as int)[i]);
                }
            }
            Ok(id)
        },
        None => Err(ResolveError::IdsExhausted),
    }
}

/// Resolving a flat tag a second time gives the same identifier and creates nothing.
pub proof fn lemma_flat_idempotent(t: Seq<NodeView>, name: Seq<char>)
    requires
        flat_wf(t),
        name.len() > 0,
        get_or_create(t, name, None) is Some,
    ensures
        ({
            let (u, id) = get_or_create(t, name, None)->0;
            get_or_create(u, name, None) == Some((u, id))
        }),
{
    lemma_get_or_create(t, name, None);
    lemma_get_or_create_wf(t, name, None);
    let (u, id) = get_or_create(t, name, None)->0;
    let k = choose|k: int| 0 <= k < u.len() && #[trigger] node_matches(u, k, name, None) && u[k].id == id;
    lemma_lookup_finds(u, k, name, None);
}

} // verus!
