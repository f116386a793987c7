use vstd::prelude::*;

use crate::path::{all_non_empty, segments_valid};
use crate::text::views;

verus! {

/// One row of a hierarchical tag table: a named node under an optional parent.
#[derive(Debug)]
pub struct TagNode {
    pub id: i64,
    pub name: String,
    pub parent: Option<i64>,
}

/// What a `TagNode` holds, as a mathematical value.
pub ghost struct NodeView {
    pub id: i64,
    pub name: Seq<char>,
    pub parent: Option<i64>,
}

impl View for TagNode {
    type V = NodeView;

    open spec fn view(&self) -> NodeView {
        NodeView { id: self.id, name: self.name@, parent: self.parent }
    }
}

/// A forest of named tag nodes (topics or contexts), held in the order of their ids.
#[derive(Debug)]
pub struct TagTree {
    pub nodes: Vec<TagNode>,
}

impl View for TagTree {
    type V = Seq<NodeView>;

    open spec fn view(&self) -> Seq<NodeView> {
        self.nodes@.map_values(|n: TagNode| n@)
    }
}

/// Why a tag could not be resolved.
#[derive(Debug, Clone, Copy, PartialEq, Eq, Structural)]
pub enum ResolveError {
    /// The path is empty or has an empty segment.
    InvalidPath,
    /// A node had to be created, but no identifier above the largest one is left.
    IdsExhausted,
}

/// Some node among the first `bound` ones has identifier `id`.
pub open spec fn has_id(t: Seq<NodeView>, bound: int, id: i64) -> bool {
    exists|j: int| 0 <= j < bound && j < t.len() && #[trigger] t[j].id == id
}

/// Node `i` has no parent, or its parent is a node that comes before it.
pub open spec fn parent_before(t: Seq<NodeView>, i: int) -> bool {
    match t[i].parent {
        None => true,
        Some(p) => has_id(t, i, p),
    }
}

/// Node `i` is named `name` and sits under `parent`.
pub open spec fn node_matches(t: Seq<NodeView>, i: int, name: Seq<char>, parent: Option<i64>) -> bool {
    t[i].name == name && t[i].parent == parent
}

/// The table forms a forest: identifiers strictly increase, names are non-empty, every
/// parent comes before its children (so there is no cycle), and no two nodes share both
/// name and parent.
pub open spec fn tree_wf(t: Seq<NodeView>) -> bool {
    &&& forall|i: int, j: int| 0 <= i < j < t.len() ==> t[i].id < t[j].id
    &&& forall|i: int| 0 <= i < t.len() ==> #[trigger] t[i].name.len() > 0
    &&& forall|i: int| 0 <= i < t.len() ==> #[trigger] parent_before(t, i)
    &&& forall|i: int, j: int|
        0 <= i < j < t.len() ==> !#[trigger] node_matches(t, i, t[j].name, t[j].parent)
}

/// The identifier of the node named `name` under `parent`, if there is one.
pub open spec fn lookup(t: Seq<NodeView>, name: Seq<char>, parent: Option<i64>) -> Option<i64>
    decreases t.len(),
{
    if t.len() == 0 {
        None
    } else if t.last().name == name && t.last().parent == parent {
        Some(t.last().id)
    } else {
        lookup(t.drop_last(), name, parent)
    }
}

/// The identifier that the next created node receives.
pub open spec fn next_id(t: Seq<NodeView>) -> int {
    if t.len() == 0 {
        1
    } else {
        t.last().id + 1
    }
}

/// Get-or-create of one node: the existing node named `name` under `parent`, or else a
/// new one appended with the next identifier; `None` when that identifier does not fit.
pub open spec fn get_or_create(t: Seq<NodeView>, name: Seq<char>, parent: Option<i64>) -> Option<
    (Seq<NodeView>, i64),
> {
    match lookup(t, name, parent) {
        Some(id) => Some((t, id)),
        None => if next_id(t) <= i64::MAX {
            Some((t.push(NodeView { id: next_id(t) as i64, name, parent }), next_id(t) as i64))
        } else {
            None
        },
    }
}

/// Resolves the segments one after another, each under the node that the previous one
/// gave (the first under `parent`), and gives the table afterwards and the last node.
pub open spec fn resolve_from(t: Seq<NodeView>, segs: Seq<Seq<char>>, parent: Option<i64>) -> Option<
    (Seq<NodeView>, Option<i64>),
>
    decreases segs.len(),
{
    if segs.len() == 0 {
        Some((t, parent))
    } else {
        match get_or_create(t, segs[0], parent) {
            None => None,
            Some((t1, id)) => resolve_from(t1, segs.drop_first(), Some(id)),
        }
    }
}

/// Resolution of a whole path from the roots: the table afterwards and the leaf's identifier.
pub open spec fn resolve_path(t: Seq<NodeView>, segs: Seq<Seq<char>>) -> Option<(Seq<NodeView>, i64)> {
    match resolve_from(t, segs, None) {
        Some((t1, Some(id))) => Some((t1, id)),
        _ => None,
    }
}

/// `a` is a prefix of `b`.
pub open spec fn extends(a: Seq<NodeView>, b: Seq<NodeView>) -> bool {
    a.len() <= b.len() && b.subrange(0, a.len() as int) == a
}

pub proof fn lemma_lookup(t: Seq<NodeView>, name: Seq<char>, parent: Option<i64>)
    ensures
        lookup(t, name, parent) is None <==> (forall|i: int|
            0 <= i < t.len() ==> !#[trigger] node_matches(t, i, name, parent)),
        lookup(t, name, parent) matches Some(id) ==> exists|i: int|
            0 <= i < t.len() && #[trigger] node_matches(t, i, name, parent) && t[i].id == id,
    decreases t.len(),
{
    if t.len() > 0 {
        let s = t.drop_last();
        lemma_lookup(s, name, parent);
        assert forall|i: int| 0 <= i < s.len() implies node_matches(s, i, name, parent)
            == node_matches(t, i, name, parent) by {
            assert(s[i] == t[i]);
        }
        if lookup(t, name, parent) is None {
            assert forall|i: int| 0 <= i < t.len() implies !#[trigger] node_matches(t, i, name, parent) by {
                if i < s.len() {
                    assert(!node_matches(s, i, name, parent));
                }
            }
        } else {
            if t.last().name == name && t.last().parent == parent {
                assert(node_matches(t, t.len() - 1, name, parent));
            } else {
                let id = lookup(t, name, parent)->0;
                let i = choose|i: int|
                    0 <= i < s.len() && #[trigger] node_matches(s, i, name, parent) && s[i].id == id;
                assert(node_matches(t, i, name, parent));
            }
        }
    }
}

/// In a well-formed table a node that matches is the one that lookup finds.
pub proof fn lemma_lookup_finds(t: Seq<NodeView>, i: int, name: Seq<char>, parent: Option<i64>)
    requires
        tree_wf(t),
        0 <= i < t.len(),
        node_matches(t, i, name, parent),
    ensures
        lookup(t, name, parent) == Some(t[i].id),
{
    lemma_lookup(t, name, parent);
    let id = lookup(t, name, parent)->0;
    let k = choose|k: int| 0 <= k < t.len() && #[trigger] node_matches(t, k, name, parent) && t[k].id == id;
    if k < i {
        assert(node_matches(t, k, t[i].name, t[i].parent));
    } else if i < k {
        assert(node_matches(t, i, t[k].name, t[k].parent));
    }
}

/// Appending a new node keeps the table a forest when its identifier is above all others,
/// its name is non-empty, its parent exists and no node has its name and parent yet.
pub proof fn lemma_push_wf(t: Seq<NodeView>, n: NodeView)
    requires
        tree_wf(t),
        t.len() > 0 ==> n.id > t.last().id,
        n.name.len() > 0,
        n.parent matches Some(p) ==> has_id(t, t.len() as int, p),
        lookup(t, n.name, n.parent) is None,
    ensures
        tree_wf(t.push(n)),
        extends(t, t.push(n)),
{
    let u = t.push(n);
    lemma_lookup(t, n.name, n.parent);
    assert forall|i: int, j: int| 0 <= i < j < u.len() implies u[i].id < u[j].id by {
        if j == t.len() && t.len() > 0 {
            if i < t.len() - 1 {
                assert(t[i].id < t[t.len() - 1].id);
            }
        }
    }
    assert forall|i: int| 0 <= i < u.len() implies #[trigger] u[i].name.len() > 0 by {
        if i < t.len() {
            assert(u[i] == t[i]);
        }
    }
    assert forall|i: int| 0 <= i < u.len() implies #[trigger] parent_before(u, i) by {
        if i < t.len() {
            assert(u[i] == t[i]);
            assert(parent_before(t, i));
            if let Some(p) = t[i].parent {
                let j = choose|j: int| 0 <= j < i && j < t.len() && #[trigger] t[j].id == p;
                assert(u[j].id == p);
            }
        } else if let Some(p) = n.parent {
            let j = choose|j: int| 0 <= j < t.len() && j < t.len() && #[trigger] t[j].id == p;
            assert(u[j].id == p);
        }
    }
    assert forall|i: int, j: int| 0 <= i < j < u.len() implies !#[trigger] node_matches(
        u,
        i,
        u[j].name,
        u[j].parent,
    ) by {
        if j < t.len() {
            assert(u[i] == t[i] && u[j] == t[j]);
            assert(!node_matches(t, i, t[j].name, t[j].parent));
        } else {
            assert(u[i] == t[i]);
            assert(!node_matches(t, i, n.name, n.parent));
        }
    }
    assert(u.subrange(0, t.len() as int) =~= t);
}

/// The node that get-or-create gives is in the table afterwards, which extends the one before.
pub proof fn lemma_get_or_create(t: Seq<NodeView>, name: Seq<char>, parent: Option<i64>)
    requires
        get_or_create(t, name, parent) is Some,
    ensures
        get_or_create(t, name, parent) matches Some((u, id)) && extends(t, u) && has_id(
            u,
            u.len() as int,
            id,
        ) && exists|i: int| 0 <= i < u.len() && #[trigger] node_matches(u, i, name, parent) && u[i].id == id,
{
    lemma_lookup(t, name, parent);
    let (u, id) = get_or_create(t, name, parent)->0;
    match lookup(t, name, parent) {
        Some(_) => {
            assert(t.subrange(0, t.len() as int) =~= t);
            let i = choose|i: int| 0 <= i < t.len() && #[trigger] node_matches(t, i, name, parent) && t[i].id == id;
            assert(has_id(u, u.len() as int, id));
        },
        None => {
            assert(u.subrange(0, t.len() as int) =~= t);
            assert(node_matches(u, t.len() as int, name, parent));
            assert(u[t.len() as int].id == id);
            assert(has_id(u, u.len() as int, id));
        },
    }
}

/// Get-or-create keeps the table a forest.
pub proof fn lemma_get_or_create_wf(t: Seq<NodeView>, name: Seq<char>, parent: Option<i64>)
    requires
        tree_wf(t),
        name.len() > 0,
        parent matches Some(p) ==> has_id(t, t.len() as int, p),
        get_or_create(t, name, parent) is Some,
    ensures
        get_or_create(t, name, parent) matches Some((u, id)) && tree_wf(u),
{
    if lookup(t, name, parent) is None {
        lemma_push_wf(t, NodeView { id: next_id(t) as i64, name, parent });
    }
}

/// The names from the root down to node `i`, following parents.
pub open spec fn path_of(t: Seq<NodeView>, i: int) -> Seq<Seq<char>>
    decreases i,
{
    if 0 <= i < t.len() {
        match t[i].parent {
            Some(p) => if has_id(t, i, p) {
                path_of(t, choose|j: int| 0 <= j < i && j < t.len() && #[trigger] t[j].id == p).push(
                    t[i].name,
                )
            } else {
                seq![t[i].name]
            },
            None => seq![t[i].name],
        }
    } else {
        Seq::empty()
    }
}

/// In a well-formed table two nodes with the same identifier are the same node.
pub proof fn lemma_ids_unique(t: Seq<NodeView>, i: int, j: int)
    requires
        tree_wf(t),
        0 <= i < t.len(),
        0 <= j < t.len(),
        t[i].id == t[j].id,
    ensures
        i == j,
{
    if i < j {
        assert(t[i].id < t[j].id);
    } else if j < i {
        assert(t[j].id < t[i].id);
    }
}

/// Appending nodes does not change the path of a node that was already there.
pub proof fn lemma_path_of_extends(t: Seq<NodeView>, u: Seq<NodeView>, i: int)
    requires
        extends(t, u),
        tree_wf(u),
        0 <= i < t.len(),
    ensures
        path_of(u, i) == path_of(t, i),
    decreases i,
{
    assert(u[i] == u.subrange(0, t.len() as int)[i]);
    if let Some(p) = t[i].parent {
        if has_id(t, i, p) {
            let jt = choose|j: int| 0 <= j < i && j < t.len() && #[trigger] t[j].id == p;
            assert(u[jt] == u.subrange(0, t.len() as int)[jt]);
            assert(has_id(u, i, p));
            let ju = choose|j: int| 0 <= j < i && j < u.len() && #[trigger] u[j].id == p;
            lemma_ids_unique(u, ju, jt);
            lemma_path_of_extends(t, u, jt);
        } else {
            if has_id(u, i, p) {
                let ju = choose|j: int| 0 <= j < i && j < u.len() && #[trigger] u[j].id == p;
                assert(u[ju] == u.subrange(0, t.len() as int)[ju]);
                assert(has_id(t, i, p));
            }
        }
    }
}

/// `pre` is the path of the node that `parent` names (empty when there is none).
pub open spec fn path_prefix(t: Seq<NodeView>, parent: Option<i64>, pre: Seq<Seq<char>>) -> bool {
    match parent {
        None => pre == Seq::<Seq<char>>::empty(),
        Some(p) => exists|b: int| 0 <= b < t.len() && #[trigger] t[b].id == p && path_of(t, b) == pre,
    }
}

/// Some node has identifier `id` and the path `path`.
pub open spec fn node_with_path(u: Seq<NodeView>, id: i64, path: Seq<Seq<char>>) -> bool {
    exists|k: int| 0 <= k < u.len() && #[trigger] u[k].id == id && path_of(u, k) == path
}

/// Resolution keeps the table a forest, only appends to it, and gives a node whose path
/// is the parent's path followed by the segments.
pub proof fn lemma_resolve_from(
    t: Seq<NodeView>,
    segs: Seq<Seq<char>>,
    parent: Option<i64>,
    pre: Seq<Seq<char>>,
)
    requires
        tree_wf(t),
        forall|i: int| 0 <= i < segs.len() ==> #[trigger] segs[i].len() > 0,
        path_prefix(t, parent, pre),
        resolve_from(t, segs, parent) is Some,
    ensures
        ({
            let (u, r) = resolve_from(t, segs, parent)->0;
            &&& tree_wf(u)
            &&& extends(t, u)
            &&& segs.len() == 0 ==> r == parent
            &&& segs.len() > 0 ==> r is Some && node_with_path(u, r->0, pre + segs)
        }),
    decreases segs.len(),
{
    if segs.len() == 0 {
        assert(t.subrange(0, t.len() as int) =~= t);
    } else {
        let s0 = segs[0];
        if let Some(p) = parent {
            let b = choose|b: int| 0 <= b < t.len() && #[trigger] t[b].id == p && path_of(t, b) == pre;
            assert(has_id(t, t.len() as int, p));
        }
        lemma_get_or_create(t, s0, parent);
        lemma_get_or_create_wf(t, s0, parent);
        let (ta, id) = get_or_create(t, s0, parent)->0;
        let k = choose|k: int| 0 <= k < ta.len() && #[trigger] node_matches(ta, k, s0, parent) && ta[k].id == id;
        assert(parent_before(ta, k));
        if let Some(p) = parent {
            let b = choose|b: int| 0 <= b < t.len() && #[trigger] t[b].id == p && path_of(t, b) == pre;
            let j = choose|j: int| 0 <= j < k && j < ta.len() && #[trigger] ta[j].id == p;
            assert(ta[b] == ta.subrange(0, t.len() as int)[b]);
            lemma_ids_unique(ta, b, j);
            lemma_path_of_extends(t, ta, b);
        }
        assert(path_of(ta, k) == pre.push(s0));
        let rest = segs.drop_first();
        assert(path_prefix(ta, Some(id), pre.push(s0)));
        lemma_resolve_from(ta, rest, Some(id), pre.push(s0));
        let (u, r) = resolve_from(t, segs, parent)->0;
        assert(u.subrange(0, t.len() as int) =~= ta.subrange(0, t.len() as int));
        assert(pre.push(s0) + rest =~= pre + segs);
        if rest.len() == 0 {
            assert(u == ta);
            assert(u[k].id == id);
        }
    }
}

/// Resolving a path a second time, in the table that the first resolution left, changes
/// nothing and gives the same node.
pub proof fn lemma_resolve_from_again(t: Seq<NodeView>, segs: Seq<Seq<char>>, parent: Option<i64>)
    requires
        tree_wf(t),
        forall|i: int| 0 <= i < segs.len() ==> #[trigger] segs[i].len() > 0,
        parent matches Some(p) ==> has_id(t, t.len() as int, p),
        resolve_from(t, segs, parent) is Some,
    ensures
        ({
            let (u, r) = resolve_from(t, segs, parent)->0;
            &&& tree_wf(u)
            &&& extends(t, u)
            &&& resolve_from(u, segs, parent) == Some((u, r))
        }),
    decreases segs.len(),
{
    if segs.len() == 0 {
        assert(t.subrange(0, t.len() as int) =~= t);
    } else {
        let s0 = segs[0];
        lemma_get_or_create(t, s0, parent);
        lemma_get_or_create_wf(t, s0, parent);
        let (ta, id) = get_or_create(t, s0, parent)->0;
        let rest = segs.drop_first();
        lemma_resolve_from_again(ta, rest, Some(id));
        let (u, r) = resolve_from(t, segs, parent)->0;
        let k = choose|k: int| 0 <= k < ta.len() && #[trigger] node_matches(ta, k, s0, parent) && ta[k].id == id;
        assert(u[k] == u.subrange(0, ta.len() as int)[k]);
        assert(node_matches(u, k, s0, parent));
        lemma_lookup_finds(u, k, s0, parent);
        assert(u.subrange(0, t.len() as int) =~= ta.subrange(0, t.len() as int));
    }
}

/// Resolving a path twice gives the same node both times, and the second resolution
/// creates no node.
pub proof fn lemma_resolve_idempotent(t: Seq<NodeView>, segs: Seq<Seq<char>>)
    requires
        tree_wf(t),
        segments_valid(segs),
        resolve_path(t, segs) is Some,
    ensures
        ({
            let (u, id) = resolve_path(t, segs)->0;
            tree_wf(u) && resolve_path(u, segs) == Some((u, id))
        }),
{
    lemma_resolve_from_again(t, segs, None);
}

/// Resolving a path gives a node whose chain of names from the root is that path.
pub proof fn lemma_resolve_path_of(t: Seq<NodeView>, segs: Seq<Seq<char>>)
    requires
        tree_wf(t),
        segments_valid(segs),
        resolve_path(t, segs) is Some,
    ensures
        ({
            let (u, id) = resolve_path(t, segs)->0;
            tree_wf(u) && extends(t, u) && node_with_path(u, id, segs)
        }),
{
    lemma_resolve_from(t, segs, None, Seq::empty());
    assert(Seq::<Seq<char>>::empty() + segs =~= segs);
}

/// Two different paths, resolved one after the other, give two different nodes; in
/// particular nodes with the same name under different ancestors are kept apart.
pub proof fn lemma_resolve_distinct(t: Seq<NodeView>, first: Seq<Seq<char>>, second: Seq<Seq<char>>)
    requires
        tree_wf(t),
        segments_valid(first),
        segments_valid(second),
        first != second,
        resolve_path(t, first) is Some,
        resolve_path((resolve_path(t, first)->0).0, second) is Some,
    ensures
        (resolve_path(t, first)->0).1 != (resolve_path((resolve_path(t, first)->0).0, second)->0).1,
{
    lemma_resolve_path_of(t, first);
    let (t1, id1) = resolve_path(t, first)->0;
    lemma_resolve_path_of(t1, second);
    let (t2, id2) = resolve_path(t1, second)->0;
    let k1 = choose|k: int| 0 <= k < t1.len() && #[trigger] t1[k].id == id1 && path_of(t1, k) == first;
    let k2 = choose|k: int| 0 <= k < t2.len() && #[trigger] t2[k].id == id2 && path_of(t2, k) == second;
    lemma_path_of_extends(t1, t2, k1);
    assert(t2[k1] == t2.subrange(0, t1.len() as int)[k1]);
    if id1 == id2 {
        lemma_ids_unique(t2, k1, k2);
    }
}

/// Whether two optional parents are the same.
fn same_parent(a: Option<i64>, b: Option<i64>) -> (r: bool)
    ensures
        r == (a == b),
{
    match (a, b) {
        (None, None) => true,
        (Some(x), Some(y)) => x == y,
        _ => false,
    }
}

impl TagTree {
    /// An empty table.
    pub fn new() -> (r: TagTree)
        ensures
            r@ == Seq::<NodeView>::empty(),
            tree_wf(r@),
    {
        let r = TagTree { nodes: Vec::new() };
        assert(r@ =~= Seq::<NodeView>::empty());
        r
    }

    /// Takes over rows read from storage, in the order of their identifiers; refuses them
    /// when they do not form a forest.
    pub fn from_nodes(nodes: Vec<TagNode>) -> (r: Option<TagTree>)
        ensures
            match r {
                Some(t) => tree_wf(nodes@.map_values(|n: TagNode| n@)) && t@ == nodes@.map_values(
                    |n: TagNode| n@,
                ),
                None => !tree_wf(nodes@.map_values(|n: TagNode| n@)),
            },
    {
        let ghost all = nodes@.map_values(|n: TagNode| n@);
        let mut t = TagTree::new();
        let mut i: usize = 0;
        while i < nodes.len()
            invariant
                all == nodes@.map_values(|n: TagNode| n@),
                i <= nodes@.len(),
                tree_wf(t@),
                t@ == all.subrange(0, i as int),
                t@.len() == t.nodes@.len(),
            decreases nodes@.len() - i,
        {
            let n = &nodes[i];
            let ghost pre = all.subrange(0, i as int);
            assert(all[i as int] == n@);
            if i > 0 && t.nodes[i - 1].id >= n.id {
                assert(pre[i - 1] == all[i - 1]);
                assert(!(all[i - 1].id < all[i as int].id));
                return None;
            }
            assert(i > 0 ==> t@.last() == t.nodes@[i - 1]@);
            if n.name.as_str().is_empty() {
                assert(!(all[i as int].name.len() > 0));
                return None;
            }
            if let Some(p) = n.parent {
                if !t.contains_id(p) {
                    assert(!parent_before(all, i as int)) by {
                        if has_id(all, i as int, p) {
                            let j = choose|j: int| 0 <= j < i && j < all.len() && #[trigger] all[j].id == p;
                            assert(pre[j] == all[j]);
                        }
                    }
                    return None;
                }
            }
            if t.find(&n.name, n.parent).is_some() {
                proof {
                    lemma_lookup(pre, n@.name, n@.parent);
                    let k = choose|k: int| 0 <= k < pre.len() && #[trigger] node_matches(pre, k, n@.name, n@.parent);
                    assert(pre[k] == all[k]);
                    assert(node_matches(all, k, all[i as int].name, all[i as int].parent));
                }
                return None;
            }
            let node = TagNode { id: n.id, name: n.name.clone(), parent: n.parent };
            proof {
                if let Some(p) = n.parent {
                    assert(has_id(t@, t@.len() as int, p));
                }
                lemma_push_wf(t@, node@);
            }
            let ghost before = t@;
            t.nodes.push(node);
            assert(t@ =~= before.push(node@));
            i += 1;
            assert(t@ =~= all.subrange(0, i as int));
        }
        assert(all.subrange(0, i as int) =~= all);
        Some(t)
    }

    /// The identifier of the node named `name` under `parent`, if there is one.
    pub fn find(&self, name: &String, parent: Option<i64>) -> (r: Option<i64>)
        ensures
            r == lookup(self@, name@, parent),
    {
        let mut i: usize = self.nodes.len();
        assert(self@.subrange(0, i as int) =~= self@);
        while i > 0
            invariant
                i <= self@.len(),
                self@.len() == self.nodes@.len(),
                lookup(self@, name@, parent) == lookup(self@.subrange(0, i as int), name@, parent),
            decreases i,
        {
            let ghost s = self@.subrange(0, i as int);
            assert(s.drop_last() =~= self@.subrange(0, i - 1));
            assert(s.last() == self.nodes@[i - 1]@);
            i -= 1;
            let node = &self.nodes[i];
            if node.name == *name && same_parent(node.parent, parent) {
                return Some(node.id);
            }
        }
        None
    }

    /// Whether some node has identifier `id`.
    pub fn contains_id(&self, id: i64) -> (r: bool)
        ensures
            r == has_id(self@, self@.len() as int, id),
    {
        let mut i: usize = 0;
        while i < self.nodes.len()
            invariant
                i <= self@.len(),
                self@.len() == self.nodes@.len(),
                forall|k: int| 0 <= k < i ==> self@[k].id != id,
            decreases self@.len() - i,
        {
            if self.nodes[i].id == id {
                assert(self@[i as int].id == id);
                return true;
            }
            i += 1;
        }
        false
    }

    /// Returns the node named `name` under `parent`, creating it when it is missing.
    pub fn get_or_create(&mut self, name: &String, parent: Option<i64>) -> (r: Option<i64>)
        requires
            tree_wf(old(self)@),
            name@.len() > 0,
            parent matches Some(p) ==> has_id(old(self)@, old(self)@.len() as int, p),
        ensures
            tree_wf(final(self)@),
            extends(old(self)@, final(self)@),
            match get_or_create(old(self)@, name@, parent) {
                Some((t, id)) => r == Some(id) && final(self)@ == t,
                None => r is None && final(self)@ == old(self)@,
            },
    {
        match self.find(name, parent) {
            Some(id) => {
                assert(self@.subrange(0, self@.len() as int) =~= self@);
                Some(id)
            },
            None => {
                let len = self.nodes.len();
                let id: i64 = if len == 0 {
                    1
                } else {
                    let last = self.nodes[len - 1].id;
                    if last == i64::MAX {
                        assert(self@.subrange(0, self@.len() as int) =~= self@);
                        return None;
                    }
                    last + 1
                };
                let node = TagNode { id, name: name.clone(), parent };
                proof {
                    lemma_push_wf(self@, node@);
                }
                self.nodes.push(node);
                assert(self@ =~= old(self)@.push(node@));
                Some(id)
            },
        }
    }

    /// Resolves the segments from the roots, creating the nodes that are missing; on
    /// failure the table is left as it was.
    fn resolve_segments(&mut self, segs: &Vec<String>) -> (r: Option<i64>)
        requires
            tree_wf(old(self)@),
            segments_valid(views(segs@)),
        ensures
            tree_wf(final(self)@),
            match resolve_path(old(self)@, views(segs@)) {
                Some((t, id)) => r == Some(id) && final(self)@ == t,
                None => r is None && final(self)@ == old(self)@,
            },
    {
        let ghost all = views(segs@);
        let n0 = self.nodes.len();
        let mut parent: Option<i64> = None;
        let mut i: usize = 0;
        assert(all.subrange(0, all.len() as int) =~= all);
        assert(old(self)@.subrange(0, old(self)@.len() as int) =~= old(self)@);
        while i < segs.len()
            invariant
                all == views(segs@),
                segments_valid(all),
                i <= segs@.len(),
                n0 == old(self)@.len(),
                tree_wf(old(self)@),
                self@.len() == self.nodes@.len(),
                tree_wf(self@),
                extends(old(self)@, self@),
                parent matches Some(p) ==> has_id(self@, self@.len() as int, p),
                i > 0 ==> parent is Some,
                resolve_from(old(self)@, all, None) == resolve_from(
                    self@,
                    all.subrange(i as int, all.len() as int),
                    parent,
                ),
            decreases segs@.len() - i,
        {
            let ghost rest = all.subrange(i as int, all.len() as int);
            assert(rest[0] == segs@[i as int]@);
            assert(rest.drop_first() =~= all.subrange(i + 1, all.len() as int));
            assert(all[i as int].len() > 0);
            let ghost before = self@;
            match self.get_or_create(&segs[i], parent) {
                Some(id) => {
                    proof {
                        lemma_get_or_create(before, all[i as int], parent);
                        assert(self@.subrange(0, n0 as int) =~= before.subrange(0, n0 as int));
                    }
                    parent = Some(id);
                },
                None => {
                    self.nodes.truncate(n0);
                    assert(self@ =~= old(self)@);

                    return None;
                },
            }
            i += 1;
        }
        parent
    }

    /// Resolves the path made of `ancestors` (root first) and `leaf`: each segment is looked
    /// up under the node of the one before it and created when it is missing. Gives the
    /// leaf's identifier. An empty segment is refused, and when a node cannot be created the
    /// table is left as it was.
    pub fn resolve(&mut self, ancestors: &Vec<String>, leaf: &String) -> (r: Result<i64, ResolveError>)
        requires
            tree_wf(old(self)@),
        ensures
            tree_wf(final(self)@),
            !segments_valid(views(ancestors@).push(leaf@)) ==> r == Err::<i64, ResolveError>(
                ResolveError::InvalidPath,
            ) && final(self)@ == old(self)@,
            segments_valid(views(ancestors@).push(leaf@)) ==> match resolve_path(
                old(self)@,
                views(ancestors@).push(leaf@),
            ) {
                Some((t, id)) => r == Ok::<i64, ResolveError>(id) && final(self)@ == t,
                None => r == Err::<i64, ResolveError>(ResolveError::IdsExhausted) && final(self)@
                    == old(self)@,
            },
    {
        let mut segs: Vec<String> = Vec::new();
        let mut i: usize = 0;
        while i < ancestors.len()
            invariant
                i <= ancestors@.len(),
                views(segs@) == views(ancestors@.subrange(0, i as int)),
            decreases ancestors@.len() - i,
        {
            let s = ancestors[i].clone();
            proof {
                crate::text::lemma_views_push(segs@, s);
                assert(views(ancestors@.subrange(0, i + 1)) =~= views(
                    ancestors@.subrange(0, i as int),
                ).push(s@));
            }
            segs.push(s);
            i += 1;
        }
        proof {
            assert(ancestors@.subrange(0, ancestors@.len() as int) =~= ancestors@);
            crate::text::lemma_views_push(segs@, *leaf);
        }
        segs.push(leaf.clone());
        if !all_non_empty(&segs) {
            proof {
                let i = choose|i: int| 0 <= i < segs@.len() && !(segs@[i]@.len() > 0);
                assert(views(segs@)[i] == segs@[i]@);
            }
            return Err(ResolveError::InvalidPath);
        }
        assert forall|i: int| 0 <= i < views(segs@).len() implies #[trigger] views(segs@)[i].len() > 0 by {
            assert(views(segs@)[i] == segs@[i]@);
        }
        match self.resolve_segments(&segs) {
            Some(id) => Ok(id),
            None => Err(ResolveError::IdsExhausted),
        }
    }
}

} // verus!
