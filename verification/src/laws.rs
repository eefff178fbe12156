//! The behavioural laws of the tree, stated over the abstract key set
//! that every operation's contract speaks of, so that a caller can
//! chain operations without reading any implementation detail.

use vstd::prelude::*;
use crate::bst::Tree;

verus! {

/// Round trip: a key that has just been inserted is a key of the tree,
/// and every key the tree already had is still there.  Together with
/// the contract of `tree_search` (a search from the root returns a
/// node exactly when the key is in the tree, and that node holds the
/// key), an inserted key is found again.
pub proof fn lemma_insert_round_trip(pre: Tree, post: Tree, k: int)
    requires
        post.keys() == pre.keys().insert(k),
    ensures
        post.keys().contains(k),
        forall|z: int| pre.keys().contains(z) ==> post.keys().contains(z),
{
}

/// Deletion completeness: after a key is deleted, it is no longer a
/// key of the tree, and every other key is kept exactly as it was.
/// Together with the contract of `tree_search`, the deleted key is no
/// longer found and all other keys still are.
pub proof fn lemma_delete_completeness(pre: Tree, post: Tree, k: int)
    requires
        post.keys() == pre.keys().remove(k),
    ensures
        !post.keys().contains(k),
        forall|z: int| z != k ==> (post.keys().contains(z) <==> pre.keys().contains(z)),
{
}

/// A key inserted and not deleted since is still a key of the tree
/// after another key has been deleted.
pub proof fn lemma_round_trip_after_delete(t1: Tree, t2: Tree, t3: Tree, k: int, other: int)
    requires
        t2.keys() == t1.keys().insert(k),
        t3.keys() == t2.keys().remove(other),
        other != k,
    ensures
        t3.keys().contains(k),
{
}

/// Parent consistency: in a well-formed tree, every node's parent
/// back-reference is mirrored by the parent's left or right slot, and
/// the one node without a parent is the root.
pub proof fn lemma_parent_consistency(t: Tree, i: usize)
    requires
        t.wf(),
        t.has_node(i),
    ensures
        match t.nodes@[i as int].parent {
            Some(p) => t.has_node(p) && (t.nodes@[p as int].left == Some(i)
                || t.nodes@[p as int].right == Some(i)) && t.root != Some(i),
            None => t.root == Some(i),
        },
{
    assert(t.node_ok(i));
}

/// Binary-search-tree ordering: in a well-formed tree, every key in a
/// node's left subtree lies strictly below its own key, and every key
/// in its right subtree strictly above.
pub proof fn lemma_bst_ordering(t: Tree, i: usize)
    requires
        t.wf(),
        t.has_node(i),
    ensures
        forall|x: int|
            t.keyset_of(t.nodes@[i as int].left).contains(x) ==> x < t.key_at(i),
        forall|x: int|
            t.keyset_of(t.nodes@[i as int].right).contains(x) ==> x > t.key_at(i),
{
    assert(t.node_ok(i));
}

} // verus!
