//! The tree-mutation engine: an arena of nodes linked by owning child
//! indices and non-owning parent back-references, with search, insert,
//! delete (by transplantation), minimum/maximum, in-order successor and
//! root resolution.
//!
//! Every node carries a ghost set `keyset` holding exactly the keys of
//! the subtree rooted at it; the well-formedness predicate ties those
//! sets to the links, which keeps every invariant a local statement
//! about one node and its neighbours.

use vstd::prelude::*;
use vstd::set_lib::lemma_len_subset;

verus! {

/// One node of the tree: a key, an owning link to each child and a
/// non-owning back-reference to the parent, all as arena indices.
#[derive(Clone, Copy)]
pub struct BstNode {
    pub key: i32,
    pub parent: Option<usize>,
    pub left: Option<usize>,
    pub right: Option<usize>,
    /// Ghost: the keys of the subtree rooted at this node.
    pub keyset: Ghost<Set<int>>,
}

/// The tree itself: the arena, the index of the root (`None` only when
/// the last key has been deleted) and the ghost set of indices that
/// still belong to the tree (a deleted slot stays in the arena but
/// leaves this set).
pub struct Tree {
    pub nodes: Vec<BstNode>,
    pub root: Option<usize>,
    pub live: Ghost<Set<usize>>,
}

impl Tree {
    /// The slot `i` holds a node that belongs to the tree.
    pub open spec fn has_node(self, i: usize) -> bool {
        self.live@.contains(i)
    }

    /// The keys of the subtree rooted at slot `i`.
    pub open spec fn keyset_at(self, i: usize) -> Set<int> {
        self.nodes@[i as int].keyset@
    }

    /// The keys of the subtree hanging off an optional child link.
    pub open spec fn keyset_of(self, c: Option<usize>) -> Set<int> {
        match c {
            Some(j) => self.nodes@[j as int].keyset@,
            None => Set::empty(),
        }
    }

    /// All keys currently in the tree.
    pub open spec fn keys(self) -> Set<int> {
        match self.root {
            Some(r) => self.nodes@[r as int].keyset@,
            None => Set::empty(),
        }
    }

    /// The key held at slot `i`.
    pub open spec fn key_at(self, i: usize) -> int {
        self.nodes@[i as int].key as int
    }

    /// Every index of the tree names a slot of the arena.
    pub open spec fn live_in_bounds(self) -> bool {
        forall|i: usize| #[trigger] self.live@.contains(i) ==> (i as int) < self.nodes@.len()
    }

    /// The local well-formedness of the node at slot `i`: its links point
    /// at nodes of the tree and are mirrored by their back-references, the
    /// only node without a parent is the root, and its ghost keyset is the
    /// keys of both children's subtrees plus its own key, with every left
    /// key below and every right key above its own.
    pub open spec fn node_ok(self, i: usize) -> bool {
        let nd = self.nodes@[i as int];
        &&& (nd.parent is None <==> self.root == Some(i))
        &&& match nd.parent {
            Some(p) => self.live@.contains(p)
                && (self.nodes@[p as int].left == Some(i)
                    || self.nodes@[p as int].right == Some(i)),
            None => true,
        }
        &&& match nd.left {
            Some(l) => self.live@.contains(l)
                && self.nodes@[l as int].parent == Some(i),
            None => true,
        }
        &&& match nd.right {
            Some(r) => self.live@.contains(r)
                && self.nodes@[r as int].parent == Some(i),
            None => true,
        }
        &&& nd.keyset@.finite()
        &&& nd.keyset@.len() <= self.live@.len()
        &&& nd.keyset@ == self.keyset_of(nd.left).union(self.keyset_of(nd.right)).insert(nd.key as int)
        &&& forall|x: int| self.keyset_of(nd.left).contains(x) ==> x < nd.key as int
        &&& forall|x: int| self.keyset_of(nd.right).contains(x) ==> x > nd.key as int
    }

    /// The whole tree is well formed: this is the invariant every
    /// operation preserves.  It implies the binary-search-tree ordering
    /// and the parent consistency of every node of the tree.
    pub open spec fn wf(self) -> bool {
        &&& self.live@.finite()
        &&& self.live_in_bounds()
        &&& match self.root {
            Some(r) => self.live@.contains(r),
            None => true,
        }
        &&& forall|i: usize| #[trigger] self.live@.contains(i) ==> self.node_ok(i)
    }
}

/// A child's keyset is a strictly smaller subset of its parent's, and
/// never holds the parent's key.
proof fn lemma_child_keyset(t: Tree, i: usize, c: usize)
    requires
        t.wf(),
        t.has_node(i),
        t.nodes@[i as int].left == Some(c) || t.nodes@[i as int].right == Some(c),
    ensures
        t.has_node(c),
        t.keyset_at(c).subset_of(t.keyset_at(i)),
        !t.keyset_at(c).contains(t.key_at(i)),
        t.keyset_at(c).len() < t.keyset_at(i).len(),
        t.keyset_at(c).finite(),
{
    assert(t.node_ok(i));
    assert(t.node_ok(c));
    let small = t.keyset_at(c);
    let big = t.keyset_at(i);
    let k = t.key_at(i);
    assert(small.contains(t.key_at(c)));
    assert(small.subset_of(big));
    assert(!small.contains(k));
    assert(small.subset_of(big.remove(k)));
    lemma_len_subset(small, big.remove(k));
    assert(big.remove(k).len() == big.len() - 1);
}

/// The chain of parent back-references from `p[0]` up to the root
/// `p[p.len() - 1]`: every entry is a node of the tree, each entry's
/// parent is the next one, keysets only grow along the chain (strictly
/// in size, so the entries are pairwise distinct).
pub open spec fn rooted_path(t: Tree, p: Seq<usize>) -> bool {
    &&& p.len() >= 1
    &&& forall|s: int| 0 <= s < p.len() ==> t.live@.contains(#[trigger] p[s])
    &&& forall|s: int|
        0 <= s < p.len() - 1 ==> t.nodes@[#[trigger] p[s] as int].parent == Some(p[s + 1])
    &&& t.root == Some(p[p.len() - 1])
    &&& forall|s: int, u: int|
        0 <= s <= u < p.len() ==> t.keyset_at(#[trigger] p[s]).subset_of(
            t.keyset_at(#[trigger] p[u]),
        )
    &&& forall|s: int, u: int|
        0 <= s < u < p.len() ==> t.keyset_at(#[trigger] p[s]).len() < t.keyset_at(
            #[trigger] p[u],
        ).len()
}

/// Collects the parent chain from `node` up to the root.
#[verifier::rlimit(60)]
fn path_to_root(tree: &Tree, node: usize) -> (path: Vec<usize>)
    requires
        tree.wf(),
        tree.has_node(node),
    ensures
        rooted_path(*tree, path@),
        path@[0] == node,
{
    let mut path: Vec<usize> = Vec::new();
    let mut cur: usize = node;
    path.push(node);
    loop
        invariant
            tree.wf(),
            tree.has_node(cur),
            path@.len() >= 1,
            path@[0] == node,
            path@[path@.len() - 1] == cur,
            forall|s: int| 0 <= s < path@.len() ==> tree.live@.contains(#[trigger] path@[s]),
            forall|s: int|
                0 <= s < path@.len() - 1 ==> tree.nodes@[#[trigger] path@[s] as int].parent
                    == Some(path@[s + 1]),
            forall|s: int, u: int|
                0 <= s <= u < path@.len() ==> tree.keyset_at(#[trigger] path@[s]).subset_of(
                    tree.keyset_at(#[trigger] path@[u]),
                ),
            forall|s: int, u: int|
                0 <= s < u < path@.len() ==> tree.keyset_at(#[trigger] path@[s]).len()
                    < tree.keyset_at(#[trigger] path@[u]).len(),
        decreases tree.live@.len() - tree.keyset_at(cur).len(),
    {
        proof {
            assert(tree.node_ok(cur));
        }
        let nd = tree.nodes[cur];
        match nd.parent {
            None => {
                return path;
            },
            Some(p) => {
                proof {
                    assert(tree.node_ok(p));
                    lemma_child_keyset(*tree, p, cur);
                    assert forall|s: int| 0 <= s < path@.len() implies tree.keyset_at(
                        #[trigger] path@[s],
                    ).subset_of(tree.keyset_at(p)) by {
                        assert(tree.keyset_at(path@[s]).subset_of(
                            tree.keyset_at(cur),
                        ));
                    }
                    assert forall|s: int| 0 <= s < path@.len() implies tree.keyset_at(
                        #[trigger] path@[s],
                    ).len() < tree.keyset_at(p).len() by {
                        lemma_len_subset(
                            tree.keyset_at(path@[s]),
                            tree.keyset_at(cur),
                        );
                    }
                }
                path.push(p);
                cur = p;
            },
        }
    }
}

/// No node of the tree has the same child in both slots: the ordering
/// would put that child's own key on both sides of the parent's key.
proof fn lemma_two_slots(t: Tree, i: usize, c: usize)
    requires
        t.wf(),
        t.has_node(i),
        t.nodes@[i as int].left == Some(c),
    ensures
        t.nodes@[i as int].right != Some(c),
{
    assert(t.node_ok(i));
    assert(t.node_ok(c));
    if t.nodes@[i as int].right == Some(c) {
        assert(t.keyset_at(c).contains(t.key_at(c)));
        assert(t.key_at(c) < t.key_at(i));
        assert(t.key_at(c) > t.key_at(i));
    }
}

/// If a child of `j` appears on a rooted path, then the next entry of
/// the path is `j` itself: paths ascend through parents, and the only
/// parent of the child is `j`.
proof fn lemma_child_on_path(t: Tree, p: Seq<usize>, j: usize, oc: usize)
    requires
        t.wf(),
        rooted_path(t, p),
        t.live@.contains(j),
        t.nodes@[j as int].left == Some(oc) || t.nodes@[j as int].right == Some(oc),
    ensures
        forall|q: int|
            0 <= q < p.len() && #[trigger] p[q] == oc ==> q < p.len() - 1 && p[q + 1] == j,
{
    assert(t.node_ok(j));
    assert(t.node_ok(oc));
    assert(t.nodes@[oc as int].parent == Some(j));
    assert forall|q: int| 0 <= q < p.len() && #[trigger] p[q] == oc implies q < p.len() - 1 && p[q
        + 1] == j by {
        if q == p.len() - 1 {
            assert(t.root == Some(oc));
            assert(t.nodes@[oc as int].parent is None);
        } else {
            assert(t.nodes@[p[q] as int].parent == Some(p[q + 1]));
        }
    }
}

/// A child of the path entry `p[s]` other than `p[s - 1]` appears
/// nowhere on the path.
proof fn lemma_other_child_off_path(t: Tree, p: Seq<usize>, s: int, oc: usize)
    requires
        t.wf(),
        rooted_path(t, p),
        0 <= s < p.len(),
        t.nodes@[p[s] as int].left == Some(oc) || t.nodes@[p[s] as int].right == Some(oc),
        s == 0 || p[s - 1] != oc,
    ensures
        forall|q: int| 0 <= q < p.len() ==> #[trigger] p[q] != oc,
{
    let j = p[s];
    lemma_child_on_path(t, p, j, oc);
    assert forall|q: int| 0 <= q < p.len() implies #[trigger] p[q] != oc by {
        if p[q] == oc {
            assert(q < p.len() - 1 && p[q + 1] == j);
            if q + 1 < s {
                assert(t.keyset_at(p[q + 1]).len() < t.keyset_at(p[s]).len());
            }
            if s < q + 1 {
                assert(t.keyset_at(p[s]).len() < t.keyset_at(p[q + 1]).len());
            }
            assert(q + 1 == s);
            assert(p[q] == p[s - 1]);
        }
    }
}

/// A child of a node that lies off the path appears nowhere on the path.
proof fn lemma_child_of_off_path(t: Tree, p: Seq<usize>, j: usize, oc: usize)
    requires
        t.wf(),
        rooted_path(t, p),
        t.live@.contains(j),
        t.nodes@[j as int].left == Some(oc) || t.nodes@[j as int].right == Some(oc),
        forall|s: int| 0 <= s < p.len() ==> #[trigger] p[s] != j,
    ensures
        forall|q: int| 0 <= q < p.len() ==> #[trigger] p[q] != oc,
{
    lemma_child_on_path(t, p, j, oc);
    assert forall|q: int| 0 <= q < p.len() implies #[trigger] p[q] != oc by {
        if p[q] == oc {
            assert(q < p.len() - 1 && p[q + 1] == j);
        }
    }
}

/// How the tree looks after one node has been grown onto the empty
/// `to_left` slot of `node`: slot `m` holds the new leaf, the keysets
/// along the ancestor path `p` took the new key in, and everything else
/// stands as before.
pub open spec fn attach_state(
    t0: Tree,
    t1: Tree,
    p: Seq<usize>,
    node: usize,
    value: i32,
    to_left: bool,
    m: usize,
) -> bool {
    &&& m as int == t0.nodes@.len()
    &&& t1.nodes@.len() == t0.nodes@.len() + 1
    &&& t1.root == t0.root
    &&& t1.live@ == t0.live@.insert(m)
    &&& t1.nodes@[m as int].key == value
    &&& t1.nodes@[m as int].parent == Some(node)
    &&& t1.nodes@[m as int].left is None
    &&& t1.nodes@[m as int].right is None
    &&& t1.nodes@[m as int].keyset@ == Set::<int>::empty().insert(value as int)
    &&& forall|j: usize| #![trigger t0.live@.contains(j)]
        t0.live@.contains(j) ==> t1.nodes@[j as int].key == t0.nodes@[j as int].key
            && t1.nodes@[j as int].parent == t0.nodes@[j as int].parent
    &&& forall|j: usize| #![trigger t0.live@.contains(j)]
        t0.live@.contains(j) && j != node ==> t1.nodes@[j as int].left == t0.nodes@[j as int].left
            && t1.nodes@[j as int].right == t0.nodes@[j as int].right
    &&& (to_left ==> t1.nodes@[node as int].left == Some(m) && t1.nodes@[node as int].right
        == t0.nodes@[node as int].right)
    &&& (!to_left ==> t1.nodes@[node as int].right == Some(m) && t1.nodes@[node as int].left
        == t0.nodes@[node as int].left)
    &&& forall|s: int|
        0 <= s < p.len() ==> t1.nodes@[#[trigger] p[s] as int].keyset@
            == t0.nodes@[p[s] as int].keyset@.insert(value as int)
    &&& forall|j: usize| #![trigger t0.live@.contains(j)]
        t0.live@.contains(j) && (forall|s: int| 0 <= s < p.len() ==> #[trigger] p[s] != j)
            ==> t1.nodes@[j as int].keyset@ == t0.nodes@[j as int].keyset@
}

/// The slot where a key is attached accepts it: the slot is empty and
/// no key of the tree lies between the new key and the slot owner's.
pub open spec fn fits_slot(t: Tree, node: usize, value: i32, to_left: bool) -> bool {
    if to_left {
        &&& t.nodes@[node as int].left is None
        &&& (value as int) < t.key_at(node)
        &&& forall|z: int| t.keys().contains(z) ==> z >= t.key_at(node) || z < value as int
    } else {
        &&& t.nodes@[node as int].right is None
        &&& (value as int) > t.key_at(node)
        &&& forall|z: int| t.keys().contains(z) ==> z <= t.key_at(node) || z > value as int
    }
}

/// Facts every attachment proof leans on: the keysets along the path
/// sit inside the key set, each holds the attachment node's key, and
/// the new key is not in the tree yet.
proof fn lemma_attach_prelims(t0: Tree, p: Seq<usize>, node: usize, value: i32, to_left: bool)
    requires
        t0.wf(),
        rooted_path(t0, p),
        p[0] == node,
        t0.live@.contains(node),
        fits_slot(t0, node, value, to_left),
    ensures
        forall|s: int| 0 <= s < p.len() ==> t0.keyset_at(#[trigger] p[s]).subset_of(t0.keys()),
        forall|s: int| 0 <= s < p.len() ==> t0.keyset_at(#[trigger] p[s]).contains(t0.key_at(node)),
        !t0.keys().contains(value as int),
{
    let plen = p.len() as int;
    let r = p[plen - 1];
    let k0 = t0.key_at(node);
    assert(t0.node_ok(node));
    assert forall|s: int| 0 <= s < plen implies t0.keyset_at(#[trigger] p[s]).subset_of(
        t0.keys(),
    ) by {
        assert(t0.keyset_at(p[s]).subset_of(t0.keyset_at(r)));
    }
    assert forall|s: int| 0 <= s < plen implies t0.keyset_at(#[trigger] p[s]).contains(k0) by {
        assert(t0.keyset_at(p[0]).subset_of(t0.keyset_at(p[s])));
    }
    if t0.keys().contains(value as int) {
        assert(value as int >= k0 || (value as int) < value as int || value as int <= k0 || (
        value as int) > value as int);
    }
}

/// After the attachment, the node at path position `s` is still well
/// formed: its keyset took the new key in, and the key went to the
/// correct side of its own key.
#[verifier::spinoff_prover]
#[verifier::rlimit(100)]
proof fn lemma_attach_on_path(
    t0: Tree,
    t1: Tree,
    p: Seq<usize>,
    node: usize,
    value: i32,
    to_left: bool,
    m: usize,
    s: int,
)
    requires
        t0.wf(),
        rooted_path(t0, p),
        p[0] == node,
        t0.live@.contains(node),
        fits_slot(t0, node, value, to_left),
        attach_state(t0, t1, p, node, value, to_left, m),
        0 <= s < p.len(),
    ensures
        t1.node_ok(p[s]),
{
    let plen = p.len() as int;
    let r = p[plen - 1];
    let k0 = t0.key_at(node);
    lemma_attach_prelims(t0, p, node, value, to_left);
    let j = p[s];
    assert(t0.node_ok(j));
    assert(!t0.live@.contains(m));
    let nd0 = t0.nodes@[j as int];
    let nd1 = t1.nodes@[j as int];
    assert(match nd0.left {
        Some(l) => t0.live@.contains(l) && l != m,
        None => true,
    });
    assert(match nd0.right {
        Some(rt) => t0.live@.contains(rt) && rt != m,
        None => true,
    });
    assert(nd1.keyset@ == nd0.keyset@.insert(value as int));
    assert(nd0.keyset@.subset_of(t0.keys()));
    assert(!nd0.keyset@.contains(value as int));
    assert(nd1.keyset@.len() == nd0.keyset@.len() + 1);
    assert(t1.live@.len() == t0.live@.len() + 1);
    // the parent side: either j is the root, or its parent is the next
    // path entry, whose child slots are as before
    if s < plen - 1 {
        assert(nd0.parent == Some(p[s + 1]));
        assert(p[s + 1] != p[0]) by {
            assert(t0.keyset_at(p[0]).len() < t0.keyset_at(p[s + 1]).len());
        }
        assert(t1.nodes@[p[s + 1] as int].left == t0.nodes@[p[s + 1] as int].left
            && t1.nodes@[p[s + 1] as int].right == t0.nodes@[p[s + 1] as int].right);
    } else {
        assert(j == r);
    }
    if s == 0 {
        // j is the attachment node itself
        assert(j == node);
        if to_left {
            match nd0.right {
                Some(oc) => {
                    lemma_other_child_off_path(t0, p, 0, oc);
                    assert(t1.nodes@[oc as int].keyset@ == t0.nodes@[oc as int].keyset@);
                    assert(t0.keyset_at(oc).subset_of(nd0.keyset@));
                },
                None => {},
            }
            assert(t0.keyset_of(nd0.left) =~= Set::<int>::empty());
            assert(nd1.keyset@ =~= t1.keyset_of(nd1.left).union(t1.keyset_of(nd1.right)).insert(
                nd1.key as int,
            ));
        } else {
            match nd0.left {
                Some(oc) => {
                    lemma_other_child_off_path(t0, p, 0, oc);
                    assert(t1.nodes@[oc as int].keyset@ == t0.nodes@[oc as int].keyset@);
                    assert(t0.keyset_at(oc).subset_of(nd0.keyset@));
                },
                None => {},
            }
            assert(t0.keyset_of(nd0.right) =~= Set::<int>::empty());
            assert(nd1.keyset@ =~= t1.keyset_of(nd1.left).union(t1.keyset_of(nd1.right)).insert(
                nd1.key as int,
            ));
        }
    } else {
        // j is a proper ancestor: exactly one child is on the path
        assert(j != node) by {
            assert(t0.keyset_at(p[0]).len() < t0.keyset_at(p[s]).len());
        }
        let c = p[s - 1];
        assert(t0.nodes@[p[s - 1] as int].parent == Some(p[s]));
        assert(t0.node_ok(c));
        assert(nd0.left == Some(c) || nd0.right == Some(c));
        assert(t1.nodes@[c as int].keyset@ == t0.nodes@[c as int].keyset@.insert(value as int));
        assert(t0.keyset_at(c).contains(k0));
        if nd0.left == Some(c) {
            assert(k0 < nd0.key as int);
            match nd0.right {
                Some(oc) => {
                    assert(oc != c) by {
                        lemma_two_slots(t0, j, c);
                    }
                    lemma_other_child_off_path(t0, p, s, oc);
                    assert(t1.nodes@[oc as int].keyset@ == t0.nodes@[oc as int].keyset@);
                    assert(t0.keyset_at(oc).subset_of(nd0.keyset@));
                },
                None => {},
            }
            // the new key lands on the left side, below j's key
            assert((value as int) < nd0.key as int) by {
                if !to_left {
                    assert(t0.keys().contains(nd0.key as int));
                }
            }
            assert(nd1.keyset@ =~= t1.keyset_of(nd1.left).union(t1.keyset_of(nd1.right)).insert(
                nd1.key as int,
            ));
        } else {
            assert(k0 > nd0.key as int);
            match nd0.left {
                Some(oc) => {
                    assert(oc != c) by {
                        lemma_two_slots(t0, j, oc);
                    }
                    lemma_other_child_off_path(t0, p, s, oc);
                    assert(t1.nodes@[oc as int].keyset@ == t0.nodes@[oc as int].keyset@);
                    assert(t0.keyset_at(oc).subset_of(nd0.keyset@));
                },
                None => {},
            }
            // the new key lands on the right side, above j's key
            assert((value as int) > nd0.key as int) by {
                if to_left {
                    assert(t0.keys().contains(nd0.key as int));
                }
            }
            assert(nd1.keyset@ =~= t1.keyset_of(nd1.left).union(t1.keyset_of(nd1.right)).insert(
                nd1.key as int,
            ));
        }
    }
}

/// After the attachment, a node off the path is untouched and stays
/// well formed.
#[verifier::spinoff_prover]
#[verifier::rlimit(100)]
proof fn lemma_attach_off_path(
    t0: Tree,
    t1: Tree,
    p: Seq<usize>,
    node: usize,
    value: i32,
    to_left: bool,
    m: usize,
    j: usize,
)
    requires
        t0.wf(),
        rooted_path(t0, p),
        p[0] == node,
        t0.live@.contains(node),
        fits_slot(t0, node, value, to_left),
        attach_state(t0, t1, p, node, value, to_left, m),
        t0.live@.contains(j),
        forall|s: int| 0 <= s < p.len() ==> #[trigger] p[s] != j,
    ensures
        t1.node_ok(j),
{
    let plen = p.len() as int;
    let r = p[plen - 1];
    assert(t0.node_ok(j));
    assert(!t0.live@.contains(m));
    let nd0 = t0.nodes@[j as int];
    let nd1 = t1.nodes@[j as int];
    assert(j != node);
    assert(nd1.keyset@ == nd0.keyset@);
    assert(nd1.left == nd0.left && nd1.right == nd0.right);
    assert(t1.live@.len() == t0.live@.len() + 1);
    match nd0.left {
        Some(oc) => {
            assert(t0.live@.contains(oc) && oc != m);
            lemma_child_of_off_path(t0, p, j, oc);
            assert(t1.nodes@[oc as int].keyset@ == t0.nodes@[oc as int].keyset@);
        },
        None => {},
    }
    match nd0.right {
        Some(oc) => {
            assert(t0.live@.contains(oc) && oc != m);
            lemma_child_of_off_path(t0, p, j, oc);
            assert(t1.nodes@[oc as int].keyset@ == t0.nodes@[oc as int].keyset@);
        },
        None => {},
    }
    assert(j != r);
    assert(t1.root != Some(j));
    assert(nd1.keyset@ == t1.keyset_of(nd1.left).union(t1.keyset_of(nd1.right)).insert(
        nd1.key as int,
    ));
}

/// Growing a well-formed tree by one fitting leaf keeps it well formed
/// and adds exactly the new key.
#[verifier::spinoff_prover]
#[verifier::rlimit(100)]
proof fn lemma_attach_wf(
    t0: Tree,
    t1: Tree,
    p: Seq<usize>,
    node: usize,
    value: i32,
    to_left: bool,
    m: usize,
)
    requires
        t0.wf(),
        rooted_path(t0, p),
        p[0] == node,
        t0.live@.contains(node),
        fits_slot(t0, node, value, to_left),
        attach_state(t0, t1, p, node, value, to_left, m),
    ensures
        t1.wf(),
        t1.keys() == t0.keys().insert(value as int),
{
    let plen = p.len() as int;
    let r = p[plen - 1];
    assert(t0.root == Some(r));
    assert(t1.keys() == t0.keys().insert(value as int));
    assert(!t0.live@.contains(m));
    assert(t1.live@.len() == t0.live@.len() + 1);
    assert forall|j: usize| t1.live@.contains(j) implies t1.node_ok(j) by {
        if j == m {
            assert(t0.live@.contains(r));
            assert((r as int) < t0.nodes@.len());
            assert(t1.root != Some(m));
            assert(t1.nodes@[j as int].keyset@ =~= t1.keyset_of(t1.nodes@[j as int].left).union(
                t1.keyset_of(t1.nodes@[j as int].right),
            ).insert(t1.nodes@[j as int].key as int));
        } else {
            assert(t0.live@.contains(j));
            if exists|s: int| 0 <= s < plen && #[trigger] p[s] == j {
                let s = choose|s: int| 0 <= s < plen && #[trigger] p[s] == j;
                lemma_attach_on_path(t0, t1, p, node, value, to_left, m, s);
            } else {
                lemma_attach_off_path(t0, t1, p, node, value, to_left, m, j);
            }
        }
    }
}

/// Grows the tree by one node holding `value`, hung on the empty left
/// (`to_left`) or right slot of `node`.  The caller guarantees that the
/// slot is the one place where `value` belongs: no key of the tree lies
/// between `value` and the key of `node`.
fn attach_new(tree: &mut Tree, node: usize, value: i32, to_left: bool)
    requires
        old(tree).wf(),
        old(tree).has_node(node),
        fits_slot(*old(tree), node, value, to_left),
    ensures
        final(tree).wf(),
        final(tree).keys() == old(tree).keys().insert(value as int),
        final(tree).root == old(tree).root,
        final(tree).nodes@.len() == old(tree).nodes@.len() + 1,
        final(tree).live@ == old(tree).live@.insert(old(tree).nodes@.len() as usize),
        final(tree).nodes@[old(tree).nodes@.len() as int].key == value,
        final(tree).nodes@[old(tree).nodes@.len() as int].parent == Some(node),
        final(tree).nodes@[old(tree).nodes@.len() as int].left is None,
        final(tree).nodes@[old(tree).nodes@.len() as int].right is None,
        to_left ==> final(tree).nodes@[node as int].left == Some(old(tree).nodes@.len() as usize)
            && final(tree).nodes@[node as int].right == old(tree).nodes@[node as int].right,
        !to_left ==> final(tree).nodes@[node as int].right == Some(
            old(tree).nodes@.len() as usize,
        ) && final(tree).nodes@[node as int].left == old(tree).nodes@[node as int].left,
        forall|j: usize| #![trigger old(tree).live@.contains(j)]
            old(tree).live@.contains(j) ==> final(tree).nodes@[j as int].key == old(
                tree,
            ).nodes@[j as int].key && final(tree).nodes@[j as int].parent == old(
                tree,
            ).nodes@[j as int].parent,
        forall|j: usize| #![trigger old(tree).live@.contains(j)]
            old(tree).live@.contains(j) && j != node ==> final(tree).nodes@[j as int].left == old(
                tree,
            ).nodes@[j as int].left && final(tree).nodes@[j as int].right == old(
                tree,
            ).nodes@[j as int].right,
{
    let ghost t0 = *tree;
    let path = path_to_root(tree, node);
    let m: usize = tree.nodes.len();
    proof {
        assert(!t0.live@.contains(m));
    }
    tree.nodes.push(
        BstNode {
            key: value,
            parent: Some(node),
            left: None,
            right: None,
            keyset: Ghost(Set::empty().insert(value as int)),
        },
    );
    let mut nd = tree.nodes[node];
    if to_left {
        nd.left = Some(m);
    } else {
        nd.right = Some(m);
    }
    tree.nodes.set(node, nd);
    tree.live = Ghost(tree.live@.insert(m));
    let mut idx: usize = 0;
    while idx < path.len()
        invariant
            t0 == *old(tree),
            t0.wf(),
            rooted_path(t0, path@),
            path@[0] == node,
            t0.live@.contains(node),
            m as int == t0.nodes@.len(),
            !t0.live@.contains(m),
            idx <= path@.len(),
            tree.nodes@.len() == t0.nodes@.len() + 1,
            tree.root == t0.root,
            tree.live@ == t0.live@.insert(m),
            tree.nodes@[m as int].key == value,
            tree.nodes@[m as int].parent == Some(node),
            tree.nodes@[m as int].left is None,
            tree.nodes@[m as int].right is None,
            tree.nodes@[m as int].keyset@ == Set::<int>::empty().insert(value as int),
            forall|j: usize| #![trigger t0.live@.contains(j)]
                t0.live@.contains(j) ==> tree.nodes@[j as int].key == t0.nodes@[j as int].key
                    && tree.nodes@[j as int].parent == t0.nodes@[j as int].parent,
            forall|j: usize| #![trigger t0.live@.contains(j)]
                t0.live@.contains(j) && j != node ==> tree.nodes@[j as int].left
                    == t0.nodes@[j as int].left && tree.nodes@[j as int].right
                    == t0.nodes@[j as int].right,
            to_left ==> tree.nodes@[node as int].left == Some(m) && tree.nodes@[node as int].right
                == t0.nodes@[node as int].right,
            !to_left ==> tree.nodes@[node as int].right == Some(m) && tree.nodes@[node as int].left
                == t0.nodes@[node as int].left,
            forall|s: int|
                0 <= s < idx ==> tree.nodes@[#[trigger] path@[s] as int].keyset@
                    == t0.nodes@[path@[s] as int].keyset@.insert(value as int),
            forall|s: int|
                idx <= s < path@.len() ==> tree.nodes@[#[trigger] path@[s] as int].keyset@
                    == t0.nodes@[path@[s] as int].keyset@,
            forall|j: usize| #![trigger t0.live@.contains(j)]
                t0.live@.contains(j) && (forall|s: int|
                    0 <= s < path@.len() ==> #[trigger] path@[s] != j) ==> tree.nodes@[j
                    as int].keyset@ == t0.nodes@[j as int].keyset@,
        decreases path@.len() - idx,
    {
        let p_i = path[idx];
        proof {
            assert(t0.live@.contains(p_i));
            assert forall|s: int| 0 <= s < path@.len() && s != idx implies #[trigger] path@[s]
                != p_i by {
                if s < idx {
                    assert(t0.keyset_at(path@[s]).len() < t0.keyset_at(p_i).len());
                } else {
                    assert(t0.keyset_at(p_i).len() < t0.keyset_at(path@[s]).len());
                }
            }
        }
        let mut pn = tree.nodes[p_i];
        pn.keyset = Ghost(pn.keyset@.insert(value as int));
        tree.nodes.set(p_i, pn);
        idx += 1;
    }
    proof {
        assert(attach_state(t0, *tree, path@, node, value, to_left, m));
        lemma_attach_wf(t0, *tree, path@, node, value, to_left, m);
    }
}
/// The descent from the root toward the key `k`: each step goes left
/// or right of the previous entry as the ordering demands, keysets
/// shrink strictly along the way, and `k` sits in every keyset of the
/// chain exactly when it is in the tree at all.
pub open spec fn descent_path(t: Tree, p: Seq<usize>, k: int) -> bool {
    &&& p.len() >= 1
    &&& t.root == Some(p[0])
    &&& forall|s: int| 0 <= s < p.len() ==> t.live@.contains(#[trigger] p[s])
    &&& forall|s: int|
        0 < s < p.len() ==> (t.nodes@[p[s - 1] as int].left == Some(#[trigger] p[s]) && k
            < t.key_at(p[s - 1])) || (t.nodes@[p[s - 1] as int].right == Some(p[s]) && k
            > t.key_at(p[s - 1]))
    &&& forall|s: int, u: int|
        0 <= s <= u < p.len() ==> t.keyset_at(#[trigger] p[u]).subset_of(
            t.keyset_at(#[trigger] p[s]),
        )
    &&& forall|s: int, u: int|
        0 <= s < u < p.len() ==> t.keyset_at(#[trigger] p[u]).len() < t.keyset_at(
            #[trigger] p[s],
        ).len()
}

/// Walks from the root toward `value` and returns the whole descent
/// path when the key is present; `None` exactly when it is not.
#[verifier::spinoff_prover]
#[verifier::rlimit(100)]
fn find_path(tree: &Tree, value: i32) -> (res: Option<Vec<usize>>)
    requires
        tree.wf(),
        tree.root is Some,
    ensures
        match res {
            Some(path) => descent_path(*tree, path@, value as int) && tree.key_at(
                path@[path@.len() - 1],
            ) == value as int && tree.keys().contains(value as int),
            None => !tree.keys().contains(value as int),
        },
{
    let mut path: Vec<usize> = Vec::new();
    let mut cur: usize;
    match tree.root {
        Some(r) => {
            cur = r;
        },
        None => {
            return None;
        },
    }
    path.push(cur);
    loop
        invariant
            tree.wf(),
            tree.has_node(cur),
            path@.len() >= 1,
            tree.root == Some(path@[0]),
            path@[path@.len() - 1] == cur,
            forall|s: int| 0 <= s < path@.len() ==> tree.live@.contains(#[trigger] path@[s]),
            forall|s: int|
                0 < s < path@.len() ==> (tree.nodes@[path@[s - 1] as int].left == Some(
                    #[trigger] path@[s],
                ) && (value as int) < tree.key_at(path@[s - 1])) || (tree.nodes@[path@[s
                - 1] as int].right == Some(path@[s]) && (value as int) > tree.key_at(path@[s - 1])),
            forall|s: int, u: int|
                0 <= s <= u < path@.len() ==> tree.keyset_at(#[trigger] path@[u]).subset_of(
                    tree.keyset_at(#[trigger] path@[s]),
                ),
            forall|s: int, u: int|
                0 <= s < u < path@.len() ==> tree.keyset_at(#[trigger] path@[u]).len()
                    < tree.keyset_at(#[trigger] path@[s]).len(),
            tree.keys().contains(value as int) <==> tree.keyset_at(cur).contains(value as int),
        decreases tree.keyset_at(cur).len(),
    {
        proof {
            assert(tree.node_ok(cur));
        }
        let nd = tree.nodes[cur];
        if nd.key == value {
            return Some(path);
        }
        let nxt: Option<usize> = if value < nd.key {
            nd.left
        } else {
            nd.right
        };
        match nxt {
            Some(c) => {
                proof {
                    lemma_child_keyset(*tree, cur, c);
                    assert forall|s: int| 0 <= s < path@.len() implies tree.keyset_at(
                        c,
                    ).subset_of(tree.keyset_at(#[trigger] path@[s])) by {
                        assert(tree.keyset_at(cur).subset_of(tree.keyset_at(path@[s])));
                    }
                    assert forall|s: int| 0 <= s < path@.len() implies tree.keyset_at(c).len()
                        < tree.keyset_at(#[trigger] path@[s]).len() by {
                        lemma_len_subset(tree.keyset_at(cur), tree.keyset_at(path@[s]));
                    }
                }
                path.push(c);
                cur = c;
            },
            None => {
                return None;
            },
        }
    }
}

/// The left spine from `q[0]` down to the minimum of that subtree:
/// every step is a left link and the last entry has no left child.
pub open spec fn left_spine(t: Tree, q: Seq<usize>) -> bool {
    &&& q.len() >= 1
    &&& forall|s: int| 0 <= s < q.len() ==> t.live@.contains(#[trigger] q[s])
    &&& forall|s: int| 0 < s < q.len() ==> t.nodes@[q[s - 1] as int].left == Some(#[trigger] q[s])
    &&& t.nodes@[q[q.len() - 1] as int].left is None
    &&& forall|s: int, u: int|
        0 <= s <= u < q.len() ==> t.keyset_at(#[trigger] q[u]).subset_of(
            t.keyset_at(#[trigger] q[s]),
        )
    &&& forall|s: int, u: int|
        0 <= s < u < q.len() ==> t.keyset_at(#[trigger] q[u]).len() < t.keyset_at(
            #[trigger] q[s],
        ).len()
}

/// Descends left links from `start` and returns the whole spine; the
/// last entry holds the smallest key of the subtree at `start`.
#[verifier::rlimit(60)]
fn min_path(tree: &Tree, start: usize) -> (q: Vec<usize>)
    requires
        tree.wf(),
        tree.has_node(start),
    ensures
        left_spine(*tree, q@),
        q@[0] == start,
        forall|s: int|
            0 <= s < q@.len() ==> tree.keyset_at(#[trigger] q@[s]).contains(
                tree.key_at(q@[q@.len() - 1]),
            ),
        forall|x: int|
            tree.keyset_at(start).contains(x) ==> x >= tree.key_at(q@[q@.len() - 1]),
{
    let mut q: Vec<usize> = Vec::new();
    let mut cur: usize = start;
    q.push(cur);
    loop
        invariant
            tree.wf(),
            tree.has_node(cur),
            q@.len() >= 1,
            q@[0] == start,
            q@[q@.len() - 1] == cur,
            forall|s: int| 0 <= s < q@.len() ==> tree.live@.contains(#[trigger] q@[s]),
            forall|s: int|
                0 < s < q@.len() ==> tree.nodes@[q@[s - 1] as int].left == Some(#[trigger] q@[s]),
            forall|s: int, u: int|
                0 <= s <= u < q@.len() ==> tree.keyset_at(#[trigger] q@[u]).subset_of(
                    tree.keyset_at(#[trigger] q@[s]),
                ),
            forall|s: int, u: int|
                0 <= s < u < q@.len() ==> tree.keyset_at(#[trigger] q@[u]).len() < tree.keyset_at(
                    #[trigger] q@[s],
                ).len(),
            forall|x: int, y: int|
                #![trigger tree.keyset_at(start).contains(x), tree.keyset_at(cur).contains(y)]
                tree.keyset_at(start).contains(x) && !tree.keyset_at(cur).contains(x)
                    && tree.keyset_at(cur).contains(y) ==> y < x,
        decreases tree.keyset_at(cur).len(),
    {
        proof {
            assert(tree.node_ok(cur));
        }
        let nd = tree.nodes[cur];
        match nd.left {
            Some(l) => {
                proof {
                    lemma_child_keyset(*tree, cur, l);
                    assert forall|s: int| 0 <= s < q@.len() implies tree.keyset_at(l).subset_of(
                        tree.keyset_at(#[trigger] q@[s]),
                    ) by {
                        assert(tree.keyset_at(cur).subset_of(tree.keyset_at(q@[s])));
                    }
                    assert forall|s: int| 0 <= s < q@.len() implies tree.keyset_at(l).len()
                        < tree.keyset_at(#[trigger] q@[s]).len() by {
                        lemma_len_subset(tree.keyset_at(cur), tree.keyset_at(q@[s]));
                    }
                }
                q.push(l);
                cur = l;
            },
            None => {
                proof {
                    assert(tree.keyset_at(cur).contains(tree.key_at(cur)));
                    assert forall|s: int| 0 <= s < q@.len() implies tree.keyset_at(
                        #[trigger] q@[s],
                    ).contains(tree.key_at(cur)) by {
                        assert(tree.keyset_at(cur).subset_of(tree.keyset_at(q@[s])));
                    }
                    assert forall|x: int| tree.keyset_at(start).contains(x) implies x
                        >= tree.key_at(cur) by {
                        if !tree.keyset_at(cur).contains(x) {
                            assert(tree.keyset_at(cur).contains(tree.key_at(cur)));
                        } else {
                            assert(x == tree.key_at(cur) || tree.keyset_of(
                                tree.nodes@[cur as int].right,
                            ).contains(x));
                        }
                    }
                }
                return q;
            },
        }
    }
}

/// No node is its own parent: it would be its own child, and its key
/// would have to sit strictly on one side of itself.
proof fn lemma_parent_distinct(t: Tree, i: usize)
    requires
        t.wf(),
        t.has_node(i),
    ensures
        t.nodes@[i as int].parent != Some(i),
{
    assert(t.node_ok(i));
    if t.nodes@[i as int].parent == Some(i) {
        assert(t.keyset_at(i).contains(t.key_at(i)));
        assert(t.nodes@[i as int].left == Some(i) || t.nodes@[i as int].right == Some(i));
    }
}

/// If a child of `j` appears on a descent path, then the previous
/// entry of the path is `j` itself.
proof fn lemma_descent_child_on_path(t: Tree, p: Seq<usize>, k: int, j: usize, oc: usize)
    requires
        t.wf(),
        descent_path(t, p, k),
        t.live@.contains(j),
        t.nodes@[j as int].left == Some(oc) || t.nodes@[j as int].right == Some(oc),
    ensures
        forall|q: int| 0 <= q < p.len() && #[trigger] p[q] == oc ==> q >= 1 && p[q - 1] == j,
{
    assert(t.node_ok(j));
    assert(t.node_ok(oc));
    assert(t.nodes@[oc as int].parent == Some(j));
    assert forall|q: int| 0 <= q < p.len() && #[trigger] p[q] == oc implies q >= 1 && p[q - 1]
        == j by {
        if q == 0 {
            assert(t.root == Some(oc));
            assert(t.nodes@[oc as int].parent is None);
        } else {
            assert((t.nodes@[p[q - 1] as int].left == Some(p[q]) && k < t.key_at(p[q - 1])) || (
            t.nodes@[p[q - 1] as int].right == Some(p[q]) && k > t.key_at(p[q - 1])));
            assert(t.node_ok(p[q - 1]));
            assert(t.nodes@[p[q] as int].parent == Some(p[q - 1]));
        }
    }
}

/// The shape around the last entry `d` of a descent path for the key
/// it holds: its parent is the entry before it, a child of `d` is not
/// on the path and differs from `d`'s parent, and the path keysets all
/// hold `d`'s key.
proof fn lemma_descent_shape(t: Tree, p: Seq<usize>)
    requires
        t.wf(),
        descent_path(t, p, t.key_at(p[p.len() - 1])),
    ensures
        p.len() >= 2 ==> t.nodes@[p[p.len() - 1] as int].parent == Some(p[p.len() - 2]),
        p.len() == 1 ==> t.nodes@[p[p.len() - 1] as int].parent is None,
        forall|s: int|
            0 <= s < p.len() ==> t.keyset_at(#[trigger] p[s]).contains(t.key_at(p[p.len() - 1])),
        forall|s: int|
            0 <= s < p.len() - 1 ==> t.key_at(#[trigger] p[s]) != t.key_at(p[p.len() - 1]),
{
    let plen = p.len() as int;
    let d = p[plen - 1];
    let k = t.key_at(d);
    assert(t.node_ok(d));
    assert(t.node_ok(p[0]));
    if plen >= 2 {
        assert((t.nodes@[p[plen - 2] as int].left == Some(p[plen - 1]) && k < t.key_at(
            p[plen - 2],
        )) || (t.nodes@[p[plen - 2] as int].right == Some(p[plen - 1]) && k > t.key_at(
            p[plen - 2],
        )));
        assert(t.node_ok(p[plen - 2]));
    } else {
        assert(t.root == Some(d));
    }
    assert forall|s: int| 0 <= s < plen implies t.keyset_at(#[trigger] p[s]).contains(k) by {
        assert(t.keyset_at(d).subset_of(t.keyset_at(p[s])));
        assert(t.keyset_at(d).contains(k));
    }
    assert forall|s: int| 0 <= s < plen - 1 implies t.key_at(#[trigger] p[s]) != k by {
        assert((t.nodes@[p[s] as int].left == Some(p[s + 1]) && k < t.key_at(p[s])) || (
        t.nodes@[p[s] as int].right == Some(p[s + 1]) && k > t.key_at(p[s])));
    }
}

/// How the tree looks after the last entry `d` of the descent path has
/// been cut out and its only child `cld` (possibly none) promoted into
/// its place: the parent's slot or the root points at `cld`, `cld`'s
/// back-reference moved up, the keysets above lost `d`'s key, and
/// everything else stands as before.
pub open spec fn splice_state(t0: Tree, t1: Tree, p: Seq<usize>, cld: Option<usize>) -> bool {
    let plen = p.len() as int;
    let d = p[plen - 1];
    let k = t0.key_at(d);
    &&& t1.nodes@.len() == t0.nodes@.len()
    &&& t1.live@ == t0.live@.remove(d)
    &&& match t0.nodes@[d as int].parent {
        None => t1.root == cld,
        Some(pd) => t1.root == t0.root && t1.nodes@[pd as int].left == (
        if t0.nodes@[pd as int].left == Some(d) {
            cld
        } else {
            t0.nodes@[pd as int].left
        }) && t1.nodes@[pd as int].right == (
        if t0.nodes@[pd as int].left == Some(d) {
            t0.nodes@[pd as int].right
        } else {
            cld
        }),
    }
    &&& match cld {
        Some(c) => t1.nodes@[c as int].parent == t0.nodes@[d as int].parent,
        None => true,
    }
    &&& forall|j: usize| #![trigger t0.live@.contains(j)]
        t0.live@.contains(j) ==> t1.nodes@[j as int].key == t0.nodes@[j as int].key
    &&& forall|j: usize| #![trigger t0.live@.contains(j)]
        t0.live@.contains(j) && Some(j) != cld ==> t1.nodes@[j as int].parent
            == t0.nodes@[j as int].parent
    &&& forall|j: usize| #![trigger t0.live@.contains(j)]
        t0.live@.contains(j) && Some(j) != t0.nodes@[d as int].parent ==> t1.nodes@[j
            as int].left == t0.nodes@[j as int].left && t1.nodes@[j as int].right == t0.nodes@[j
            as int].right
    &&& forall|s: int|
        0 <= s < plen - 1 ==> t1.nodes@[#[trigger] p[s] as int].keyset@ == t0.nodes@[p[s]
            as int].keyset@.remove(k)
    &&& forall|j: usize| #![trigger t0.live@.contains(j)]
        t0.live@.contains(j) && (forall|s: int| 0 <= s < plen - 1 ==> #[trigger] p[s] != j)
            ==> t1.nodes@[j as int].keyset@ == t0.nodes@[j as int].keyset@
}

/// The child being promoted keeps a well-formed record after the
/// splice.
#[verifier::spinoff_prover]
#[verifier::rlimit(100)]
proof fn lemma_splice_child(t0: Tree, t1: Tree, p: Seq<usize>, c: usize)
    requires
        t0.wf(),
        descent_path(t0, p, t0.key_at(p[p.len() - 1])),
        t0.nodes@[p[p.len() - 1] as int].left is None || t0.nodes@[p[p.len() - 1] as int].right
            is None,
        t0.nodes@[p[p.len() - 1] as int].left == Some(c) || t0.nodes@[p[p.len() - 1] as int].right
            == Some(c),
        splice_state(t0, t1, p, Some(c)),
    ensures
        t1.node_ok(c),
{
    let plen = p.len() as int;
    let d = p[plen - 1];
    let k = t0.key_at(d);
    lemma_descent_shape(t0, p);
    assert(t0.node_ok(d));
    assert(t0.node_ok(c));
    lemma_parent_distinct(t0, d);
    lemma_child_keyset(t0, d, c);
    // c is not on the path, so its record besides the parent is as before
    lemma_descent_child_on_path(t0, p, k, d, c);
    assert forall|s: int| 0 <= s < plen - 1 implies #[trigger] p[s] != c by {
        if p[s] == c {
            assert(s >= 1 && p[s - 1] == d);
            assert(t0.keyset_at(p[plen - 1]).len() < t0.keyset_at(p[s - 1]).len());
        }
    }
    assert(t1.nodes@[c as int].keyset@ == t0.nodes@[c as int].keyset@);
    assert(t1.nodes@[c as int].left == t0.nodes@[c as int].left) by {
        if Some(c) == t0.nodes@[d as int].parent {
            assert(t0.nodes@[c as int].left == Some(d) || t0.nodes@[c as int].right == Some(d));
            lemma_child_keyset(t0, c, d);
        }
    }
    assert(t1.nodes@[c as int].right == t0.nodes@[c as int].right);
    // children of c are untouched
    match t0.nodes@[c as int].left {
        Some(cc) => {
            assert(t0.node_ok(cc));
            assert(cc != c);
            assert(cc != d) by {
                if cc == d {
                    assert(t0.nodes@[d as int].parent == Some(c));
                    lemma_child_keyset(t0, c, d);
                }
            }
            assert(Some(cc) != t0.nodes@[d as int].parent) by {
                if Some(cc) == t0.nodes@[d as int].parent {
                    assert(plen >= 2 && cc == p[plen - 2]);
                    assert(t0.nodes@[cc as int].parent == Some(c));
                    assert(t0.nodes@[p[plen - 2] as int].parent == (if plen >= 3 {
                        Some(p[plen - 3])
                    } else {
                        t0.nodes@[p[0] as int].parent
                    }));
                    if plen >= 3 {
                        assert(t0.node_ok(p[plen - 3]));
                        assert(c == p[plen - 3]);
                    } else {
                        assert(t0.root == Some(p[0]));
                        assert(t0.nodes@[p[0] as int].parent is None);
                    }
                }
            }
            assert(t1.nodes@[cc as int].parent == t0.nodes@[cc as int].parent);
        },
        None => {},
    }
    match t0.nodes@[c as int].right {
        Some(cc) => {
            assert(t0.node_ok(cc));
            assert(cc != c);
            assert(cc != d) by {
                if cc == d {
                    assert(t0.nodes@[d as int].parent == Some(c));
                    lemma_child_keyset(t0, c, d);
                }
            }
            assert(Some(cc) != t0.nodes@[d as int].parent) by {
                if Some(cc) == t0.nodes@[d as int].parent {
                    assert(plen >= 2 && cc == p[plen - 2]);
                    assert(t0.nodes@[cc as int].parent == Some(c));
                    if plen >= 3 {
                        assert(t0.node_ok(p[plen - 3]));
                        assert(c == p[plen - 3]);
                    } else {
                        assert(t0.root == Some(p[0]));
                        assert(t0.nodes@[p[0] as int].parent is None);
                    }
                }
            }
            assert(t1.nodes@[cc as int].parent == t0.nodes@[cc as int].parent);
        },
        None => {},
    }
    // the parent side of c after the splice
    match t0.nodes@[d as int].parent {
        None => {
            assert(plen == 1);
            assert(t1.root == Some(c));
            assert(t1.nodes@[c as int].parent is None);
        },
        Some(pd) => {
            assert(plen >= 2 && pd == p[plen - 2]);
            assert(pd != d);
            assert(pd != c) by {
                if pd == c {
                    assert(t0.keyset_at(c).len() < t0.keyset_at(d).len());
                    assert(t0.keyset_at(d).subset_of(t0.keyset_at(p[plen - 2])));
                    lemma_len_subset(t0.keyset_at(d), t0.keyset_at(pd));
                }
            }
            assert(t1.live@.contains(pd));
            assert(t1.nodes@[pd as int].left == Some(c) || t1.nodes@[pd as int].right == Some(c))
                by {
                assert(t0.nodes@[pd as int].left == Some(d) || t0.nodes@[pd as int].right == Some(
                    d,
                ));
                if t0.nodes@[pd as int].left == Some(d) {
                    assert(t1.nodes@[pd as int].left == Some(c));
                } else {
                    assert(t1.nodes@[pd as int].right == Some(c));
                }
            }
            assert(t1.root == t0.root);
            assert(t1.root != Some(c)) by {
                assert(t0.root == Some(p[0]));
                if c == p[0] {
                    assert(t0.nodes@[p[0] as int].parent is None);
                }
            }
        },
    }
    // keyset facts carry over unchanged
    assert(t1.live@.len() + 1 == t0.live@.len());
    assert(t0.keyset_at(c).len() < t0.keyset_at(d).len());
    assert(t0.keyset_at(d).len() <= t0.live@.len());
}
/// A path entry above the removed node keeps a well-formed record
/// after the splice: its keyset lost exactly the removed key.
#[verifier::spinoff_prover]
#[verifier::rlimit(100)]
proof fn lemma_splice_on_path(t0: Tree, t1: Tree, p: Seq<usize>, cld: Option<usize>, s: int)
    requires
        t0.wf(),
        descent_path(t0, p, t0.key_at(p[p.len() - 1])),
        t0.nodes@[p[p.len() - 1] as int].left is None || t0.nodes@[p[p.len() - 1] as int].right
            is None,
        cld == (if t0.nodes@[p[p.len() - 1] as int].left is None {
            t0.nodes@[p[p.len() - 1] as int].right
        } else {
            t0.nodes@[p[p.len() - 1] as int].left
        }),
        splice_state(t0, t1, p, cld),
        0 <= s < p.len() - 1,
    ensures
        t1.node_ok(p[s]),
{
    let plen = p.len() as int;
    let d = p[plen - 1];
    let k = t0.key_at(d);
    lemma_descent_shape(t0, p);
    assert(t0.node_ok(d));
    lemma_parent_distinct(t0, d);
    let j = p[s];
    assert(t0.node_ok(j));
    let nd0 = t0.nodes@[j as int];
    let nd1 = t1.nodes@[j as int];
    assert(j != d);
    assert(t1.live@.len() + 1 == t0.live@.len());
    assert(nd1.keyset@ == nd0.keyset@.remove(k));
    assert(nd0.keyset@.contains(k));
    assert(nd1.keyset@.len() == nd0.keyset@.len() - 1);
    assert(t0.key_at(j) != k);
    // the on-path child of j is p[s + 1]; the other child is off the path
    let c = p[s + 1];
    assert((t0.nodes@[j as int].left == Some(c) && k < t0.key_at(j)) || (t0.nodes@[j as int].right
        == Some(c) && k > t0.key_at(j)));
    assert(t0.node_ok(c));
    assert(t0.nodes@[c as int].parent == Some(j));
    // j is not the parent of d unless s == plen - 2
    if s < plen - 2 {
        assert(Some(j) != t0.nodes@[d as int].parent) by {
            if j == p[plen - 2] {
                assert(t0.keyset_at(p[plen - 2]).len() < t0.keyset_at(p[s]).len());
            }
        }
        assert(nd1.left == nd0.left && nd1.right == nd0.right);
        assert(c != d) by {
            assert(t0.keyset_at(p[plen - 1]).len() < t0.keyset_at(p[s + 1]).len());
        }
        assert(t1.live@.contains(c));
        assert(Some(c) != cld) by {
            match cld {
                Some(cc) => {
                    assert(t0.nodes@[cc as int].parent == Some(d));
                    if c == cc {
                        assert(j == d);
                    }
                },
                None => {},
            }
        }
        assert(t1.nodes@[c as int].parent == Some(j));
        // the on-path child's keyset lost k as well
        assert(t1.nodes@[c as int].keyset@ == t0.nodes@[c as int].keyset@.remove(k));
        match (if nd0.left == Some(c) {
            nd0.right
        } else {
            nd0.left
        }) {
            Some(oc) => {
                assert(oc != c) by {
                    if nd0.left == Some(c) {
                        lemma_two_slots(t0, j, c);
                    } else {
                        lemma_two_slots(t0, j, oc);
                    }
                }
                lemma_descent_child_on_path(t0, p, k, j, oc);
                assert forall|u: int| 0 <= u < plen - 1 implies #[trigger] p[u] != oc by {
                    if p[u] == oc {
                        assert(u >= 1 && p[u - 1] == j);
                        if u - 1 != s {
                            if u - 1 < s {
                                assert(t0.keyset_at(p[s]).len() < t0.keyset_at(p[u - 1]).len());
                            } else {
                                assert(t0.keyset_at(p[u - 1]).len() < t0.keyset_at(p[s]).len());
                            }
                        }
                        assert(u - 1 == s);
                        assert(p[u] == p[s + 1]);
                    }
                }
                assert(t1.nodes@[oc as int].keyset@ == t0.nodes@[oc as int].keyset@);
                assert(!t0.keyset_at(oc).contains(k)) by {
                    lemma_child_keyset(t0, j, oc);
                }
                assert(t1.nodes@[oc as int].parent == t0.nodes@[oc as int].parent) by {
                    assert(Some(oc) != cld) by {
                        match cld {
                            Some(cc) => {
                                assert(t0.nodes@[cc as int].parent == Some(d));
                                if oc == cc {
                                    assert(j == d);
                                }
                            },
                            None => {},
                        }
                    }
                }
            },
            None => {},
        }
        assert(nd1.keyset@ =~= t1.keyset_of(nd1.left).union(t1.keyset_of(nd1.right)).insert(
            nd1.key as int,
        ));
        assert forall|x: int| t1.keyset_of(nd1.left).contains(x) implies x < nd1.key as int by {
            match nd0.left {
                Some(lc) => {
                    assert(t0.keyset_of(nd0.left).contains(x));
                },
                None => {},
            }
        }
        assert forall|x: int| t1.keyset_of(nd1.right).contains(x) implies x > nd1.key as int by {
            match nd0.right {
                Some(rc) => {
                    assert(t0.keyset_of(nd0.right).contains(x));
                },
                None => {},
            }
        }
    } else {
        // j is the parent of d: its slot that held d now holds cld
        assert(s == plen - 2);
        assert(t0.nodes@[d as int].parent == Some(j));
        assert((nd0.left == Some(d) && k < t0.key_at(j)) || (nd0.right == Some(d) && k > t0.key_at(
            j,
        )));
        assert(c == d);
        // the removed node's keyset is its key plus its only child's
        assert(t0.keyset_at(d) == t0.keyset_of(cld).insert(k));
        assert(!t0.keyset_of(cld).contains(k)) by {
            match cld {
                Some(cc) => {
                    lemma_child_keyset(t0, d, cc);
                },
                None => {},
            }
        }
        // cld is not on the path and keeps its keyset
        match cld {
            Some(cc) => {
                assert(t0.nodes@[cc as int].parent == Some(d));
                assert(cc != d) by {
                    if cc == d {
                        assert(t0.nodes@[d as int].parent == Some(d));
                    }
                }
                assert(t1.live@.contains(cc));
                lemma_descent_child_on_path(t0, p, k, d, cc);
                assert forall|u: int| 0 <= u < plen - 1 implies #[trigger] p[u] != cc by {
                    if p[u] == cc {
                        assert(u >= 1 && p[u - 1] == d);
                        assert(t0.keyset_at(p[plen - 1]).len() < t0.keyset_at(p[u - 1]).len());
                    }
                }
                assert(t1.nodes@[cc as int].keyset@ == t0.nodes@[cc as int].keyset@);
                assert(t1.nodes@[cc as int].parent == Some(j));
                assert(cc != j) by {
                    if cc == j {
                        lemma_child_keyset(t0, d, cc);
                        assert(t0.keyset_at(cc).len() < t0.keyset_at(d).len());
                        assert(t0.keyset_at(d).subset_of(t0.keyset_at(p[plen - 2])));
                        lemma_len_subset(t0.keyset_at(d), t0.keyset_at(j));
                    }
                }
            },
            None => {},
        }
        // the other child of j is off the path and keeps everything
        match (if nd0.left == Some(d) {
            nd0.right
        } else {
            nd0.left
        }) {
            Some(oc) => {
                assert(oc != d) by {
                    if nd0.left == Some(d) {
                        lemma_two_slots(t0, j, d);
                    } else {
                        lemma_two_slots(t0, j, oc);
                    }
                }
                lemma_descent_child_on_path(t0, p, k, j, oc);
                assert forall|u: int| 0 <= u < plen - 1 implies #[trigger] p[u] != oc by {
                    if p[u] == oc {
                        assert(u >= 1 && p[u - 1] == j);
                        if u - 1 < s {
                            assert(t0.keyset_at(p[s]).len() < t0.keyset_at(p[u - 1]).len());
                        }
                        if s < u - 1 {
                            assert(t0.keyset_at(p[u - 1]).len() < t0.keyset_at(p[s]).len());
                        }
                        assert(u - 1 == s);
                        assert(p[u] == p[s + 1]);
                        assert(oc == d);
                    }
                }
                assert(t1.nodes@[oc as int].keyset@ == t0.nodes@[oc as int].keyset@);
                assert(!t0.keyset_at(oc).contains(k)) by {
                    lemma_child_keyset(t0, j, oc);
                }
                assert(t1.nodes@[oc as int].parent == t0.nodes@[oc as int].parent) by {
                    assert(Some(oc) != cld) by {
                        match cld {
                            Some(cc) => {
                                assert(t0.nodes@[cc as int].parent == Some(d));
                                if oc == cc {
                                    assert(j == d);
                                }
                            },
                            None => {},
                        }
                    }
                }
                assert(oc != d);
                assert(t1.live@.contains(oc));
            },
            None => {},
        }
        assert(nd1.keyset@ =~= t1.keyset_of(nd1.left).union(t1.keyset_of(nd1.right)).insert(
            nd1.key as int,
        ));
        if nd0.left == Some(d) {
            assert(nd1.left == cld && nd1.right == nd0.right);
            assert forall|x: int| t1.keyset_of(nd1.left).contains(x) implies x < nd1.key as int by {
                assert(t0.keyset_of(cld).contains(x));
                assert(t0.keyset_at(d).contains(x));
                assert(t0.keyset_of(nd0.left).contains(x));
            }
            assert forall|x: int| t1.keyset_of(nd1.right).contains(x) implies x > nd1.key as int
                by {
                match nd0.right {
                    Some(rc) => {
                        assert(t0.keyset_of(nd0.right).contains(x));
                    },
                    None => {},
                }
            }
        } else {
            assert(nd1.right == cld && nd1.left == nd0.left);
            assert forall|x: int| t1.keyset_of(nd1.right).contains(x) implies x > nd1.key as int
                by {
                assert(t0.keyset_of(cld).contains(x));
                assert(t0.keyset_at(d).contains(x));
                assert(t0.keyset_of(nd0.right).contains(x));
            }
            assert forall|x: int| t1.keyset_of(nd1.left).contains(x) implies x < nd1.key as int by {
                match nd0.left {
                    Some(lc) => {
                        assert(t0.keyset_of(nd0.left).contains(x));
                    },
                    None => {},
                }
            }
        }
    }
    // the parent side of j
    if s == 0 {
        assert(t0.root == Some(j));
        assert(nd0.parent is None);
        assert(plen >= 2);
        assert(t1.root == t0.root);
    } else {
        assert((t0.nodes@[p[s - 1] as int].left == Some(p[s])) || (t0.nodes@[p[s - 1] as int].right
            == Some(p[s])));
        assert(t0.node_ok(p[s - 1]));
        assert(nd0.parent == Some(p[s - 1]));
        assert(Some(p[s - 1]) != t0.nodes@[d as int].parent) by {
            if plen >= 2 && p[s - 1] == p[plen - 2] {
                if s - 1 < plen - 2 {
                    assert(t0.keyset_at(p[plen - 2]).len() < t0.keyset_at(p[s - 1]).len());
                }
                assert(s - 1 == plen - 2);
            }
        }
        assert(t1.nodes@[p[s - 1] as int].left == t0.nodes@[p[s - 1] as int].left
            && t1.nodes@[p[s - 1] as int].right == t0.nodes@[p[s - 1] as int].right);
        assert(p[s - 1] != d);
        assert(t1.root == t0.root);
        assert(t1.root != Some(j)) by {
            assert(t0.root == Some(p[0]));
            if j == p[0] {
                assert(t0.keyset_at(p[s]).len() < t0.keyset_at(p[0]).len());
            }
        }
    }
}

/// A node away from the path, the removed node and its child keeps a
/// well-formed record after the splice.
#[verifier::spinoff_prover]
#[verifier::rlimit(100)]
proof fn lemma_splice_off_path(t0: Tree, t1: Tree, p: Seq<usize>, cld: Option<usize>, j: usize)
    requires
        t0.wf(),
        descent_path(t0, p, t0.key_at(p[p.len() - 1])),
        t0.nodes@[p[p.len() - 1] as int].left is None || t0.nodes@[p[p.len() - 1] as int].right
            is None,
        cld == (if t0.nodes@[p[p.len() - 1] as int].left is None {
            t0.nodes@[p[p.len() - 1] as int].right
        } else {
            t0.nodes@[p[p.len() - 1] as int].left
        }),
        splice_state(t0, t1, p, cld),
        t0.live@.contains(j),
        forall|s: int| 0 <= s < p.len() ==> #[trigger] p[s] != j,
        Some(j) != cld,
    ensures
        t1.node_ok(j),
{
    let plen = p.len() as int;
    let d = p[plen - 1];
    let k = t0.key_at(d);
    lemma_descent_shape(t0, p);
    assert(t0.node_ok(d));
    assert(t0.node_ok(j));
    let nd0 = t0.nodes@[j as int];
    let nd1 = t1.nodes@[j as int];
    assert(j != d);
    assert(t1.live@.len() + 1 == t0.live@.len());
    assert(Some(j) != t0.nodes@[d as int].parent) by {
        if plen >= 2 && j == p[plen - 2] {
            assert(p[plen - 2] != j);
        }
    }
    assert(nd1.keyset@ == nd0.keyset@);
    assert(nd1.left == nd0.left && nd1.right == nd0.right);
    assert(nd1.parent == nd0.parent);
    assert(nd1.key == nd0.key);
    // children of j are off the path too, and none of them is cld
    match nd0.left {
        Some(oc) => {
            assert(t0.node_ok(oc));
            lemma_descent_child_on_path(t0, p, k, j, oc);
            assert forall|u: int| 0 <= u < plen - 1 implies #[trigger] p[u] != oc by {
                if p[u] == oc {
                    assert(u >= 1 && p[u - 1] == j);
                }
            }
            assert(Some(oc) != cld) by {
                match cld {
                    Some(cc) => {
                        assert(t0.nodes@[cc as int].parent == Some(d));
                        if oc == cc {
                            assert(j == d);
                        }
                    },
                    None => {},
                }
            }
            assert(t1.nodes@[oc as int].keyset@ == t0.nodes@[oc as int].keyset@);
            assert(t1.nodes@[oc as int].parent == t0.nodes@[oc as int].parent);
            assert(oc != d) by {
                if oc == d {
                    assert(p[plen - 1] != oc);
                }
            }
        },
        None => {},
    }
    match nd0.right {
        Some(oc) => {
            assert(t0.node_ok(oc));
            lemma_descent_child_on_path(t0, p, k, j, oc);
            assert forall|u: int| 0 <= u < plen - 1 implies #[trigger] p[u] != oc by {
                if p[u] == oc {
                    assert(u >= 1 && p[u - 1] == j);
                }
            }
            assert(Some(oc) != cld) by {
                match cld {
                    Some(cc) => {
                        assert(t0.nodes@[cc as int].parent == Some(d));
                        if oc == cc {
                            assert(j == d);
                        }
                    },
                    None => {},
                }
            }
            assert(t1.nodes@[oc as int].keyset@ == t0.nodes@[oc as int].keyset@);
            assert(t1.nodes@[oc as int].parent == t0.nodes@[oc as int].parent);
            assert(oc != d) by {
                if oc == d {
                    assert(p[plen - 1] != oc);
                }
            }
        },
        None => {},
    }
    // the parent side of j: its slots changed only if it is d's parent
    match nd0.parent {
        None => {
            assert(t0.root == Some(j));
            assert(j == p[0]);
        },
        Some(pj) => {
            assert(t0.node_ok(pj));
            assert(pj != d) by {
                if pj == d {
                    assert(t0.nodes@[d as int].left == Some(j) || t0.nodes@[d as int].right
                        == Some(j));
                    lemma_descent_child_on_path(t0, p, k, d, j);
                }
            }
            assert(t1.live@.contains(pj));
            assert(t1.nodes@[pj as int].left == Some(j) || t1.nodes@[pj as int].right == Some(j))
                by {
                if Some(pj) == t0.nodes@[d as int].parent {
                    assert(t0.nodes@[pj as int].left == Some(d) || t0.nodes@[pj as int].right
                        == Some(d));
                    assert(j != d);
                    if t0.nodes@[pj as int].left == Some(d) {
                        assert(t0.nodes@[pj as int].right == Some(j));
                        assert(t1.nodes@[pj as int].right == Some(j));
                    } else {
                        assert(t0.nodes@[pj as int].left == Some(j));
                        assert(t1.nodes@[pj as int].left == Some(j));
                    }
                }
            }
            assert(t1.root != Some(j)) by {
                match t0.nodes@[d as int].parent {
                    None => {
                        assert(t1.root == cld);
                    },
                    Some(_x) => {
                        assert(t1.root == t0.root);
                        assert(t0.root == Some(p[0]));
                        assert(p[0] != j);
                    },
                }
            }
        },
    }
    // size bound: j still has its parent inside the remaining tree, or
    // it is the old root with a strictly smaller keyset than the whole
    assert(nd1.keyset@.len() <= t1.live@.len()) by {
        if nd0.keyset@.len() == t0.live@.len() {
            match nd0.parent {
                None => {
                    assert(j == p[0]);
                },
                Some(pj) => {
                    lemma_child_keyset(t0, pj, j);
                    assert(t0.keyset_at(pj).len() <= t0.live@.len());
                },
            }
        }
    }
}

/// Splicing the last entry of a descent path out of a well-formed tree
/// keeps it well formed and removes exactly that entry's key.
#[verifier::spinoff_prover]
#[verifier::rlimit(100)]
proof fn lemma_splice_wf(t0: Tree, t1: Tree, p: Seq<usize>, cld: Option<usize>)
    requires
        t0.wf(),
        descent_path(t0, p, t0.key_at(p[p.len() - 1])),
        t0.nodes@[p[p.len() - 1] as int].left is None || t0.nodes@[p[p.len() - 1] as int].right
            is None,
        cld == (if t0.nodes@[p[p.len() - 1] as int].left is None {
            t0.nodes@[p[p.len() - 1] as int].right
        } else {
            t0.nodes@[p[p.len() - 1] as int].left
        }),
        splice_state(t0, t1, p, cld),
    ensures
        t1.wf(),
        t1.keys() == t0.keys().remove(t0.key_at(p[p.len() - 1])),
{
    let plen = p.len() as int;
    let d = p[plen - 1];
    let k = t0.key_at(d);
    lemma_descent_shape(t0, p);
    assert(t0.node_ok(d));
    assert(t0.keyset_at(d) == t0.keyset_of(cld).insert(k));
    assert(!t0.keyset_of(cld).contains(k)) by {
        match cld {
            Some(cc) => {
                lemma_child_keyset(t0, d, cc);
            },
            None => {},
        }
    }
    // cld is not on the path
    match cld {
        Some(cc) => {
            assert(t0.nodes@[cc as int].parent == Some(d));
            lemma_descent_child_on_path(t0, p, k, d, cc);
            assert forall|u: int| 0 <= u < plen - 1 implies #[trigger] p[u] != cc by {
                if p[u] == cc {
                    assert(u >= 1 && p[u - 1] == d);
                    assert(t0.keyset_at(p[plen - 1]).len() < t0.keyset_at(p[u - 1]).len());
                }
            }
            assert(t1.nodes@[cc as int].keyset@ == t0.nodes@[cc as int].keyset@);
        },
        None => {},
    }
    // the new key set
    if plen == 1 {
        assert(t0.nodes@[d as int].parent is None);
        assert(t1.root == cld);
        match cld {
            Some(cc) => {
                assert(t1.keys() == t0.keys().remove(k)) by {
                    assert(t1.keys() =~= t0.keys().remove(k));
                }
            },
            None => {
                assert(t1.keys() == t0.keys().remove(k)) by {
                    assert(t1.keys() =~= t0.keys().remove(k));
                }
            },
        }
    } else {
        assert(t0.nodes@[d as int].parent == Some(p[plen - 2]));
        assert(t1.root == t0.root);
        assert(t0.root == Some(p[0]));
        assert(t1.nodes@[p[0] as int].keyset@ == t0.nodes@[p[0] as int].keyset@.remove(k));
        assert(t1.keys() == t0.keys().remove(k));
    }
    // every remaining node is well formed
    assert forall|j: usize| t1.live@.contains(j) implies t1.node_ok(j) by {
        assert(t0.live@.contains(j));
        assert(j != d);
        if cld == Some(j) {
            lemma_splice_child(t0, t1, p, j);
        } else if exists|s: int| 0 <= s < plen - 1 && #[trigger] p[s] == j {
            let s = choose|s: int| 0 <= s < plen - 1 && #[trigger] p[s] == j;
            lemma_splice_on_path(t0, t1, p, cld, s);
        } else {
            assert forall|s: int| 0 <= s < plen implies #[trigger] p[s] != j by {
                if s == plen - 1 {
                    assert(p[s] == d);
                }
            }
            lemma_splice_off_path(t0, t1, p, cld, j);
        }
    }
    // root and bounds
    match t1.root {
        Some(r1) => {
            assert(t1.live@.contains(r1)) by {
                if plen == 1 {
                    match cld {
                        Some(cc) => {
                            assert(cc != d);
                        },
                        None => {},
                    }
                } else {
                    assert(p[0] != d);
                }
            }
        },
        None => {},
    }
}
/// Cuts the last node of the descent path, which has at most one
/// child, out of the tree by promoting that child, if any, into its
/// place; every keyset above drops the removed key.
#[verifier::rlimit(60)]
fn transplant(tree: &mut Tree, path: &Vec<usize>)
    requires
        old(tree).wf(),
        descent_path(*old(tree), path@, old(tree).key_at(path@[path@.len() - 1])),
        old(tree).nodes@[path@[path@.len() - 1] as int].left is None || old(
            tree,
        ).nodes@[path@[path@.len() - 1] as int].right is None,
    ensures
        final(tree).wf(),
        final(tree).keys() == old(tree).keys().remove(old(tree).key_at(path@[path@.len() - 1])),
        splice_state(
            *old(tree),
            *final(tree),
            path@,
            (if old(tree).nodes@[path@[path@.len() - 1] as int].left is None {
                old(tree).nodes@[path@[path@.len() - 1] as int].right
            } else {
                old(tree).nodes@[path@[path@.len() - 1] as int].left
            }),
        ),
{
    let ghost t0 = *tree;
    let plen: usize = path.len();
    let d = path[plen - 1];
    proof {
        assert(t0.node_ok(d));
        lemma_descent_shape(t0, path@);
        lemma_parent_distinct(t0, d);
    }
    let dn = tree.nodes[d];
    let cld: Option<usize> = if dn.left.is_none() {
        dn.right
    } else {
        dn.left
    };
    let ghost k = t0.key_at(d);
    proof {
        match cld {
            Some(c) => {
                lemma_child_keyset(t0, d, c);
                match dn.parent {
                    Some(pd) => {
                        assert(t0.node_ok(pd));
                        assert(pd != c) by {
                            if pd == c {
                                lemma_child_keyset(t0, pd, d);
                            }
                        }
                        assert(pd != d);
                    },
                    None => {},
                }
                assert(c != d);
            },
            None => {
                match dn.parent {
                    Some(pd) => {
                        assert(t0.node_ok(pd));
                        assert(pd != d);
                    },
                    None => {},
                }
            },
        }
    }
    match cld {
        Some(c) => {
            let mut cn = tree.nodes[c];
            cn.parent = dn.parent;
            tree.nodes.set(c, cn);
        },
        None => {},
    }
    match dn.parent {
        None => {
            tree.root = cld;
        },
        Some(pd) => {
            let mut pn = tree.nodes[pd];
            let d_on_left: bool = match pn.left {
                Some(x) => x == d,
                None => false,
            };
            if d_on_left {
                pn.left = cld;
            } else {
                pn.right = cld;
            }
            tree.nodes.set(pd, pn);
        },
    }
    tree.live = Ghost(tree.live@.remove(d));
    let mut idx: usize = 0;
    while idx < plen - 1
        invariant
            t0 == *old(tree),
            t0.wf(),
            descent_path(t0, path@, t0.key_at(path@[path@.len() - 1])),
            plen == path@.len(),
            d == path@[plen - 1],
            k == t0.key_at(d),
            t0.live@.contains(d),
            cld == (if t0.nodes@[d as int].left is None {
                t0.nodes@[d as int].right
            } else {
                t0.nodes@[d as int].left
            }),
            t0.nodes@[d as int].left is None || t0.nodes@[d as int].right is None,
            idx <= plen - 1,
            tree.nodes@.len() == t0.nodes@.len(),
            tree.live@ == t0.live@.remove(d),
            match t0.nodes@[d as int].parent {
                None => tree.root == cld,
                Some(pd) => tree.root == t0.root && tree.nodes@[pd as int].left == (
                if t0.nodes@[pd as int].left == Some(d) {
                    cld
                } else {
                    t0.nodes@[pd as int].left
                }) && tree.nodes@[pd as int].right == (
                if t0.nodes@[pd as int].left == Some(d) {
                    t0.nodes@[pd as int].right
                } else {
                    cld
                }),
            },
            match cld {
                Some(c) => tree.nodes@[c as int].parent == t0.nodes@[d as int].parent,
                None => true,
            },
            forall|j: usize| #![trigger t0.live@.contains(j)]
                t0.live@.contains(j) ==> tree.nodes@[j as int].key == t0.nodes@[j as int].key,
            forall|j: usize| #![trigger t0.live@.contains(j)]
                t0.live@.contains(j) && Some(j) != cld ==> tree.nodes@[j as int].parent
                    == t0.nodes@[j as int].parent,
            forall|j: usize| #![trigger t0.live@.contains(j)]
                t0.live@.contains(j) && Some(j) != t0.nodes@[d as int].parent ==> tree.nodes@[j
                    as int].left == t0.nodes@[j as int].left && tree.nodes@[j as int].right
                    == t0.nodes@[j as int].right,
            forall|s: int|
                0 <= s < idx ==> tree.nodes@[#[trigger] path@[s] as int].keyset@
                    == t0.nodes@[path@[s] as int].keyset@.remove(k),
            forall|s: int|
                idx <= s < path@.len() ==> tree.nodes@[#[trigger] path@[s] as int].keyset@
                    == t0.nodes@[path@[s] as int].keyset@,
            forall|j: usize| #![trigger t0.live@.contains(j)]
                t0.live@.contains(j) && (forall|s: int|
                    0 <= s < path@.len() - 1 ==> #[trigger] path@[s] != j) ==> tree.nodes@[j
                    as int].keyset@ == t0.nodes@[j as int].keyset@,
        decreases plen - idx,
    {
        let p_i = path[idx];
        proof {
            assert(t0.live@.contains(p_i));
            assert forall|s: int| 0 <= s < path@.len() && s != idx implies #[trigger] path@[s]
                != p_i by {
                if s < idx {
                    assert(t0.keyset_at(p_i).len() < t0.keyset_at(path@[s]).len());
                } else {
                    assert(t0.keyset_at(path@[s]).len() < t0.keyset_at(p_i).len());
                }
            }
        }
        let mut pn = tree.nodes[p_i];
        pn.keyset = Ghost(pn.keyset@.remove(k));
        tree.nodes.set(p_i, pn);
        idx += 1;
    }
    proof {
        assert(splice_state(t0, *tree, path@, cld));
        lemma_splice_wf(t0, *tree, path@, cld);
    }
}

/// The setting of a two-child deletion: a descent path `p` ends at a
/// node `d` with both children, and `q` is the left spine of `d`'s
/// right subtree, ending at `d`'s in-order successor.
pub open spec fn promote_pre(t0: Tree, p: Seq<usize>, q: Seq<usize>) -> bool {
    let plen = p.len() as int;
    let d = p[plen - 1];
    let qlen = q.len() as int;
    let sm = q[qlen - 1];
    let ks = t0.key_at(sm);
    &&& t0.wf()
    &&& descent_path(t0, p, t0.key_at(d))
    &&& t0.nodes@[d as int].right is Some
    &&& left_spine(t0, q)
    &&& t0.nodes@[d as int].right == Some(q[0])
    &&& forall|u: int| 0 <= u < q.len() ==> t0.keyset_at(#[trigger] q[u]).contains(ks)
    &&& forall|x: int| t0.keyset_at(q[0]).contains(x) ==> x >= ks
}

/// How the tree looks after a two-child deletion: the successor's key
/// moved into `d`, the successor's node left the tree with its right
/// child promoted into its slot, the keysets along `p` dropped `d`'s
/// old key and those strictly inside the spine dropped the successor's.
pub open spec fn promote_state(
    t0: Tree,
    t1: Tree,
    p: Seq<usize>,
    q: Seq<usize>,
    rs: Option<usize>,
) -> bool {
    let plen = p.len() as int;
    let d = p[plen - 1];
    let k = t0.key_at(d);
    let qlen = q.len() as int;
    let sm = q[qlen - 1];
    let ks = t0.key_at(sm);
    &&& rs == t0.nodes@[sm as int].right
    &&& t1.nodes@.len() == t0.nodes@.len()
    &&& t1.live@ == t0.live@.remove(sm)
    &&& t1.root == t0.root
    &&& t1.nodes@[d as int].key == t0.nodes@[sm as int].key
    &&& forall|j: usize| #![trigger t0.live@.contains(j)]
        t0.live@.contains(j) && j != d ==> t1.nodes@[j as int].key == t0.nodes@[j as int].key
    &&& forall|j: usize| #![trigger t0.live@.contains(j)]
        t0.live@.contains(j) && Some(j) != rs ==> t1.nodes@[j as int].parent == t0.nodes@[j
            as int].parent
    &&& match rs {
        Some(r) => t1.nodes@[r as int].parent == t0.nodes@[sm as int].parent,
        None => true,
    }
    &&& (qlen == 1 ==> t1.nodes@[d as int].right == rs && t1.nodes@[d as int].left
        == t0.nodes@[d as int].left && forall|j: usize|
        #![trigger t0.live@.contains(j)]
        t0.live@.contains(j) && j != d ==> t1.nodes@[j as int].left == t0.nodes@[j as int].left
            && t1.nodes@[j as int].right == t0.nodes@[j as int].right)
    &&& (qlen >= 2 ==> t1.nodes@[q[qlen - 2] as int].left == rs && t1.nodes@[q[qlen
        - 2] as int].right == t0.nodes@[q[qlen - 2] as int].right && forall|j: usize|
        #![trigger t0.live@.contains(j)]
        t0.live@.contains(j) && j != q[qlen - 2] ==> t1.nodes@[j as int].left == t0.nodes@[j
            as int].left && t1.nodes@[j as int].right == t0.nodes@[j as int].right)
    &&& forall|s: int|
        0 <= s < plen ==> t1.nodes@[#[trigger] p[s] as int].keyset@ == t0.nodes@[p[s]
            as int].keyset@.remove(k)
    &&& forall|u: int|
        0 <= u < qlen - 1 ==> t1.nodes@[#[trigger] q[u] as int].keyset@ == t0.nodes@[q[u]
            as int].keyset@.remove(ks)
    &&& forall|j: usize| #![trigger t0.live@.contains(j)]
        t0.live@.contains(j) && (forall|s: int| 0 <= s < p.len() ==> #[trigger] p[s] != j) && (
        forall|u: int| 0 <= u < q.len() - 1 ==> #[trigger] q[u] != j) ==> t1.nodes@[j
            as int].keyset@ == t0.nodes@[j as int].keyset@
}

/// Shape facts of the two-child setting: the spine is disjoint from
/// the path, the successor has no left child and holds a key strictly
/// between `d`'s old key and the rest of the right subtree.
#[verifier::spinoff_prover]
#[verifier::rlimit(100)]
proof fn lemma_promote_shape(t0: Tree, p: Seq<usize>, q: Seq<usize>)
    requires
        promote_pre(t0, p, q),
    ensures
        forall|s: int, u: int|
            0 <= s < p.len() && 0 <= u < q.len() ==> #[trigger] p[s] != #[trigger] q[u],
        t0.nodes@[q[q.len() - 1] as int].parent == (if q.len() == 1 {
            Some(p[p.len() - 1])
        } else {
            Some(q[q.len() - 2])
        }),
        t0.key_at(q[q.len() - 1]) > t0.key_at(p[p.len() - 1]),
        t0.keyset_at(p[p.len() - 1]).contains(t0.key_at(q[q.len() - 1])),
        forall|u: int|
            0 <= u < q.len() ==> t0.live@.contains(#[trigger] q[u]) && t0.keyset_at(
                q[u],
            ).subset_of(t0.keyset_at(q[0])),
{
    let plen = p.len() as int;
    let d = p[plen - 1];
    let qlen = q.len() as int;
    let sm = q[qlen - 1];
    let ks = t0.key_at(sm);
    assert(t0.node_ok(d));
    lemma_child_keyset(t0, d, q[0]);
    assert forall|u: int| 0 <= u < qlen implies t0.live@.contains(#[trigger] q[u])
        && t0.keyset_at(q[u]).subset_of(t0.keyset_at(q[0])) by {}
    assert forall|s: int, u: int| 0 <= s < plen && 0 <= u < qlen implies #[trigger] p[s]
        != #[trigger] q[u] by {
        if p[s] == q[u] {
            lemma_len_subset(t0.keyset_at(q[u]), t0.keyset_at(q[0]));
            assert(t0.keyset_at(q[0]).len() < t0.keyset_at(d).len());
            assert(t0.keyset_at(d).subset_of(t0.keyset_at(p[s])));
            lemma_len_subset(t0.keyset_at(d), t0.keyset_at(p[s]));
        }
    }
    if qlen == 1 {
        assert(t0.nodes@[sm as int].parent == Some(d));
    } else {
        assert(t0.nodes@[q[qlen - 2] as int].left == Some(q[qlen - 1]));
        assert(t0.node_ok(q[qlen - 2]));
    }
    assert(t0.keyset_at(q[qlen - 1]).contains(ks));
    assert(t0.keyset_at(q[0]).contains(ks));
    assert(ks > t0.key_at(d));
    assert(t0.keyset_at(d).contains(ks));
}

/// After a two-child deletion, the node `d` that took the successor's
/// key is well formed.
#[verifier::spinoff_prover]
#[verifier::rlimit(100)]
proof fn lemma_promote_d(t0: Tree, t1: Tree, p: Seq<usize>, q: Seq<usize>, rs: Option<usize>)
    requires
        promote_pre(t0, p, q),
        promote_state(t0, t1, p, q, rs),
    ensures
        t1.node_ok(p[p.len() - 1]),
{
    let plen = p.len() as int;
    let d = p[plen - 1];
    let k = t0.key_at(d);
    let qlen = q.len() as int;
    let sm = q[qlen - 1];
    let ks = t0.key_at(sm);
    lemma_promote_shape(t0, p, q);
    lemma_descent_shape(t0, p);
    assert(t0.node_ok(d));
    assert(t0.node_ok(sm));
    lemma_parent_distinct(t0, sm);
    let nd0 = t0.nodes@[d as int];
    let nd1 = t1.nodes@[d as int];
    assert(d != sm);
    assert(nd1.key as int == ks);
    assert(nd1.keyset@ == nd0.keyset@.remove(k));
    assert(nd0.keyset@.contains(k));
    assert(nd1.keyset@.len() == nd0.keyset@.len() - 1);
    assert(t1.live@.len() + 1 == t0.live@.len());
    assert(ks != k);
    assert(nd1.keyset@.contains(ks));
    // the left child of d, if any, is untouched
    match nd0.left {
        Some(dl) => {
            assert(t0.node_ok(dl));
            assert(dl != sm) by {
                if dl == sm {
                    if qlen == 1 {
                        lemma_two_slots(t0, d, dl);
                    } else {
                        assert(t0.nodes@[sm as int].parent == Some(q[qlen - 2]));
                        assert(t0.nodes@[dl as int].parent == Some(d));
                        assert(q[qlen - 2] != d);
                    }
                }
            }
            assert(dl != d);
            assert(t1.live@.contains(dl));
            assert(Some(dl) != rs) by {
                match rs {
                    Some(r) => {
                        assert(t0.nodes@[r as int].parent == Some(sm));
                        if dl == r {
                            assert(sm == d);
                        }
                    },
                    None => {},
                }
            }
            assert(t1.nodes@[dl as int].parent == Some(d));
            assert(t1.nodes@[dl as int].keyset@ == t0.nodes@[dl as int].keyset@) by {
                assert forall|s: int| 0 <= s < p.len() implies #[trigger] p[s] != dl by {
                    lemma_descent_child_on_path(t0, p, k, d, dl);
                    if p[s] == dl {
                        assert(s >= 1 && p[s - 1] == d);
                        assert(t0.keyset_at(p[plen - 1]).len() < t0.keyset_at(p[s - 1]).len());
                    }
                }
                assert forall|u: int| 0 <= u < q.len() - 1 implies #[trigger] q[u] != dl by {
                    if q[u] == dl {
                        if u == 0 {
                            lemma_two_slots(t0, d, dl);
                        } else {
                            assert(t0.nodes@[q[u - 1] as int].left == Some(q[u]));
                            assert(t0.node_ok(q[u - 1]));
                            assert(t0.nodes@[dl as int].parent == Some(q[u - 1]));
                            assert(q[u - 1] != d);
                        }
                    }
                }
            }
            // ordering on the left: everything is below the old key,
            // which is below the successor's key
            assert(!t0.keyset_at(dl).contains(k)) by {
                lemma_child_keyset(t0, d, dl);
            }
        },
        None => {},
    }
    // the right side after the splice of the successor
    if qlen == 1 {
        assert(sm == q[0]);
        assert(nd0.right == Some(sm));
        assert(t0.nodes@[sm as int].left is None);
        assert(t0.keyset_at(sm) == t0.keyset_of(rs).insert(ks));
        assert(!t0.keyset_of(rs).contains(ks)) by {
            match rs {
                Some(r) => {
                    lemma_child_keyset(t0, sm, r);
                },
                None => {},
            }
        }
        match rs {
            Some(r) => {
                assert(t0.node_ok(r));
                assert(r != sm);
                assert(r != d) by {
                    if r == d {
                        assert(t0.nodes@[d as int].parent == Some(sm));
                        assert(plen >= 2 ==> p[plen - 2] == sm);
                        assert(plen == 1 ==> t0.nodes@[d as int].parent is None);
                    }
                }
                assert(t1.live@.contains(r));
                assert(t1.nodes@[r as int].parent == Some(d));
                assert(t1.nodes@[r as int].keyset@ == t0.nodes@[r as int].keyset@) by {
                    assert forall|s: int| 0 <= s < p.len() implies #[trigger] p[s] != r by {
                        if p[s] == r {
                            lemma_len_subset(t0.keyset_at(r), t0.keyset_at(sm));
                            assert(t0.keyset_at(r).len() < t0.keyset_at(sm).len());
                            assert(t0.keyset_at(sm).subset_of(t0.keyset_at(q[0])));
                            assert(t0.keyset_at(q[0]).len() < t0.keyset_at(d).len());
                            assert(t0.keyset_at(d).subset_of(t0.keyset_at(p[s])));
                            lemma_len_subset(t0.keyset_at(d), t0.keyset_at(p[s]));
                            lemma_child_keyset(t0, sm, r);
                        }
                    }
                    assert forall|u: int| 0 <= u < q.len() - 1 implies #[trigger] q[u] != r by {}
                }
            },
            None => {},
        }
        assert(nd1.keyset@ =~= t1.keyset_of(nd1.left).union(t1.keyset_of(nd1.right)).insert(
            nd1.key as int,
        ));
        assert forall|x: int| t1.keyset_of(nd1.right).contains(x) implies x > nd1.key as int by {
            assert(t0.keyset_of(rs).contains(x));
            assert(t0.keyset_at(sm).contains(x));
            assert(x >= ks);
            assert(x != ks);
        }
    } else {
        let r0 = q[0];
        assert(nd0.right == Some(r0));
        assert(r0 != sm);
        assert(t1.live@.contains(r0));
        assert(t1.nodes@[r0 as int].keyset@ == t0.nodes@[r0 as int].keyset@.remove(ks));
        assert(t1.nodes@[r0 as int].parent == Some(d)) by {
            assert(Some(r0) != rs) by {
                match rs {
                    Some(r) => {
                        assert(t0.nodes@[r as int].parent == Some(sm));
                        if r0 == r {
                            assert(sm == d);
                        }
                    },
                    None => {},
                }
            }
        }
        assert(t1.nodes@[d as int].right == Some(r0)) by {
            assert(d != q[qlen - 2]);
        }
        assert(t0.keyset_at(r0).contains(ks));
        assert(!t0.keyset_at(r0).contains(k)) by {
            lemma_child_keyset(t0, d, r0);
        }
        assert(nd1.keyset@ =~= t1.keyset_of(nd1.left).union(t1.keyset_of(nd1.right)).insert(
            nd1.key as int,
        ));
        assert forall|x: int| t1.keyset_of(nd1.right).contains(x) implies x > nd1.key as int by {
            assert(t0.keyset_at(r0).contains(x));
            assert(x >= ks);
            assert(x != ks);
        }
    }
    assert forall|x: int| t1.keyset_of(nd1.left).contains(x) implies x < nd1.key as int by {
        assert(t0.keyset_of(nd0.left).contains(x));
        assert(x < k);
        assert(k < ks);
    }
    // the parent side of d is untouched
    match nd0.parent {
        None => {
            assert(t0.root == Some(d));
            assert(t1.root == Some(d));
        },
        Some(pd) => {
            assert(plen >= 2 && pd == p[plen - 2]);
            assert(pd != sm);
            assert(t1.live@.contains(pd));
            assert(t1.nodes@[pd as int].left == t0.nodes@[pd as int].left && t1.nodes@[pd
                as int].right == t0.nodes@[pd as int].right) by {
                assert(pd != d);
                if qlen >= 2 {
                    assert(pd != q[qlen - 2]);
                }
            }
            assert(t1.root == t0.root);
            assert(t0.root == Some(p[0]));
            assert(t1.root != Some(d)) by {
                if d == p[0] {
                    assert(t0.nodes@[p[0] as int].parent is None);
                }
            }
        },
    }
}
/// The successor's right child appears neither on the descent path nor
/// strictly inside the spine.
proof fn lemma_rs_off(t0: Tree, p: Seq<usize>, q: Seq<usize>, r: usize)
    requires
        promote_pre(t0, p, q),
        t0.nodes@[q[q.len() - 1] as int].right == Some(r),
    ensures
        forall|s: int| 0 <= s < p.len() ==> #[trigger] p[s] != r,
        forall|u: int| 0 <= u < q.len() ==> #[trigger] q[u] != r,
        t0.live@.contains(r),
        t0.nodes@[r as int].parent == Some(q[q.len() - 1]),
{
    let plen = p.len() as int;
    let d = p[plen - 1];
    let qlen = q.len() as int;
    let sm = q[qlen - 1];
    lemma_promote_shape(t0, p, q);
    assert(t0.node_ok(sm));
    assert(t0.node_ok(r));
    lemma_child_keyset(t0, sm, r);
    lemma_child_keyset(t0, d, q[0]);
    assert forall|s: int| 0 <= s < p.len() implies #[trigger] p[s] != r by {
        if p[s] == r {
            lemma_len_subset(t0.keyset_at(sm), t0.keyset_at(q[0]));
            assert(t0.keyset_at(d).subset_of(t0.keyset_at(p[s])));
            lemma_len_subset(t0.keyset_at(d), t0.keyset_at(p[s]));
        }
    }
    assert forall|u: int| 0 <= u < q.len() implies #[trigger] q[u] != r by {
        if q[u] == r {
            if u == 0 {
                assert(t0.nodes@[q[0] as int].parent == Some(d));
                assert(d == sm);
                assert(p[plen - 1] != q[qlen - 1]);
            } else {
                assert(t0.nodes@[q[u - 1] as int].left == Some(q[u]));
                assert(t0.node_ok(q[u - 1]));
                assert(t0.nodes@[r as int].parent == Some(q[u - 1]));
                assert(q[u - 1] == sm);
                if u - 1 < qlen - 1 {
                    assert(t0.keyset_at(q[qlen - 1]).len() < t0.keyset_at(q[u - 1]).len());
                }
                assert(u - 1 == qlen - 1);
            }
        }
    }
}

/// After a two-child deletion, the successor's right child, which was
/// promoted into the successor's slot, is well formed.
#[verifier::spinoff_prover]
#[verifier::rlimit(100)]
proof fn lemma_promote_rs(t0: Tree, t1: Tree, p: Seq<usize>, q: Seq<usize>, r: usize)
    requires
        promote_pre(t0, p, q),
        promote_state(t0, t1, p, q, Some(r)),
    ensures
        t1.node_ok(r),
{
    let plen = p.len() as int;
    let d = p[plen - 1];
    let k = t0.key_at(d);
    let qlen = q.len() as int;
    let sm = q[qlen - 1];
    let ks = t0.key_at(sm);
    lemma_promote_shape(t0, p, q);
    lemma_rs_off(t0, p, q, r);
    assert(t0.node_ok(sm));
    assert(t0.node_ok(r));
    assert(r != sm);
    assert(r != d);
    assert(t1.live@.contains(r));
    assert(t1.live@.len() + 1 == t0.live@.len());
    let nd0 = t0.nodes@[r as int];
    let nd1 = t1.nodes@[r as int];
    assert(nd1.keyset@ == nd0.keyset@);
    assert(nd1.key == nd0.key);
    assert(nd1.left == nd0.left && nd1.right == nd0.right) by {
        if qlen >= 2 {
            assert(q[qlen - 2] != r);
        }
    }
    // children of r are untouched
    match nd0.left {
        Some(cc) => {
            assert(t0.node_ok(cc));
            assert(cc != sm) by {
                if cc == sm {
                    assert(t0.nodes@[sm as int].parent == Some(r));
                    assert(q[qlen - 1] != r);
                }
            }
            assert(t1.live@.contains(cc));
            assert(Some(cc) != Some(r)) by {
                if cc == r {
                    lemma_child_keyset(t0, r, cc);
                }
            }
            assert(t1.nodes@[cc as int].parent == Some(r));
            assert(t1.nodes@[cc as int].keyset@ == t0.nodes@[cc as int].keyset@) by {
                lemma_child_keyset(t0, r, cc);
                lemma_child_keyset(t0, sm, r);
                lemma_child_keyset(t0, d, q[0]);
                assert forall|s: int| 0 <= s < p.len() implies #[trigger] p[s] != cc by {
                    if p[s] == cc {
                        lemma_len_subset(t0.keyset_at(cc), t0.keyset_at(r));
                        lemma_len_subset(t0.keyset_at(sm), t0.keyset_at(q[0]));
                        assert(t0.keyset_at(d).subset_of(t0.keyset_at(p[s])));
                        lemma_len_subset(t0.keyset_at(d), t0.keyset_at(p[s]));
                    }
                }
                assert forall|u: int| 0 <= u < q.len() - 1 implies #[trigger] q[u] != cc by {
                    if q[u] == cc {
                        if u == 0 {
                            assert(t0.nodes@[q[0] as int].parent == Some(d));
                            assert(d == r);
                            assert(p[plen - 1] != r);
                        } else {
                            assert(t0.nodes@[q[u - 1] as int].left == Some(q[u]));
                            assert(t0.node_ok(q[u - 1]));
                            assert(t0.nodes@[cc as int].parent == Some(q[u - 1]));
                            assert(q[u - 1] == r);
                        }
                    }
                }
            }
        },
        None => {},
    }
    match nd0.right {
        Some(cc) => {
            assert(t0.node_ok(cc));
            assert(cc != sm) by {
                if cc == sm {
                    assert(t0.nodes@[sm as int].parent == Some(r));
                    assert(q[qlen - 1] != r);
                }
            }
            assert(t1.live@.contains(cc));
            assert(Some(cc) != Some(r)) by {
                if cc == r {
                    lemma_child_keyset(t0, r, cc);
                }
            }
            assert(t1.nodes@[cc as int].parent == Some(r));
            assert(t1.nodes@[cc as int].keyset@ == t0.nodes@[cc as int].keyset@) by {
                lemma_child_keyset(t0, r, cc);
                lemma_child_keyset(t0, sm, r);
                lemma_child_keyset(t0, d, q[0]);
                assert forall|s: int| 0 <= s < p.len() implies #[trigger] p[s] != cc by {
                    if p[s] == cc {
                        lemma_len_subset(t0.keyset_at(cc), t0.keyset_at(r));
                        lemma_len_subset(t0.keyset_at(sm), t0.keyset_at(q[0]));
                        assert(t0.keyset_at(d).subset_of(t0.keyset_at(p[s])));
                        lemma_len_subset(t0.keyset_at(d), t0.keyset_at(p[s]));
                    }
                }
                assert forall|u: int| 0 <= u < q.len() - 1 implies #[trigger] q[u] != cc by {
                    if q[u] == cc {
                        if u == 0 {
                            assert(t0.nodes@[q[0] as int].parent == Some(d));
                            assert(d == r);
                            assert(p[plen - 1] != r);
                        } else {
                            assert(t0.nodes@[q[u - 1] as int].left == Some(q[u]));
                            assert(t0.node_ok(q[u - 1]));
                            assert(t0.nodes@[cc as int].parent == Some(q[u - 1]));
                            assert(q[u - 1] == r);
                        }
                    }
                }
            }
        },
        None => {},
    }
    // the new parent of r is the successor's old parent
    assert(nd1.parent == t0.nodes@[sm as int].parent);
    if qlen == 1 {
        assert(nd1.parent == Some(d));
        assert(t1.live@.contains(d));
        assert(t1.nodes@[d as int].right == Some(r));
        assert(t1.root != Some(r)) by {
            assert(t0.root == Some(p[0]));
            assert(p[0] != r);
        }
    } else {
        assert(nd1.parent == Some(q[qlen - 2]));
        assert(q[qlen - 2] != sm);
        assert(t1.live@.contains(q[qlen - 2]));
        assert(t1.nodes@[q[qlen - 2] as int].left == Some(r));
        assert(t1.root != Some(r)) by {
            assert(t0.root == Some(p[0]));
            assert(p[0] != r);
        }
    }
    // size bound
    assert(nd1.keyset@.len() <= t1.live@.len()) by {
        lemma_child_keyset(t0, sm, r);
        assert(t0.keyset_at(sm).len() <= t0.live@.len());
    }
}
/// After a two-child deletion, a node strictly inside the spine is
/// well formed: its keyset lost exactly the successor's key.
#[verifier::spinoff_prover]
#[verifier::rlimit(100)]
proof fn lemma_promote_spine(
    t0: Tree,
    t1: Tree,
    p: Seq<usize>,
    q: Seq<usize>,
    rs: Option<usize>,
    u: int,
)
    requires
        promote_pre(t0, p, q),
        promote_state(t0, t1, p, q, rs),
        0 <= u < q.len() - 1,
    ensures
        t1.node_ok(q[u]),
{
    let plen = p.len() as int;
    let d = p[plen - 1];
    let k = t0.key_at(d);
    let qlen = q.len() as int;
    let sm = q[qlen - 1];
    let ks = t0.key_at(sm);
    lemma_promote_shape(t0, p, q);
    assert(t0.node_ok(d));
    assert(t0.node_ok(sm));
    let j = q[u];
    assert(t0.node_ok(j));
    let nd0 = t0.nodes@[j as int];
    let nd1 = t1.nodes@[j as int];
    assert(j != d);
    assert(j != sm);
    assert(t1.live@.contains(j));
    assert(t1.live@.len() + 1 == t0.live@.len());
    assert(nd1.key == nd0.key);
    assert(nd1.keyset@ == nd0.keyset@.remove(ks));
    assert(nd0.keyset@.contains(ks));
    assert(nd1.keyset@.len() == nd0.keyset@.len() - 1);
    assert(t0.key_at(j) != ks) by {
        assert(t0.nodes@[j as int].left == Some(q[u + 1]));
        assert(t0.keyset_at(q[u + 1]).contains(ks));
    }
    // the spine child of j holds ks below j's key
    let c = q[u + 1];
    assert(nd0.left == Some(c));
    assert(t0.node_ok(c));
    assert(ks < t0.key_at(j)) by {
        assert(t0.keyset_at(c).contains(ks));
    }
    // the right child of j is off everything and keeps its record
    match nd0.right {
        Some(oc) => {
            assert(t0.node_ok(oc));
            assert(oc != c) by {
                lemma_two_slots(t0, j, c);
            }
            assert(oc != sm) by {
                if oc == sm {
                    assert(t0.nodes@[sm as int].parent == Some(j));
                    if qlen >= 2 {
                        assert(t0.nodes@[sm as int].parent == Some(q[qlen - 2]));
                        assert(j == q[qlen - 2]);
                        assert(t0.nodes@[q[qlen - 2] as int].left == Some(sm));
                        lemma_two_slots(t0, j, sm);
                    }
                }
            }
            assert(t1.live@.contains(oc));
            assert(!t0.keyset_at(oc).contains(ks)) by {
                lemma_child_keyset(t0, j, oc);
            }
            assert(!t0.keyset_at(oc).contains(k)) by {
                lemma_child_keyset(t0, j, oc);
                assert(t0.keyset_at(j).subset_of(t0.keyset_at(q[0])));
                lemma_child_keyset(t0, d, q[0]);
            }
            assert(t1.nodes@[oc as int].keyset@ == t0.nodes@[oc as int].keyset@) by {
                lemma_child_keyset(t0, j, oc);
                lemma_child_keyset(t0, d, q[0]);
                assert forall|s: int| 0 <= s < p.len() implies #[trigger] p[s] != oc by {
                    if p[s] == oc {
                        lemma_len_subset(t0.keyset_at(oc), t0.keyset_at(q[0]));
                        assert(t0.keyset_at(d).subset_of(t0.keyset_at(p[s])));
                        lemma_len_subset(t0.keyset_at(d), t0.keyset_at(p[s]));
                    }
                }
                assert forall|w: int| 0 <= w < q.len() - 1 implies #[trigger] q[w] != oc by {
                    if q[w] == oc {
                        if w == 0 {
                            assert(t0.nodes@[q[0] as int].parent == Some(d));
                            assert(t0.nodes@[oc as int].parent == Some(j));
                            assert(j == d);
                        } else {
                            assert(t0.nodes@[q[w - 1] as int].left == Some(q[w]));
                            assert(t0.node_ok(q[w - 1]));
                            assert(t0.nodes@[oc as int].parent == Some(q[w - 1]));
                            assert(q[w - 1] == j);
                            if w - 1 < u {
                                assert(t0.keyset_at(q[u]).len() < t0.keyset_at(q[w - 1]).len());
                            }
                            if u < w - 1 {
                                assert(t0.keyset_at(q[w - 1]).len() < t0.keyset_at(q[u]).len());
                            }
                            assert(w - 1 == u);
                            assert(q[w] == q[u + 1]);
                            lemma_two_slots(t0, j, q[u + 1]);
                        }
                    }
                }
            }
            assert(t1.nodes@[oc as int].parent == Some(j)) by {
                assert(Some(oc) != rs) by {
                    match rs {
                        Some(r) => {
                            assert(t0.nodes@[r as int].parent == Some(sm));
                            if oc == r {
                                assert(j == sm);
                            }
                        },
                        None => {},
                    }
                }
            }
        },
        None => {},
    }
    if u == qlen - 2 {
        // the spine child was the successor itself: its right child
        // moved into the slot
        assert(c == sm);
        assert(t0.nodes@[sm as int].left is None);
        assert(t0.keyset_at(sm) == t0.keyset_of(rs).insert(ks));
        assert(!t0.keyset_of(rs).contains(ks)) by {
            match rs {
                Some(r) => {
                    lemma_child_keyset(t0, sm, r);
                },
                None => {},
            }
        }
        assert(nd1.left == rs);
        assert(nd1.right == nd0.right);
        match rs {
            Some(r) => {
                lemma_rs_off(t0, p, q, r);
                assert(r != sm);
                assert(t1.live@.contains(r));
                assert(t1.nodes@[r as int].keyset@ == t0.nodes@[r as int].keyset@);
                assert(t1.nodes@[r as int].parent == Some(j));
            },
            None => {},
        }
        assert(nd1.keyset@ =~= t1.keyset_of(nd1.left).union(t1.keyset_of(nd1.right)).insert(
            nd1.key as int,
        ));
        assert forall|x: int| t1.keyset_of(nd1.left).contains(x) implies x < nd1.key as int by {
            assert(t0.keyset_of(rs).contains(x));
            assert(t0.keyset_at(sm).contains(x));
            assert(t0.keyset_of(nd0.left).contains(x));
        }
        assert forall|x: int| t1.keyset_of(nd1.right).contains(x) implies x > nd1.key as int by {
            match nd0.right {
                Some(oc) => {
                    assert(t0.keyset_of(nd0.right).contains(x));
                },
                None => {},
            }
        }
    } else {
        // the spine child is deeper inside the spine and lost ks too
        assert(u + 1 < qlen - 1);
        assert(c != sm);
        assert(nd1.left == nd0.left && nd1.right == nd0.right) by {
            if qlen >= 2 {
                assert(j != q[qlen - 2]) by {
                    if u < qlen - 2 {
                        assert(t0.keyset_at(q[qlen - 2]).len() < t0.keyset_at(q[u]).len());
                    }
                }
            }
        }
        assert(t1.nodes@[c as int].keyset@ == t0.nodes@[c as int].keyset@.remove(ks));
        assert(t1.live@.contains(c));
        assert(t1.nodes@[c as int].parent == Some(j)) by {
            assert(Some(c) != rs) by {
                match rs {
                    Some(r) => {
                        assert(t0.nodes@[r as int].parent == Some(sm));
                        if c == r {
                            assert(j == sm);
                        }
                    },
                    None => {},
                }
            }
        }
        assert(nd1.keyset@ =~= t1.keyset_of(nd1.left).union(t1.keyset_of(nd1.right)).insert(
            nd1.key as int,
        ));
        assert forall|x: int| t1.keyset_of(nd1.left).contains(x) implies x < nd1.key as int by {
            assert(t0.keyset_of(nd0.left).contains(x));
        }
        assert forall|x: int| t1.keyset_of(nd1.right).contains(x) implies x > nd1.key as int by {
            match nd0.right {
                Some(oc) => {
                    assert(t0.keyset_of(nd0.right).contains(x));
                },
                None => {},
            }
        }
    }
    // the parent side of j
    if u == 0 {
        assert(nd0.parent == Some(d));
        assert(t1.live@.contains(d));
        assert(t1.nodes@[d as int].right == Some(j)) by {
            if qlen >= 2 {
                assert(d != q[qlen - 2]);
            }
        }
        assert(t1.root != Some(j)) by {
            assert(t0.root == Some(p[0]));
            assert(p[0] != j);
        }
        assert(nd1.parent == Some(d)) by {
            assert(Some(j) != rs) by {
                match rs {
                    Some(r) => {
                        assert(q[u] != r) by {
                            lemma_rs_off(t0, p, q, r);
                        }
                    },
                    None => {},
                }
            }
        }
    } else {
        assert(t0.nodes@[q[u - 1] as int].left == Some(q[u]));
        assert(t0.node_ok(q[u - 1]));
        assert(nd0.parent == Some(q[u - 1]));
        assert(q[u - 1] != sm) by {
            if u - 1 < qlen - 1 {
                assert(t0.keyset_at(q[qlen - 1]).len() < t0.keyset_at(q[u - 1]).len());
            }
        }
        assert(t1.live@.contains(q[u - 1]));
        assert(t1.nodes@[q[u - 1] as int].left == Some(j) || t1.nodes@[q[u - 1] as int].right
            == Some(j)) by {
            if qlen >= 2 && q[u - 1] == q[qlen - 2] {
                assert(u - 1 == qlen - 2);
                assert(j == q[u]);
                assert(u == qlen - 1);
            }
        }
        assert(t1.root != Some(j)) by {
            assert(t0.root == Some(p[0]));
            assert(p[0] != j);
        }
        assert(nd1.parent == Some(q[u - 1])) by {
            assert(Some(j) != rs) by {
                match rs {
                    Some(r) => {
                        assert(q[u] != r) by {
                            lemma_rs_off(t0, p, q, r);
                        }
                    },
                    None => {},
                }
            }
        }
    }
}
/// After a two-child deletion, an ancestor on the descent path above
/// `d` is well formed: its keyset lost exactly `d`'s old key.
#[verifier::spinoff_prover]
#[verifier::rlimit(100)]
proof fn lemma_promote_on_path(
    t0: Tree,
    t1: Tree,
    p: Seq<usize>,
    q: Seq<usize>,
    rs: Option<usize>,
    s: int,
)
    requires
        promote_pre(t0, p, q),
        promote_state(t0, t1, p, q, rs),
        0 <= s < p.len() - 1,
    ensures
        t1.node_ok(p[s]),
{
    let plen = p.len() as int;
    let d = p[plen - 1];
    let k = t0.key_at(d);
    let qlen = q.len() as int;
    let sm = q[qlen - 1];
    let ks = t0.key_at(sm);
    lemma_promote_shape(t0, p, q);
    lemma_descent_shape(t0, p);
    assert(t0.node_ok(d));
    let j = p[s];
    assert(t0.node_ok(j));
    let nd0 = t0.nodes@[j as int];
    let nd1 = t1.nodes@[j as int];
    assert(j != d) by {
        assert(t0.keyset_at(p[plen - 1]).len() < t0.keyset_at(p[s]).len());
    }
    assert(j != sm);
    assert(t1.live@.contains(j));
    assert(t1.live@.len() + 1 == t0.live@.len());
    assert(nd1.key == nd0.key);
    assert(nd1.keyset@ == nd0.keyset@.remove(k));
    assert(nd0.keyset@.contains(k));
    assert(nd1.keyset@.len() == nd0.keyset@.len() - 1);
    assert(t0.key_at(j) != k);
    assert(nd1.left == nd0.left && nd1.right == nd0.right) by {
        if qlen >= 2 {
            assert(j != q[qlen - 2]);
        }
    }
    // the on-path child of j is p[s + 1], whose keyset also lost k
    let c = p[s + 1];
    assert((nd0.left == Some(c) && k < t0.key_at(j)) || (nd0.right == Some(c) && k > t0.key_at(j)));
    assert(t0.node_ok(c));
    assert(c != sm);
    assert(t1.live@.contains(c));
    assert(t1.nodes@[c as int].keyset@ == t0.nodes@[c as int].keyset@.remove(k));
    assert(t1.nodes@[c as int].parent == Some(j)) by {
        assert(Some(c) != rs) by {
            match rs {
                Some(r) => {
                    lemma_rs_off(t0, p, q, r);
                },
                None => {},
            }
        }
    }
    // the other child of j is off everything and keeps its record
    match (if nd0.left == Some(c) {
        nd0.right
    } else {
        nd0.left
    }) {
        Some(oc) => {
            assert(oc != c) by {
                if nd0.left == Some(c) {
                    lemma_two_slots(t0, j, c);
                } else {
                    lemma_two_slots(t0, j, oc);
                }
            }
            assert(t0.node_ok(oc));
            assert(oc != sm) by {
                if oc == sm {
                    assert(t0.nodes@[sm as int].parent == Some(j));
                    if qlen == 1 {
                        assert(t0.nodes@[sm as int].parent == Some(d));
                    } else {
                        assert(t0.nodes@[sm as int].parent == Some(q[qlen - 2]));
                        assert(j == q[qlen - 2]);
                    }
                }
            }
            assert(t1.live@.contains(oc));
            assert(!t0.keyset_at(oc).contains(k)) by {
                lemma_child_keyset(t0, j, oc);
            }
            lemma_descent_child_on_path(t0, p, k, j, oc);
            assert(t1.nodes@[oc as int].keyset@ == t0.nodes@[oc as int].keyset@) by {
                assert forall|w: int| 0 <= w < p.len() implies #[trigger] p[w] != oc by {
                    if p[w] == oc {
                        assert(w >= 1 && p[w - 1] == j);
                        if w - 1 < s {
                            assert(t0.keyset_at(p[s]).len() < t0.keyset_at(p[w - 1]).len());
                        }
                        if s < w - 1 {
                            assert(t0.keyset_at(p[w - 1]).len() < t0.keyset_at(p[s]).len());
                        }
                        assert(w - 1 == s);
                        assert(p[w] == p[s + 1]);
                    }
                }
                assert forall|w: int| 0 <= w < q.len() - 1 implies #[trigger] q[w] != oc by {
                    if q[w] == oc {
                        if w == 0 {
                            assert(t0.nodes@[q[0] as int].parent == Some(d));
                            assert(t0.nodes@[oc as int].parent == Some(j));
                            assert(j == d);
                        } else {
                            assert(t0.nodes@[q[w - 1] as int].left == Some(q[w]));
                            assert(t0.node_ok(q[w - 1]));
                            assert(t0.nodes@[oc as int].parent == Some(q[w - 1]));
                            assert(j == q[w - 1]);
                        }
                    }
                }
            }
            assert(t1.nodes@[oc as int].parent == Some(j)) by {
                assert(Some(oc) != rs) by {
                    match rs {
                        Some(r) => {
                            lemma_rs_off(t0, p, q, r);
                        },
                        None => {},
                    }
                }
            }
        },
        None => {},
    }
    assert(nd1.keyset@ =~= t1.keyset_of(nd1.left).union(t1.keyset_of(nd1.right)).insert(
        nd1.key as int,
    ));
    assert forall|x: int| t1.keyset_of(nd1.left).contains(x) implies x < nd1.key as int by {
        match nd0.left {
            Some(lc) => {
                assert(t0.keyset_of(nd0.left).contains(x));
            },
            None => {},
        }
    }
    assert forall|x: int| t1.keyset_of(nd1.right).contains(x) implies x > nd1.key as int by {
        match nd0.right {
            Some(rc) => {
                assert(t0.keyset_of(nd0.right).contains(x));
            },
            None => {},
        }
    }
    // the parent side of j
    if s == 0 {
        assert(t0.root == Some(j));
        assert(nd0.parent is None);
        assert(t1.root == Some(j));
    } else {
        assert((t0.nodes@[p[s - 1] as int].left == Some(p[s])) || (t0.nodes@[p[s - 1] as int].right
            == Some(p[s])));
        assert(t0.node_ok(p[s - 1]));
        assert(nd0.parent == Some(p[s - 1]));
        assert(p[s - 1] != sm);
        assert(t1.live@.contains(p[s - 1]));
        assert(t1.nodes@[p[s - 1] as int].left == t0.nodes@[p[s - 1] as int].left
            && t1.nodes@[p[s - 1] as int].right == t0.nodes@[p[s - 1] as int].right) by {
            assert(p[s - 1] != d) by {
                if s - 1 < plen - 1 {
                    assert(t0.keyset_at(p[plen - 1]).len() < t0.keyset_at(p[s - 1]).len());
                }
            }
            if qlen >= 2 {
                assert(p[s - 1] != q[qlen - 2]);
            }
        }
        assert(nd1.parent == Some(p[s - 1])) by {
            assert(Some(j) != rs) by {
                match rs {
                    Some(r) => {
                        lemma_rs_off(t0, p, q, r);
                    },
                    None => {},
                }
            }
        }
        assert(t1.root != Some(j)) by {
            assert(t0.root == Some(p[0]));
            if j == p[0] {
                assert(t0.keyset_at(p[s]).len() < t0.keyset_at(p[0]).len());
            }
        }
    }
}

/// After a two-child deletion, a node away from the path, the spine
/// and the promoted child keeps a well-formed record.
#[verifier::spinoff_prover]
#[verifier::rlimit(100)]
proof fn lemma_promote_off(
    t0: Tree,
    t1: Tree,
    p: Seq<usize>,
    q: Seq<usize>,
    rs: Option<usize>,
    j: usize,
)
    requires
        promote_pre(t0, p, q),
        promote_state(t0, t1, p, q, rs),
        t0.live@.contains(j),
        forall|s: int| 0 <= s < p.len() ==> #[trigger] p[s] != j,
        forall|u: int| 0 <= u < q.len() ==> #[trigger] q[u] != j,
        Some(j) != rs,
    ensures
        t1.node_ok(j),
{
    let plen = p.len() as int;
    let d = p[plen - 1];
    let k = t0.key_at(d);
    let qlen = q.len() as int;
    let sm = q[qlen - 1];
    let ks = t0.key_at(sm);
    lemma_promote_shape(t0, p, q);
    assert(t0.node_ok(d));
    assert(t0.node_ok(sm));
    assert(t0.node_ok(j));
    let nd0 = t0.nodes@[j as int];
    let nd1 = t1.nodes@[j as int];
    assert(j != d);
    assert(j != sm);
    assert(t1.live@.contains(j));
    assert(t1.live@.len() + 1 == t0.live@.len());
    assert(nd1.key == nd0.key);
    assert(nd1.keyset@ == nd0.keyset@);
    assert(nd1.parent == nd0.parent);
    assert(nd1.left == nd0.left && nd1.right == nd0.right) by {
        if qlen >= 2 {
            assert(j != q[qlen - 2]);
        }
    }
    // children of j are untouched as well
    match nd0.left {
        Some(oc) => {
            assert(t0.node_ok(oc));
            assert(t0.nodes@[oc as int].parent == Some(j));
            assert(oc != sm) by {
                if oc == sm {
                    if qlen == 1 {
                        assert(t0.nodes@[sm as int].parent == Some(d));
                    } else {
                        assert(t0.nodes@[sm as int].parent == Some(q[qlen - 2]));
                    }
                }
            }
            assert(t1.live@.contains(oc));
            assert(t1.nodes@[oc as int].parent == Some(j)) by {
                assert(Some(oc) != rs) by {
                    match rs {
                        Some(r) => {
                            lemma_rs_off(t0, p, q, r);
                            if oc == r {
                                assert(t0.nodes@[r as int].parent == Some(sm));
                                assert(j == sm);
                            }
                        },
                        None => {},
                    }
                }
            }
            assert(t1.nodes@[oc as int].keyset@ == t0.nodes@[oc as int].keyset@) by {
                lemma_descent_child_on_path(t0, p, k, j, oc);
                assert forall|w: int| 0 <= w < p.len() implies #[trigger] p[w] != oc by {
                    if p[w] == oc {
                        assert(w >= 1 && p[w - 1] == j);
                    }
                }
                assert forall|w: int| 0 <= w < q.len() - 1 implies #[trigger] q[w] != oc by {
                    if q[w] == oc {
                        if w == 0 {
                            assert(t0.nodes@[q[0] as int].parent == Some(d));
                            assert(j == d);
                        } else {
                            assert(t0.nodes@[q[w - 1] as int].left == Some(q[w]));
                            assert(t0.node_ok(q[w - 1]));
                            assert(t0.nodes@[oc as int].parent == Some(q[w - 1]));
                            assert(j == q[w - 1]);
                        }
                    }
                }
            }
        },
        None => {},
    }
    match nd0.right {
        Some(oc) => {
            assert(t0.node_ok(oc));
            assert(t0.nodes@[oc as int].parent == Some(j));
            assert(oc != sm) by {
                if oc == sm {
                    if qlen == 1 {
                        assert(t0.nodes@[sm as int].parent == Some(d));
                    } else {
                        assert(t0.nodes@[sm as int].parent == Some(q[qlen - 2]));
                    }
                }
            }
            assert(t1.live@.contains(oc));
            assert(t1.nodes@[oc as int].parent == Some(j)) by {
                assert(Some(oc) != rs) by {
                    match rs {
                        Some(r) => {
                            lemma_rs_off(t0, p, q, r);
                            if oc == r {
                                assert(t0.nodes@[r as int].parent == Some(sm));
                                assert(j == sm);
                            }
                        },
                        None => {},
                    }
                }
            }
            assert(t1.nodes@[oc as int].keyset@ == t0.nodes@[oc as int].keyset@) by {
                lemma_descent_child_on_path(t0, p, k, j, oc);
                assert forall|w: int| 0 <= w < p.len() implies #[trigger] p[w] != oc by {
                    if p[w] == oc {
                        assert(w >= 1 && p[w - 1] == j);
                    }
                }
                assert forall|w: int| 0 <= w < q.len() - 1 implies #[trigger] q[w] != oc by {
                    if q[w] == oc {
                        if w == 0 {
                            assert(t0.nodes@[q[0] as int].parent == Some(d));
                            assert(j == d);
                        } else {
                            assert(t0.nodes@[q[w - 1] as int].left == Some(q[w]));
                            assert(t0.node_ok(q[w - 1]));
                            assert(t0.nodes@[oc as int].parent == Some(q[w - 1]));
                            assert(j == q[w - 1]);
                        }
                    }
                }
            }
        },
        None => {},
    }
    // the parent side of j: its parent's slots changed only where the
    // successor was spliced out, and j sat in the other slot there
    match nd0.parent {
        None => {
            assert(t0.root == Some(j));
            assert(j == p[0]);
        },
        Some(pj) => {
            assert(t0.node_ok(pj));
            assert(pj != sm) by {
                if pj == sm {
                    assert(t0.nodes@[sm as int].left is None);
                    assert(t0.nodes@[sm as int].left == Some(j) || t0.nodes@[sm as int].right
                        == Some(j));
                    assert(t0.nodes@[sm as int].right == Some(j));
                    lemma_rs_off(t0, p, q, j);
                }
            }
            assert(t1.live@.contains(pj));
            assert(t1.nodes@[pj as int].left == Some(j) || t1.nodes@[pj as int].right == Some(j))
                by {
                if qlen == 1 && pj == d {
                    assert(t0.nodes@[d as int].right == Some(q[0]));
                    assert(j != q[0]);
                    assert(t0.nodes@[d as int].left == Some(j));
                    assert(t1.nodes@[d as int].left == Some(j));
                } else if qlen >= 2 && pj == q[qlen - 2] {
                    assert(t0.nodes@[q[qlen - 2] as int].left == Some(sm));
                    assert(j != sm);
                    assert(t0.nodes@[q[qlen - 2] as int].right == Some(j));
                    assert(t1.nodes@[q[qlen - 2] as int].right == Some(j));
                }
            }
            assert(t1.root != Some(j)) by {
                assert(t1.root == t0.root);
                assert(t0.root == Some(p[0]));
                assert(p[0] != j);
            }
        },
    }
    // size bound
    assert(nd1.keyset@.len() <= t1.live@.len()) by {
        if nd0.keyset@.len() == t0.live@.len() {
            match nd0.parent {
                None => {
                    assert(j == p[0]);
                },
                Some(pj) => {
                    lemma_child_keyset(t0, pj, j);
                    assert(t0.keyset_at(pj).len() <= t0.live@.len());
                },
            }
        }
    }
}

/// A two-child deletion keeps the tree well formed and removes exactly
/// the old key of `d`.
#[verifier::spinoff_prover]
#[verifier::rlimit(100)]
proof fn lemma_promote_wf(t0: Tree, t1: Tree, p: Seq<usize>, q: Seq<usize>, rs: Option<usize>)
    requires
        promote_pre(t0, p, q),
        promote_state(t0, t1, p, q, rs),
    ensures
        t1.wf(),
        t1.keys() == t0.keys().remove(t0.key_at(p[p.len() - 1])),
{
    let plen = p.len() as int;
    let d = p[plen - 1];
    let k = t0.key_at(d);
    let qlen = q.len() as int;
    let sm = q[qlen - 1];
    lemma_promote_shape(t0, p, q);
    assert(t0.node_ok(d));
    // the key set of the root lost exactly k
    assert(t0.root == Some(p[0]));
    assert(t1.root == Some(p[0]));
    assert(p[0] != sm);
    assert(t1.nodes@[p[0] as int].keyset@ == t0.nodes@[p[0] as int].keyset@.remove(k));
    assert(t1.keys() == t0.keys().remove(k));
    assert forall|j: usize| t1.live@.contains(j) implies t1.node_ok(j) by {
        assert(t0.live@.contains(j));
        assert(j != sm);
        if j == d {
            lemma_promote_d(t0, t1, p, q, rs);
        } else if rs == Some(j) {
            lemma_promote_rs(t0, t1, p, q, j);
        } else if exists|s: int| 0 <= s < p.len() && #[trigger] p[s] == j {
            let s = choose|s: int| 0 <= s < p.len() && #[trigger] p[s] == j;
            assert(s < p.len() - 1) by {
                if s == p.len() - 1 {
                    assert(p[s] == d);
                }
            }
            lemma_promote_on_path(t0, t1, p, q, rs, s);
        } else if exists|u: int| 0 <= u < q.len() && #[trigger] q[u] == j {
            let u = choose|u: int| 0 <= u < q.len() && #[trigger] q[u] == j;
            assert(u < q.len() - 1) by {
                if u == q.len() - 1 {
                    assert(q[u] == sm);
                }
            }
            lemma_promote_spine(t0, t1, p, q, rs, u);
        } else {
            lemma_promote_off(t0, t1, p, q, rs, j);
        }
    }
}
/// Deletes the last node of the descent path when it has two
/// children: the node takes its in-order successor's key, and the
/// successor, which has no left child, is spliced out of the right
/// subtree.
#[verifier::spinoff_prover]
#[verifier::rlimit(100)]
fn delete_two_children(tree: &mut Tree, path: &Vec<usize>)
    requires
        old(tree).wf(),
        descent_path(*old(tree), path@, old(tree).key_at(path@[path@.len() - 1])),
        old(tree).nodes@[path@[path@.len() - 1] as int].right is Some,
    ensures
        final(tree).wf(),
        final(tree).keys() == old(tree).keys().remove(old(tree).key_at(path@[path@.len() - 1])),
        final(tree).root == old(tree).root,
        final(tree).live@.contains(path@[path@.len() - 1]),
        old(tree).keyset_at(path@[path@.len() - 1]).contains(
            final(tree).key_at(path@[path@.len() - 1]),
        ),
        final(tree).key_at(path@[path@.len() - 1]) > old(tree).key_at(path@[path@.len() - 1]),
        forall|z: int|
            #[trigger] old(tree).keyset_at(path@[path@.len() - 1]).contains(z) && z > old(
                tree,
            ).key_at(path@[path@.len() - 1]) ==> z >= final(tree).key_at(path@[path@.len() - 1]),
        exists|q: Seq<usize>, rs: Option<usize>|
            left_spine(*old(tree), q) && old(tree).nodes@[path@[path@.len() - 1] as int].right
                == Some(q[0]) && promote_state(*old(tree), *final(tree), path@, q, rs),
{
    let ghost t0 = *tree;
    let plen: usize = path.len();
    let d = path[plen - 1];
    proof {
        assert(t0.node_ok(d));
    }
    let dn = tree.nodes[d];
    let value = dn.key;
    // the successor is the minimum of the right subtree
    let r0: usize;
    match dn.right {
        Some(x) => {
            r0 = x;
        },
        None => {
            // ruled out by the precondition: the node has a right child
            proof {
                assert(false);
            }
            return;
        },
    }
    proof {
        lemma_child_keyset(t0, d, r0);
    }
    let q = min_path(tree, r0);
    let qlen: usize = q.len();
    let sm = q[qlen - 1];
    proof {
        assert(promote_pre(t0, path@, q@));
        lemma_promote_shape(t0, path@, q@);
        assert(t0.node_ok(sm));
    }
    let sn = tree.nodes[sm];
    let rs = sn.right;
    let ks = sn.key;
    proof {
        match rs {
            Some(r) => {
                lemma_rs_off(t0, path@, q@, r);
            },
            None => {},
        }
        if qlen >= 2 {
            assert(q@[qlen - 2] != d);
            assert(q@[qlen - 2] != sm) by {
                assert(t0.keyset_at(q@[qlen - 1]).len() < t0.keyset_at(q@[qlen - 2]).len());
            }
        }
    }
    // the deleted position takes the successor's key
    let mut dnn = tree.nodes[d];
    dnn.key = ks;
    tree.nodes.set(d, dnn);
    // the successor's right child moves up into its slot
    match rs {
        Some(r) => {
            let mut rn = tree.nodes[r];
            rn.parent = sn.parent;
            tree.nodes.set(r, rn);
        },
        None => {},
    }
    if qlen == 1 {
        let mut dn2 = tree.nodes[d];
        dn2.right = rs;
        tree.nodes.set(d, dn2);
    } else {
        let ps = q[qlen - 2];
        let mut pn = tree.nodes[ps];
        pn.left = rs;
        tree.nodes.set(ps, pn);
    }
    tree.live = Ghost(tree.live@.remove(sm));
    // the keysets along the descent path drop the deleted key
    let mut idx: usize = 0;
    while idx < plen
        invariant
            t0 == *old(tree),
            promote_pre(t0, path@, q@),
            plen == path@.len(),
            qlen == q@.len(),
            d == path@[plen - 1],
            sm == q@[qlen - 1],
            value as int == t0.key_at(d),
            ks == t0.nodes@[sm as int].key,
            rs == t0.nodes@[sm as int].right,
            idx <= plen,
            tree.nodes@.len() == t0.nodes@.len(),
            tree.live@ == t0.live@.remove(sm),
            tree.root == t0.root,
            tree.nodes@[d as int].key == ks,
            forall|j: usize| #![trigger t0.live@.contains(j)]
                t0.live@.contains(j) && j != d ==> tree.nodes@[j as int].key == t0.nodes@[j
                    as int].key,
            forall|j: usize| #![trigger t0.live@.contains(j)]
                t0.live@.contains(j) && Some(j) != rs ==> tree.nodes@[j as int].parent
                    == t0.nodes@[j as int].parent,
            match rs {
                Some(r) => tree.nodes@[r as int].parent == t0.nodes@[sm as int].parent,
                None => true,
            },
            qlen == 1 ==> tree.nodes@[d as int].right == rs && tree.nodes@[d as int].left
                == t0.nodes@[d as int].left && forall|j: usize|
                #![trigger t0.live@.contains(j)]
                t0.live@.contains(j) && j != d ==> tree.nodes@[j as int].left == t0.nodes@[j
                    as int].left && tree.nodes@[j as int].right == t0.nodes@[j as int].right,
            qlen >= 2 ==> tree.nodes@[q@[qlen - 2] as int].left == rs && tree.nodes@[q@[qlen
                - 2] as int].right == t0.nodes@[q@[qlen - 2] as int].right && forall|j: usize|
                #![trigger t0.live@.contains(j)]
                t0.live@.contains(j) && j != q@[qlen - 2] ==> tree.nodes@[j as int].left
                    == t0.nodes@[j as int].left && tree.nodes@[j as int].right == t0.nodes@[j
                    as int].right,
            forall|s: int|
                0 <= s < idx ==> tree.nodes@[#[trigger] path@[s] as int].keyset@
                    == t0.nodes@[path@[s] as int].keyset@.remove(value as int),
            forall|s: int|
                idx <= s < plen ==> tree.nodes@[#[trigger] path@[s] as int].keyset@
                    == t0.nodes@[path@[s] as int].keyset@,
            forall|j: usize| #![trigger t0.live@.contains(j)]
                t0.live@.contains(j) && (forall|s: int|
                    0 <= s < idx ==> #[trigger] path@[s] != j) ==> tree.nodes@[j
                    as int].keyset@ == t0.nodes@[j as int].keyset@,
        decreases plen - idx,
    {
        let p_i = path[idx];
        proof {
            assert(t0.live@.contains(p_i));
            assert forall|s: int| 0 <= s < path@.len() && s != idx implies #[trigger] path@[s]
                != p_i by {
                if s < idx {
                    assert(t0.keyset_at(p_i).len() < t0.keyset_at(path@[s]).len());
                } else {
                    assert(t0.keyset_at(path@[s]).len() < t0.keyset_at(p_i).len());
                }
            }
        }
        let mut pn = tree.nodes[p_i];
        pn.keyset = Ghost(pn.keyset@.remove(value as int));
        tree.nodes.set(p_i, pn);
        idx += 1;
    }
    // the keysets strictly inside the spine drop the successor's key
    let mut jdx: usize = 0;
    while jdx < qlen - 1
        invariant
            t0 == *old(tree),
            promote_pre(t0, path@, q@),
            plen == path@.len(),
            qlen == q@.len(),
            d == path@[plen - 1],
            sm == q@[qlen - 1],
            value as int == t0.key_at(d),
            ks == t0.nodes@[sm as int].key,
            rs == t0.nodes@[sm as int].right,
            jdx <= qlen - 1,
            tree.nodes@.len() == t0.nodes@.len(),
            tree.live@ == t0.live@.remove(sm),
            tree.root == t0.root,
            tree.nodes@[d as int].key == ks,
            forall|j: usize| #![trigger t0.live@.contains(j)]
                t0.live@.contains(j) && j != d ==> tree.nodes@[j as int].key == t0.nodes@[j
                    as int].key,
            forall|j: usize| #![trigger t0.live@.contains(j)]
                t0.live@.contains(j) && Some(j) != rs ==> tree.nodes@[j as int].parent
                    == t0.nodes@[j as int].parent,
            match rs {
                Some(r) => tree.nodes@[r as int].parent == t0.nodes@[sm as int].parent,
                None => true,
            },
            qlen == 1 ==> tree.nodes@[d as int].right == rs && tree.nodes@[d as int].left
                == t0.nodes@[d as int].left && forall|j: usize|
                #![trigger t0.live@.contains(j)]
                t0.live@.contains(j) && j != d ==> tree.nodes@[j as int].left == t0.nodes@[j
                    as int].left && tree.nodes@[j as int].right == t0.nodes@[j as int].right,
            qlen >= 2 ==> tree.nodes@[q@[qlen - 2] as int].left == rs && tree.nodes@[q@[qlen
                - 2] as int].right == t0.nodes@[q@[qlen - 2] as int].right && forall|j: usize|
                #![trigger t0.live@.contains(j)]
                t0.live@.contains(j) && j != q@[qlen - 2] ==> tree.nodes@[j as int].left
                    == t0.nodes@[j as int].left && tree.nodes@[j as int].right == t0.nodes@[j
                    as int].right,
            forall|s: int|
                0 <= s < plen ==> tree.nodes@[#[trigger] path@[s] as int].keyset@
                    == t0.nodes@[path@[s] as int].keyset@.remove(value as int),
            forall|u: int|
                0 <= u < jdx ==> tree.nodes@[#[trigger] q@[u] as int].keyset@ == t0.nodes@[q@[u]
                    as int].keyset@.remove(ks as int),
            forall|u: int|
                jdx <= u < qlen - 1 ==> tree.nodes@[#[trigger] q@[u] as int].keyset@
                    == t0.nodes@[q@[u] as int].keyset@,
            forall|j: usize| #![trigger t0.live@.contains(j)]
                t0.live@.contains(j) && (forall|s: int|
                    0 <= s < plen ==> #[trigger] path@[s] != j) && (forall|u: int|
                    0 <= u < jdx ==> #[trigger] q@[u] != j) ==> tree.nodes@[j as int].keyset@
                    == t0.nodes@[j as int].keyset@,
        decreases qlen - 1 - jdx,
    {
        let q_j = q[jdx];
        proof {
            assert(t0.live@.contains(q_j));
            assert forall|u: int| 0 <= u < q@.len() && u != jdx implies #[trigger] q@[u]
                != q_j by {
                if u < jdx {
                    assert(t0.keyset_at(q_j).len() < t0.keyset_at(q@[u]).len());
                } else {
                    assert(t0.keyset_at(q@[u]).len() < t0.keyset_at(q_j).len());
                }
            }
            assert forall|s: int| 0 <= s < plen implies #[trigger] path@[s] != q_j by {}
        }
        let mut pn = tree.nodes[q_j];
        pn.keyset = Ghost(pn.keyset@.remove(ks as int));
        tree.nodes.set(q_j, pn);
        jdx += 1;
    }
    proof {
        assert(t0.key_at(sm) == ks as int);
        assert(promote_state(t0, *tree, path@, q@, rs));
        lemma_promote_wf(t0, *tree, path@, q@, rs);
        // the deleted position now holds the smallest key of the old
        // subtree above the removed key: the minimum of the right child
        assert(t0.node_ok(d));
        lemma_child_keyset(t0, d, r0);
        assert(t0.keyset_at(r0).contains(ks as int));
        assert(tree.key_at(d) == ks as int);
        assert((ks as int) > value as int);
        assert forall|z: int|
            t0.keyset_at(d).contains(z) && z > value as int implies z >= ks as int by {
            assert(z != value as int);
            assert(z == t0.key_at(d) || t0.keyset_of(t0.nodes@[d as int].left).contains(z)
                || t0.keyset_of(t0.nodes@[d as int].right).contains(z));
            assert(t0.keyset_at(r0).contains(z));
        }
    }
}

impl BstNode {
    /// Creates a fresh tree holding the one node with the given key; the
    /// new node sits in slot 0 and is the root.
    pub fn new_bst_nodelink(value: i32) -> (t: Tree)
        ensures
            t.wf(),
            t.keys() == Set::<int>::empty().insert(value as int),
            t.root == Some(0usize),
            t.has_node(0),
            t.key_at(0) == value as int,
    {
        let mut nodes: Vec<BstNode> = Vec::new();
        nodes.push(BstNode {
            key: value,
            parent: None,
            left: None,
            right: None,
            keyset: Ghost(Set::empty().insert(value as int)),
        });
        let t = Tree { nodes, root: Some(0), live: Ghost(Set::empty().insert(0usize)) };
        proof {
            assert forall|i: usize| t.live@.contains(i) implies t.node_ok(i) by {
                assert(i == 0);
                assert(t.nodes@[0].keyset@
                    == t.keyset_of(t.nodes@[0].left).union(t.keyset_of(t.nodes@[0].right)).insert(
                    value as int,
                )) by {
                    assert(t.nodes@[0].keyset@ =~= t.keyset_of(t.nodes@[0].left).union(
                        t.keyset_of(t.nodes@[0].right),
                    ).insert(value as int));
                }
            }
        }
        t
    }

    /// Returns a copy of the node record held at the given slot.
    pub fn get_bst_nodelink_copy(tree: &Tree, node: usize) -> (nd: BstNode)
        requires
            tree.wf(),
            tree.has_node(node),
        ensures
            nd == tree.nodes@[node as int],
    {
        tree.nodes[node]
    }

    /// Searches the subtree rooted at `node` for `value`, descending left
    /// or right by the ordering; returns the slot of the matching node,
    /// or `None` exactly when the key is not in that subtree.  Searching
    /// from the root covers the whole tree.
    pub fn tree_search(tree: &Tree, node: usize, value: i32) -> (r: Option<usize>)
        requires
            tree.wf(),
            tree.has_node(node),
        ensures
            match r {
                Some(f) => tree.has_node(f) && tree.key_at(f) == value as int
                    && tree.keyset_at(node).contains(value as int),
                None => !tree.keyset_at(node).contains(value as int),
            },
    {
        let mut cur: usize = node;
        loop
            invariant
                tree.wf(),
                tree.has_node(cur),
                tree.keyset_at(node).contains(value as int) <==> tree.keyset_at(
                    cur,
                ).contains(value as int),
            decreases tree.keyset_at(cur).len(),
        {
            proof {
                assert(tree.node_ok(cur));
            }
            let nd = tree.nodes[cur];
            if nd.key == value {
                return Some(cur);
            }
            if value < nd.key {
                match nd.left {
                    Some(l) => {
                        proof {
                            lemma_child_keyset(*tree, cur, l);
                        }
                        cur = l;
                    },
                    None => {
                        return None;
                    },
                }
            } else {
                match nd.right {
                    Some(rt) => {
                        proof {
                            lemma_child_keyset(*tree, cur, rt);
                        }
                        cur = rt;
                    },
                    None => {
                        return None;
                    },
                }
            }
        }
    }

    /// Descends left from `node` as far as possible; the returned slot
    /// holds the smallest key of that subtree and has no left child.
    pub fn minimum(tree: &Tree, node: usize) -> (m: usize)
        requires
            tree.wf(),
            tree.has_node(node),
        ensures
            tree.has_node(m),
            tree.nodes@[m as int].left is None,
            tree.keyset_at(node).contains(tree.key_at(m)),
            tree.keyset_at(m).subset_of(tree.keyset_at(node)),
            forall|x: int| tree.keyset_at(node).contains(x) ==> tree.key_at(m) <= x,
    {
        let mut cur: usize = node;
        loop
            invariant
                tree.wf(),
                tree.has_node(cur),
                tree.keyset_at(cur).subset_of(tree.keyset_at(node)),
                forall|x: int, y: int|
                    #![trigger tree.keyset_at(node).contains(x), tree.keyset_at(cur).contains(y)]
                    tree.keyset_at(node).contains(x) && !tree.keyset_at(cur).contains(
                        x,
                    ) && tree.keyset_at(cur).contains(y) ==> y < x,
            decreases tree.keyset_at(cur).len(),
        {
            proof {
                assert(tree.node_ok(cur));
            }
            let nd = tree.nodes[cur];
            match nd.left {
                Some(l) => {
                    proof {
                        lemma_child_keyset(*tree, cur, l);
                    }
                    cur = l;
                },
                None => {
                    proof {
                        assert(tree.keyset_at(cur).contains(tree.key_at(cur)));
                    }
                    return cur;
                },
            }
        }
    }

    /// Descends right from `node` as far as possible; the returned slot
    /// holds the largest key of that subtree and has no right child.
    pub fn maximum(tree: &Tree, node: usize) -> (m: usize)
        requires
            tree.wf(),
            tree.has_node(node),
        ensures
            tree.has_node(m),
            tree.nodes@[m as int].right is None,
            tree.keyset_at(node).contains(tree.key_at(m)),
            tree.keyset_at(m).subset_of(tree.keyset_at(node)),
            forall|x: int| tree.keyset_at(node).contains(x) ==> tree.key_at(m) >= x,
    {
        let mut cur: usize = node;
        loop
            invariant
                tree.wf(),
                tree.has_node(cur),
                tree.keyset_at(cur).subset_of(tree.keyset_at(node)),
                forall|x: int, y: int|
                    #![trigger tree.keyset_at(node).contains(x), tree.keyset_at(cur).contains(y)]
                    tree.keyset_at(node).contains(x) && !tree.keyset_at(cur).contains(
                        x,
                    ) && tree.keyset_at(cur).contains(y) ==> y > x,
            decreases tree.keyset_at(cur).len(),
        {
            proof {
                assert(tree.node_ok(cur));
            }
            let nd = tree.nodes[cur];
            match nd.right {
                Some(rt) => {
                    proof {
                        lemma_child_keyset(*tree, cur, rt);
                    }
                    cur = rt;
                },
                None => {
                    proof {
                        assert(tree.keyset_at(cur).contains(tree.key_at(cur)));
                    }
                    return cur;
                },
            }
        }
    }

    /// Follows parent back-references from `node` until none remains;
    /// the terminal node is the root of the tree.
    pub fn get_root(tree: &Tree, node: usize) -> (r: usize)
        requires
            tree.wf(),
            tree.has_node(node),
        ensures
            tree.root == Some(r),
            tree.has_node(r),
    {
        let mut cur: usize = node;
        loop
            invariant
                tree.wf(),
                tree.has_node(cur),
            decreases tree.live@.len() - tree.keyset_at(cur).len(),
        {
            proof {
                assert(tree.node_ok(cur));
            }
            let nd = tree.nodes[cur];
            match nd.parent {
                None => {
                    return cur;
                },
                Some(p) => {
                    proof {
                        assert(tree.node_ok(p));
                        lemma_child_keyset(*tree, p, cur);
                    }
                    cur = p;
                },
            }
        }
    }

    /// Finds the in-order successor of `node`: the node holding the
    /// smallest key above `node`'s own, or `None` exactly when `node`
    /// holds the largest key of the tree.  If `node` has a right child
    /// the successor is the minimum of that subtree; otherwise it is
    /// the first ancestor reached from a left child during the ascent
    /// through the parent back-references.
    pub fn tree_successor(tree: &Tree, node: usize) -> (r: Option<usize>)
        requires
            tree.wf(),
            tree.has_node(node),
        ensures
            tree.keys().contains(tree.key_at(node)),
            match r {
                Some(y) => tree.has_node(y) && tree.keys().contains(tree.key_at(y))
                    && tree.key_at(y) > tree.key_at(node) && forall|z: int|
                    tree.keys().contains(z) && z > tree.key_at(node) ==> z >= tree.key_at(y),
                None => forall|z: int| tree.keys().contains(z) ==> z <= tree.key_at(node),
            },
    {
        let ghost k = tree.key_at(node);
        proof {
            assert(tree.node_ok(node));
        }
        let nd = tree.nodes[node];
        let mut cand: Option<usize> = None;
        match nd.right {
            Some(rc) => {
                proof {
                    lemma_child_keyset(*tree, node, rc);
                }
                let y = BstNode::minimum(tree, rc);
                cand = Some(y);
                proof {
                    assert(tree.keyset_at(node).contains(tree.key_at(y)));
                    assert(tree.key_at(y) > k);
                }
            },
            None => {},
        }
        let mut cur: usize = node;
        loop
            invariant
                tree.wf(),
                tree.has_node(node),
                tree.has_node(cur),
                k == tree.key_at(node),
                tree.keyset_at(cur).contains(k),
                match cand {
                    Some(y) => tree.has_node(y) && tree.key_at(y) > k && tree.keyset_at(
                        cur,
                    ).contains(tree.key_at(y)) && forall|z: int|
                        #[trigger] tree.keyset_at(cur).contains(z) ==> z <= k || z >= tree.key_at(
                            y,
                        ),
                    None => forall|z: int| #[trigger] tree.keyset_at(cur).contains(z) ==> z <= k,
                },
            decreases tree.live@.len() - tree.keyset_at(cur).len(),
        {
            proof {
                assert(tree.node_ok(cur));
            }
            let ndc = tree.nodes[cur];
            match ndc.parent {
                None => {
                    proof {
                        assert(tree.root == Some(cur));
                    }
                    return cand;
                },
                Some(p) => {
                    proof {
                        assert(tree.node_ok(p));
                        lemma_child_keyset(*tree, p, cur);
                    }
                    let pnd = tree.nodes[p];
                    let from_left: bool = match pnd.left {
                        Some(l) => l == cur,
                        None => false,
                    };
                    proof {
                        if !from_left {
                            assert(tree.nodes@[p as int].right == Some(cur));
                            assert(tree.key_at(p) < k);
                            assert forall|z: int| #[trigger] tree.keyset_at(p).contains(z)
                                && !tree.keyset_at(cur).contains(z) implies z < k by {
                                assert(z == tree.key_at(p) || tree.keyset_of(
                                    tree.nodes@[p as int].left,
                                ).contains(z));
                            }
                        } else {
                            assert(tree.nodes@[p as int].left == Some(cur));
                            assert(tree.key_at(p) > k);
                            assert forall|z: int| #[trigger] tree.keyset_at(p).contains(z)
                                && !tree.keyset_at(cur).contains(z) implies z >= tree.key_at(
                                p,
                            ) by {
                                assert(z == tree.key_at(p) || tree.keyset_of(
                                    tree.nodes@[p as int].right,
                                ).contains(z));
                            }
                        }
                    }
                    if cand.is_none() && from_left {
                        cand = Some(p);
                    }
                    proof {
                        match cand {
                            Some(y) => {
                                if from_left && y != p {
                                    assert(tree.key_at(p) > tree.key_at(y));
                                }
                            },
                            None => {},
                        }
                    }
                    cur = p;
                },
            }
        }
    }

    /// An alternative entry point for the in-order successor lookup; it
    /// follows the same parent-chain ascent as [`Self::tree_successor`]
    /// and meets the same contract.
    pub fn tree_successor_simpler(tree: &Tree, node: usize) -> (r: Option<usize>)
        requires
            tree.wf(),
            tree.has_node(node),
        ensures
            tree.keys().contains(tree.key_at(node)),
            match r {
                Some(y) => tree.has_node(y) && tree.keys().contains(tree.key_at(y))
                    && tree.key_at(y) > tree.key_at(node) && forall|z: int|
                    tree.keys().contains(z) && z > tree.key_at(node) ==> z >= tree.key_at(y),
                None => forall|z: int| tree.keys().contains(z) ==> z <= tree.key_at(node),
            },
    {
        BstNode::tree_successor(tree, node)
    }

    /// Deletes the node holding `value` from the tree, if any: a key
    /// that is not present is silently ignored.  A non-root node with
    /// at most one child is cut out by a single transplant; otherwise
    /// - for a node with two children, and for the root whenever it
    /// has a right child - the node takes its in-order successor's
    /// key, and the successor, which has no left child, is
    /// transplanted out of the right subtree.  Deleting the root thus
    /// promotes its successor whenever one exists.
    #[verifier::spinoff_prover]
    #[verifier::rlimit(100)]
    pub fn tree_delete(tree: &mut Tree, value: i32)
        requires
            old(tree).wf(),
        ensures
            final(tree).wf(),
            final(tree).keys() == old(tree).keys().remove(value as int),
            !old(tree).keys().contains(value as int) ==> *final(tree) == *old(tree),
            // deleting the root promotes its in-order successor: the
            // root position keeps its slot and now holds the smallest
            // remaining key above the deleted one
            (match old(tree).root {
                Some(r) => old(tree).key_at(r) == value as int,
                None => false,
            }) && (exists|z: int| old(tree).keys().contains(z) && z > value as int)
                ==> match final(tree).root {
                Some(nr) => final(tree).has_node(nr) && old(tree).keys().contains(
                    final(tree).key_at(nr),
                ) && final(tree).key_at(nr) > value as int && forall|z: int|
                    old(tree).keys().contains(z) && z > value as int ==> z >= final(tree).key_at(
                        nr,
                    ),
                None => false,
            },
            // the reshaping is exactly one transplant step on the
            // descent path to the key: the node itself is cut out when
            // it lacks a right child or is a non-root with at most one
            // child; otherwise its in-order successor's key moves into
            // its position and the successor leaves the right subtree
            old(tree).keys().contains(value as int) ==> exists|p: Seq<usize>|
                #![auto]
                descent_path(*old(tree), p, value as int) && old(tree).key_at(p[p.len() - 1])
                    == value as int && (if old(tree).nodes@[p[p.len() - 1] as int].right is Some
                    && (old(tree).nodes@[p[p.len() - 1] as int].left is Some || old(tree).root
                        == Some(p[p.len() - 1])) {
                    exists|q: Seq<usize>, rs: Option<usize>|
                        #![auto]
                        left_spine(*old(tree), q) && old(tree).nodes@[p[p.len() - 1] as int].right
                            == Some(q[0]) && promote_state(*old(tree), *final(tree), p, q, rs)
                } else {
                    splice_state(
                        *old(tree),
                        *final(tree),
                        p,
                        (if old(tree).nodes@[p[p.len() - 1] as int].left is None {
                            old(tree).nodes@[p[p.len() - 1] as int].right
                        } else {
                            old(tree).nodes@[p[p.len() - 1] as int].left
                        }),
                    )
                }),
    {
        let ghost t0 = *tree;
        if tree.root.is_none() {
            proof {
                assert(tree.keys().remove(value as int) =~= tree.keys());
            }
            return;
        }
        let found = find_path(tree, value);
        let path: Vec<usize>;
        match found {
            None => {
                proof {
                    assert(t0.keys().remove(value as int) =~= t0.keys());
                    match t0.root {
                        Some(r) => {
                            assert(t0.node_ok(r));
                            assert(t0.keys().contains(t0.key_at(r)));
                        },
                        None => {},
                    }
                }
                return;
            },
            Some(pp) => {
                path = pp;
            },
        }
        let plen: usize = path.len();
        let d = path[plen - 1];
        proof {
            assert(t0.node_ok(d));
            assert(t0.node_ok(path@[0]));
            // a key held by the root is found at the root itself
            if plen >= 2 {
                assert((t0.nodes@[path@[0] as int].left == Some(path@[1]) && (value as int)
                    < t0.key_at(path@[0])) || (t0.nodes@[path@[0] as int].right == Some(path@[1])
                    && (value as int) > t0.key_at(path@[0])));
                assert(t0.key_at(path@[0]) != value as int);
            }
        }
        let dn = tree.nodes[d];
        let use_promote: bool = dn.right.is_some() && (dn.left.is_some() || dn.parent.is_none());
        if use_promote {
            delete_two_children(tree, &path);
            proof {
                assert(t0.root == Some(path@[0]));
                if plen == 1 {
                    // the deleted node was the root: the successor facts
                    // of the two-child step are exactly the promotion
                    assert(t0.keyset_at(d) == t0.keys());
                }
                assert(descent_path(t0, path@, value as int));
            }
        } else {
            transplant(tree, &path);
            proof {
                assert(t0.root == Some(path@[0]));
                // the root-promotion clause is vacuous here: either the
                // deleted node was not the root, or it had no key above
                // its own
                if t0.key_at(path@[0]) == value as int {
                    assert(plen == 1);
                    assert(d == path@[0]);
                    assert(t0.nodes@[d as int].right is None);
                    assert forall|z: int|
                        t0.keys().contains(z) implies z <= value as int by {
                        assert(z == t0.key_at(d) || t0.keyset_of(
                            t0.nodes@[d as int].left,
                        ).contains(z) || t0.keyset_of(t0.nodes@[d as int].right).contains(z));
                    }
                }
                assert(t0.nodes@[d as int].right is Some ==> t0.root != Some(d)) by {
                    if t0.nodes@[d as int].right is Some {
                        assert(t0.nodes@[d as int].left is None);
                        assert(t0.nodes@[d as int].parent is Some);
                    }
                }
                assert(descent_path(t0, path@, value as int));
            }
        }
    }

    /// Creates a new node holding `value` and installs it as the left
    /// child of `node`, setting its parent back-reference in the same
    /// step.  The slot must be empty, and `value` must belong exactly
    /// there: below the key of `node`, with no other key of the tree in
    /// between.  Requiring an empty slot is deliberate: overwriting a
    /// filled slot would silently orphan its subtree, which the tree's
    /// invariant rules out; a filled slot is cleared through
    /// [`Self::tree_delete`] before it can be reused.
    pub fn add_left_child(tree: &mut Tree, node: usize, value: i32)
        requires
            old(tree).wf(),
            old(tree).has_node(node),
            old(tree).nodes@[node as int].left is None,
            (value as int) < old(tree).key_at(node),
            forall|z: int|
                old(tree).keys().contains(z) ==> z >= old(tree).key_at(node) || z < value as int,
        ensures
            final(tree).wf(),
            final(tree).keys() == old(tree).keys().insert(value as int),
            final(tree).root == old(tree).root,
            final(tree).has_node(node),
            final(tree).nodes@.len() == old(tree).nodes@.len() + 1,
            final(tree).live@ == old(tree).live@.insert(old(tree).nodes@.len() as usize),
            final(tree).nodes@[node as int].left == Some(old(tree).nodes@.len() as usize),
            final(tree).nodes@[node as int].right == old(tree).nodes@[node as int].right,
            final(tree).has_node(old(tree).nodes@.len() as usize),
            final(tree).nodes@[old(tree).nodes@.len() as int].key == value,
            final(tree).nodes@[old(tree).nodes@.len() as int].parent == Some(node),
            final(tree).nodes@[old(tree).nodes@.len() as int].left is None,
            final(tree).nodes@[old(tree).nodes@.len() as int].right is None,
            forall|j: usize| #![trigger old(tree).live@.contains(j)]
                old(tree).live@.contains(j) ==> final(tree).nodes@[j as int].key == old(
                    tree,
                ).nodes@[j as int].key && final(tree).nodes@[j as int].parent == old(
                    tree,
                ).nodes@[j as int].parent,
            forall|j: usize| #![trigger old(tree).live@.contains(j)]
                old(tree).live@.contains(j) && j != node ==> final(tree).nodes@[j as int].left
                    == old(tree).nodes@[j as int].left && final(tree).nodes@[j as int].right
                    == old(tree).nodes@[j as int].right,
    {
        attach_new(tree, node, value, true);
    }

    /// Creates a new node holding `value` and installs it as the right
    /// child of `node`, setting its parent back-reference in the same
    /// step.  The slot must be empty, and `value` must belong exactly
    /// there: above the key of `node`, with no other key of the tree in
    /// between.  Requiring an empty slot is deliberate: overwriting a
    /// filled slot would silently orphan its subtree, which the tree's
    /// invariant rules out; a filled slot is cleared through
    /// [`Self::tree_delete`] before it can be reused.
    pub fn add_right_child(tree: &mut Tree, node: usize, value: i32)
        requires
            old(tree).wf(),
            old(tree).has_node(node),
            old(tree).nodes@[node as int].right is None,
            (value as int) > old(tree).key_at(node),
            forall|z: int|
                old(tree).keys().contains(z) ==> z <= old(tree).key_at(node) || z > value as int,
        ensures
            final(tree).wf(),
            final(tree).keys() == old(tree).keys().insert(value as int),
            final(tree).root == old(tree).root,
            final(tree).has_node(node),
            final(tree).nodes@.len() == old(tree).nodes@.len() + 1,
            final(tree).live@ == old(tree).live@.insert(old(tree).nodes@.len() as usize),
            final(tree).nodes@[node as int].right == Some(old(tree).nodes@.len() as usize),
            final(tree).nodes@[node as int].left == old(tree).nodes@[node as int].left,
            final(tree).has_node(old(tree).nodes@.len() as usize),
            final(tree).nodes@[old(tree).nodes@.len() as int].key == value,
            final(tree).nodes@[old(tree).nodes@.len() as int].parent == Some(node),
            final(tree).nodes@[old(tree).nodes@.len() as int].left is None,
            final(tree).nodes@[old(tree).nodes@.len() as int].right is None,
            forall|j: usize| #![trigger old(tree).live@.contains(j)]
                old(tree).live@.contains(j) ==> final(tree).nodes@[j as int].key == old(
                    tree,
                ).nodes@[j as int].key && final(tree).nodes@[j as int].parent == old(
                    tree,
                ).nodes@[j as int].parent,
            forall|j: usize| #![trigger old(tree).live@.contains(j)]
                old(tree).live@.contains(j) && j != node ==> final(tree).nodes@[j as int].left
                    == old(tree).nodes@[j as int].left && final(tree).nodes@[j as int].right
                    == old(tree).nodes@[j as int].right,
    {
        attach_new(tree, node, value, false);
    }

    /// Inserts `value` into the tree.  The entry node may be any node
    /// of the tree: the true root is resolved first through `get_root`,
    /// then a standard descent finds the one empty slot where the new
    /// key belongs and hangs a new node there.  Callers must rule out
    /// duplicate keys beforehand (see `tree_search`); on an emptied
    /// tree the new node becomes the root.
    pub fn tree_insert(tree: &mut Tree, node: usize, value: i32)
        requires
            old(tree).wf(),
            old(tree).has_node(node) || old(tree).root is None,
            !old(tree).keys().contains(value as int),
        ensures
            final(tree).wf(),
            final(tree).keys() == old(tree).keys().insert(value as int),
            old(tree).root is Some ==> final(tree).root == old(tree).root,
            old(tree).root is None ==> final(tree).root == Some(old(tree).nodes@.len() as usize),
            // the new key hangs as a fresh leaf in the slot it belongs
            // to, and nothing else moves
            final(tree).nodes@.len() == old(tree).nodes@.len() + 1,
            final(tree).live@ == old(tree).live@.insert(old(tree).nodes@.len() as usize),
            final(tree).nodes@[old(tree).nodes@.len() as int].key == value,
            final(tree).nodes@[old(tree).nodes@.len() as int].left is None,
            final(tree).nodes@[old(tree).nodes@.len() as int].right is None,
            forall|j: usize| #![trigger old(tree).live@.contains(j)]
                old(tree).live@.contains(j) ==> final(tree).nodes@[j as int].key == old(
                    tree,
                ).nodes@[j as int].key && final(tree).nodes@[j as int].parent == old(
                    tree,
                ).nodes@[j as int].parent,
            old(tree).root is Some ==> exists|at: usize|
                #![auto]
                old(tree).live@.contains(at) && final(tree).nodes@[old(
                    tree,
                ).nodes@.len() as int].parent == Some(at) && ((fits_slot(
                    *old(tree),
                    at,
                    value,
                    true,
                ) && final(tree).nodes@[at as int].left == Some(old(tree).nodes@.len() as usize)
                    && final(tree).nodes@[at as int].right == old(tree).nodes@[at as int].right) || (
                fits_slot(*old(tree), at, value, false) && final(tree).nodes@[at as int].right
                    == Some(old(tree).nodes@.len() as usize) && final(tree).nodes@[at as int].left
                    == old(tree).nodes@[at as int].left)) && forall|j: usize|
                    #![trigger old(tree).live@.contains(j)]
                    old(tree).live@.contains(j) && j != at ==> final(tree).nodes@[j as int].left
                        == old(tree).nodes@[j as int].left && final(tree).nodes@[j as int].right
                        == old(tree).nodes@[j as int].right,
            old(tree).root is None ==> final(tree).nodes@[old(tree).nodes@.len() as int].parent
                is None,
    {
        if tree.root.is_none() {
            let m: usize = tree.nodes.len();
            tree.nodes.push(
                BstNode {
                    key: value,
                    parent: None,
                    left: None,
                    right: None,
                    keyset: Ghost(Set::empty().insert(value as int)),
                },
            );
            tree.root = Some(m);
            tree.live = Ghost(tree.live@.insert(m));
            proof {
                assert(!old(tree).live@.contains(m));
                assert(tree.live@.len() == old(tree).live@.len() + 1);
                assert forall|j: usize| tree.live@.contains(j) implies tree.node_ok(j) by {
                    if j == m {
                        assert(tree.nodes@[j as int].keyset@ =~= tree.keyset_of(
                            tree.nodes@[j as int].left,
                        ).union(tree.keyset_of(tree.nodes@[j as int].right)).insert(
                            tree.nodes@[j as int].key as int,
                        ));
                    } else {
                        assert(old(tree).live@.contains(j));
                        assert(old(tree).node_ok(j));
                        assert((j as int) < old(tree).nodes@.len());
                        assert(tree.nodes@[j as int] == old(tree).nodes@[j as int]);
                    }
                }
                assert(tree.keys() == old(tree).keys().insert(value as int)) by {
                    assert(tree.keys() =~= old(tree).keys().insert(value as int));
                }
            }
            return;
        }
        let r = BstNode::get_root(tree, node);
        let mut cur: usize = r;
        loop
            invariant
                *tree == *old(tree),
                tree.wf(),
                tree.has_node(cur),
                !tree.keys().contains(value as int),
                tree.keyset_at(cur).subset_of(tree.keys()),
                forall|z: int, w: int|
                    #![trigger tree.keys().contains(z), tree.keyset_at(cur).contains(w)]
                    tree.keys().contains(z) && !tree.keyset_at(cur).contains(z)
                        && tree.keyset_at(cur).contains(w) ==> (z < value as int && z < w) || (z
                        > value as int && z > w),
            decreases tree.keyset_at(cur).len(),
        {
            proof {
                assert(tree.node_ok(cur));
                assert(tree.keyset_at(cur).contains(tree.key_at(cur)));
            }
            let nd = tree.nodes[cur];
            if value < nd.key {
                match nd.left {
                    Some(l) => {
                        proof {
                            lemma_child_keyset(*tree, cur, l);
                            assert forall|z: int, w: int|
                                #![trigger tree.keys().contains(z), tree.keyset_at(l).contains(w)]
                                tree.keys().contains(z) && !tree.keyset_at(l).contains(z)
                                    && tree.keyset_at(l).contains(w) implies (z < value as int && z
                                < w) || (z > value as int && z > w) by {
                                assert(tree.keyset_at(cur).contains(w));
                                if tree.keyset_at(cur).contains(z) {
                                    assert(z == tree.key_at(cur) || tree.keyset_of(
                                        tree.nodes@[cur as int].right,
                                    ).contains(z));
                                    assert(z >= tree.key_at(cur));
                                    assert(w < tree.key_at(cur));
                                }
                            }
                        }
                        cur = l;
                    },
                    None => {
                        proof {
                            assert forall|z: int| tree.keys().contains(z) implies z >= tree.key_at(
                                cur,
                            ) || z < value as int by {
                                if tree.keyset_at(cur).contains(z) {
                                    assert(z == tree.key_at(cur) || tree.keyset_of(
                                        tree.nodes@[cur as int].right,
                                    ).contains(z));
                                } else {
                                    assert(tree.keyset_at(cur).contains(tree.key_at(cur)));
                                }
                            }
                            assert(fits_slot(*tree, cur, value, true));
                        }
                        attach_new(tree, cur, value, true);
                        return;
                    },
                }
            } else {
                proof {
                    assert(value as int != tree.key_at(cur));
                }
                match nd.right {
                    Some(rt) => {
                        proof {
                            lemma_child_keyset(*tree, cur, rt);
                            assert forall|z: int, w: int|
                                #![trigger tree.keys().contains(z), tree.keyset_at(rt).contains(w)]
                                tree.keys().contains(z) && !tree.keyset_at(rt).contains(z)
                                    && tree.keyset_at(rt).contains(w) implies (z < value as int && z
                                < w) || (z > value as int && z > w) by {
                                assert(tree.keyset_at(cur).contains(w));
                                if tree.keyset_at(cur).contains(z) {
                                    assert(z == tree.key_at(cur) || tree.keyset_of(
                                        tree.nodes@[cur as int].left,
                                    ).contains(z));
                                    assert(z <= tree.key_at(cur));
                                    assert(w > tree.key_at(cur));
                                }
                            }
                        }
                        cur = rt;
                    },
                    None => {
                        proof {
                            assert forall|z: int| tree.keys().contains(z) implies z <= tree.key_at(
                                cur,
                            ) || z > value as int by {
                                if tree.keyset_at(cur).contains(z) {
                                    assert(z == tree.key_at(cur) || tree.keyset_of(
                                        tree.nodes@[cur as int].left,
                                    ).contains(z));
                                } else {
                                    assert(tree.keyset_at(cur).contains(tree.key_at(cur)));
                                }
                            }
                            assert(fits_slot(*tree, cur, value, false));
                        }
                        attach_new(tree, cur, value, false);
                        return;
                    },
                }
            }
        }
    }

}

impl Tree {
    /// The key held by the node at slot `i`.
    pub fn key_of(&self, i: usize) -> (k: i32)
        requires
            self.wf(),
            self.has_node(i),
        ensures
            k as int == self.key_at(i),
    {
        self.nodes[i].key
    }

    /// The left child link of the node at slot `i`.
    pub fn left_of(&self, i: usize) -> (l: Option<usize>)
        requires
            self.wf(),
            self.has_node(i),
        ensures
            l == self.nodes@[i as int].left,
            match l {
                Some(c) => self.has_node(c),
                None => true,
            },
    {
        proof {
            assert(self.node_ok(i));
        }
        self.nodes[i].left
    }

    /// The right child link of the node at slot `i`.
    pub fn right_of(&self, i: usize) -> (r: Option<usize>)
        requires
            self.wf(),
            self.has_node(i),
        ensures
            r == self.nodes@[i as int].right,
            match r {
                Some(c) => self.has_node(c),
                None => true,
            },
    {
        proof {
            assert(self.node_ok(i));
        }
        self.nodes[i].right
    }

    /// The parent back-reference of the node at slot `i`.
    pub fn parent_of(&self, i: usize) -> (p: Option<usize>)
        requires
            self.wf(),
            self.has_node(i),
        ensures
            p == self.nodes@[i as int].parent,
            match p {
                Some(c) => self.has_node(c),
                None => true,
            },
    {
        proof {
            assert(self.node_ok(i));
        }
        self.nodes[i].parent
    }

    /// The slot of the root node, if the tree holds any node.
    pub fn root_of(&self) -> (r: Option<usize>)
        requires
            self.wf(),
        ensures
            r == self.root,
            match r {
                Some(c) => self.has_node(c),
                None => true,
            },
    {
        self.root
    }

    /// Collects the keys of the whole tree in in-order: the result is
    /// strictly increasing and holds exactly the keys of the tree.
    pub fn inorder(&self) -> (out: Vec<i32>)
        requires
            self.wf(),
        ensures
            forall|a: int| 0 <= a < out@.len() ==> self.keys().contains(#[trigger] out@[a] as int),
            forall|z: int|
                self.keys().contains(z) ==> exists|a: int|
                    0 <= a < out@.len() && #[trigger] out@[a] as int == z,
            forall|a: int, b: int| 0 <= a < b < out@.len() ==> out@[a] < out@[b],
    {
        let mut out: Vec<i32> = Vec::new();
        match self.root {
            Some(r) => {
                inorder_at(self, r, &mut out);
                proof {
                    assert(self.keys() == self.keyset_at(r));
                    assert forall|z: int| self.keys().contains(z) implies exists|a: int|
                        0 <= a < out@.len() && #[trigger] out@[a] as int == z by {
                        assert(self.keyset_at(r).contains(z));
                    }
                }
            },
            None => {},
        }
        out
    }
}

/// Appends the keys of the subtree at `i` to `out` in in-order: the
/// appended block is strictly increasing and holds exactly that
/// subtree's keys.
#[verifier::rlimit(60)]
fn inorder_at(tree: &Tree, i: usize, out: &mut Vec<i32>)
    requires
        tree.wf(),
        tree.has_node(i),
    ensures
        final(out)@.len() >= old(out)@.len(),
        forall|a: int| 0 <= a < old(out)@.len() ==> final(out)@[a] == old(out)@[a],
        forall|a: int|
            old(out)@.len() <= a < final(out)@.len() ==> tree.keyset_at(i).contains(
                #[trigger] final(out)@[a] as int,
            ),
        forall|z: int|
            tree.keyset_at(i).contains(z) ==> exists|a: int|
                old(out)@.len() <= a < final(out)@.len() && #[trigger] final(out)@[a] as int == z,
        forall|a: int, b: int|
            old(out)@.len() <= a < b < final(out)@.len() ==> final(out)@[a] < final(out)@[b],
    decreases tree.keyset_at(i).len(),
{
    proof {
        assert(tree.node_ok(i));
    }
    let ghost n0 = out@.len() as int;
    let nd = tree.nodes[i];
    match nd.left {
        Some(l) => {
            proof {
                lemma_child_keyset(*tree, i, l);
            }
            inorder_at(tree, l, out);
        },
        None => {},
    }
    let ghost n1 = out@.len() as int;
    let ghost seq1 = out@;
    out.push(nd.key);
    match nd.right {
        Some(r) => {
            proof {
                lemma_child_keyset(*tree, i, r);
            }
            inorder_at(tree, r, out);
        },
        None => {},
    }
    proof {
        let fin = out@;
        let ks = tree.keyset_at(i);
        assert(fin[n1] == nd.key);
        // membership of every new element
        assert forall|a: int| n0 <= a < fin.len() implies ks.contains(
            #[trigger] fin[a] as int,
        ) by {
            if a < n1 {
                assert(tree.keyset_of(nd.left).contains(fin[a] as int));
            } else if a == n1 {
            } else {
                assert(tree.keyset_of(nd.right).contains(fin[a] as int));
            }
        }
        // every key of the subtree appears
        assert forall|z: int| ks.contains(z) implies exists|a: int|
            n0 <= a < fin.len() && #[trigger] fin[a] as int == z by {
            if z == nd.key as int {
                assert(fin[n1] as int == z);
            } else if tree.keyset_of(nd.left).contains(z) {
                let a = choose|a: int| n0 <= a < n1 && #[trigger] seq1[a] as int == z;
                assert(fin[a] == seq1[a]);
                assert(fin[a] as int == z);
            } else {
                assert(tree.keyset_of(nd.right).contains(z));
                let a = choose|a: int|
                    n1 + 1 <= a < fin.len() && #[trigger] fin[a] as int == z;
                assert(fin[a] as int == z);
            }
        }
        // strict order across the three blocks
        assert forall|a: int, b: int| n0 <= a < b < fin.len() implies fin[a] < fin[b] by {
            if b <= n1 - 1 {
            } else if a >= n1 + 1 {
            } else if a < n1 && b == n1 {
                assert(tree.keyset_of(nd.left).contains(fin[a] as int));
            } else if a == n1 && b > n1 {
                assert(tree.keyset_of(nd.right).contains(fin[b] as int));
            } else {
                assert(a < n1 && b > n1);
                assert(tree.keyset_of(nd.left).contains(fin[a] as int));
                assert(tree.keyset_of(nd.right).contains(fin[b] as int));
            }
        }
    }
}

/// The parent chain of `x`: the node itself, then its ancestors in
/// order, ending at the node without a parent.
pub open spec fn chain(t: Tree, x: usize) -> Seq<usize>
    decreases t.live@.len() - t.keyset_at(x).len()
        when t.wf() && t.live@.contains(x)
        via chain_decreases
{
    match t.nodes@[x as int].parent {
        None => seq![x],
        Some(p) => seq![x] + chain(t, p),
    }
}

#[via_fn]
proof fn chain_decreases(t: Tree, x: usize) {
    match t.nodes@[x as int].parent {
        Some(p) => {
            assert(t.node_ok(x));
            assert(t.node_ok(p));
            lemma_child_keyset(t, p, x);
        },
        None => {},
    }
}

/// What the parent chain of a node provides: it starts at the node,
/// each entry's parent is the next one, every entry belongs to the
/// tree, and the chain ends at the root.
pub proof fn lemma_chain_facts(t: Tree, x: usize)
    requires
        t.wf(),
        t.live@.contains(x),
    ensures
        chain(t, x).len() >= 1,
        chain(t, x)[0] == x,
        t.root == Some(chain(t, x)[chain(t, x).len() - 1]),
        forall|s: int| 0 <= s < chain(t, x).len() ==> t.live@.contains(#[trigger] chain(t, x)[s]),
        forall|s: int|
            0 <= s < chain(t, x).len() - 1 ==> t.nodes@[#[trigger] chain(t, x)[s] as int].parent
                == Some(chain(t, x)[s + 1]),
    decreases t.live@.len() - t.keyset_at(x).len(),
{
    assert(t.node_ok(x));
    let ch = chain(t, x);
    match t.nodes@[x as int].parent {
        None => {
            assert(ch =~= seq![x]);
        },
        Some(p) => {
            lemma_child_keyset(t, p, x);
            lemma_chain_facts(t, p);
            let cp = chain(t, p);
            assert(ch =~= seq![x] + cp);
            assert(ch.len() == 1 + cp.len());
            assert forall|s: int| 0 <= s < ch.len() implies t.live@.contains(
                #[trigger] ch[s],
            ) by {
                if s >= 1 {
                    assert(ch[s] == cp[s - 1]);
                }
            }
            assert forall|s: int| 0 <= s < ch.len() - 1 implies t.nodes@[#[trigger] ch[s]
                as int].parent == Some(ch[s + 1]) by {
                if s == 0 {
                    assert(ch[0] == x && ch[1] == cp[0]);
                    assert(cp[0] == p);
                } else {
                    assert(ch[s] == cp[s - 1] && ch[s + 1] == cp[s]);
                }
            }
            assert(ch[ch.len() - 1] == cp[cp.len() - 1]);
        },
    }
}

/// The pair `e` names a real edge of the tree: a node of the tree and
/// one of its children, as their keys, parent first.
pub open spec fn is_edge(t: Tree, e: (i32, i32)) -> bool {
    exists|x: usize, c: usize|
        #![trigger t.nodes@[x as int], t.nodes@[c as int]]
        t.has_node(x) && t.has_node(c) && (t.nodes@[x as int].left == Some(c) || t.nodes@[x
            as int].right == Some(c)) && e == (t.nodes@[x as int].key, t.nodes@[c as int].key)
}

/// Lists every parent-child edge of the tree as a pair of keys,
/// parent first, walking from the root: each listed pair is a real
/// edge of the tree, and every edge of the tree is listed.
pub fn tree_edges(tree: &Tree) -> (out: Vec<(i32, i32)>)
    requires
        tree.wf(),
    ensures
        forall|a: int| 0 <= a < out@.len() ==> is_edge(*tree, #[trigger] out@[a]),
        forall|x: usize, c: usize|
            #![trigger tree.nodes@[x as int], tree.nodes@[c as int]]
            tree.live@.contains(x) && (tree.nodes@[x as int].left == Some(c)
                || tree.nodes@[x as int].right == Some(c)) ==> out@.contains(
                (tree.nodes@[x as int].key, tree.nodes@[c as int].key),
            ),
{
    let mut out: Vec<(i32, i32)> = Vec::new();
    match tree.root {
        Some(r) => {
            edges_at(tree, r, &mut out);
            proof {
                assert forall|x: usize, c: usize|
                    tree.live@.contains(x) && (tree.nodes@[x as int].left == Some(c)
                        || tree.nodes@[x as int].right == Some(c)) implies out@.contains(
                    (tree.nodes@[x as int].key, tree.nodes@[c as int].key),
                ) by {
                    lemma_chain_facts(*tree, x);
                    let ch = chain(*tree, x);
                    assert(ch[ch.len() - 1] == r);
                    assert(ch.contains(r));
                }
            }
        },
        None => {
            proof {
                assert forall|x: usize, c: usize|
                    tree.live@.contains(x) && (tree.nodes@[x as int].left == Some(c)
                        || tree.nodes@[x as int].right == Some(c)) implies out@.contains(
                    (tree.nodes@[x as int].key, tree.nodes@[c as int].key),
                ) by {
                    lemma_chain_facts(*tree, x);
                }
            }
        },
    }
    out
}

/// Appends the edges of the subtree at `i` to `out`, parents first:
/// the appended pairs are real edges, and they cover every edge whose
/// parent node has `i` on its parent chain.
#[verifier::spinoff_prover]
#[verifier::rlimit(100)]
fn edges_at(tree: &Tree, i: usize, out: &mut Vec<(i32, i32)>)
    requires
        tree.wf(),
        tree.has_node(i),
    ensures
        final(out)@.len() >= old(out)@.len(),
        forall|a: int| 0 <= a < old(out)@.len() ==> final(out)@[a] == old(out)@[a],
        forall|a: int|
            old(out)@.len() <= a < final(out)@.len() ==> is_edge(*tree, #[trigger] final(out)@[a]),
        forall|x: usize, c: usize|
            #![trigger tree.nodes@[x as int], tree.nodes@[c as int]]
            tree.live@.contains(x) && (tree.nodes@[x as int].left == Some(c)
                || tree.nodes@[x as int].right == Some(c)) && chain(*tree, x).contains(i)
                ==> final(out)@.contains(
                (tree.nodes@[x as int].key, tree.nodes@[c as int].key),
            ),
    decreases tree.keyset_at(i).len(),
{
    proof {
        assert(tree.node_ok(i));
    }
    let ghost n0 = out@.len() as int;
    let nd = tree.nodes[i];
    match nd.left {
        Some(l) => {
            proof {
                lemma_child_keyset(*tree, i, l);
            }
            let cl = tree.nodes[l];
            out.push((nd.key, cl.key));
            proof {
                assert(tree.has_node(i) && tree.has_node(l) && tree.nodes@[i as int].left == Some(
                    l,
                ) && (nd.key, cl.key) == (tree.nodes@[i as int].key, tree.nodes@[l as int].key));
                assert(is_edge(*tree, (nd.key, cl.key)));
            }
            edges_at(tree, l, out);
        },
        None => {},
    }
    let ghost seq_l = out@;
    match nd.right {
        Some(r) => {
            proof {
                lemma_child_keyset(*tree, i, r);
            }
            let cr = tree.nodes[r];
            out.push((nd.key, cr.key));
            proof {
                assert(tree.has_node(i) && tree.has_node(r) && tree.nodes@[i as int].right == Some(
                    r,
                ) && (nd.key, cr.key) == (tree.nodes@[i as int].key, tree.nodes@[r as int].key));
                assert(is_edge(*tree, (nd.key, cr.key)));
            }
            edges_at(tree, r, out);
        },
        None => {},
    }
    proof {
        let fin = out@;
        assert forall|x: usize, c: usize|
            tree.live@.contains(x) && (tree.nodes@[x as int].left == Some(c)
                || tree.nodes@[x as int].right == Some(c)) && chain(*tree, x).contains(
                i,
            ) implies fin.contains((tree.nodes@[x as int].key, tree.nodes@[c as int].key)) by {
            let pair = (tree.nodes@[x as int].key, tree.nodes@[c as int].key);
            lemma_chain_facts(*tree, x);
            let ch = chain(*tree, x);
            if x == i {
                if nd.left == Some(c) {
                    assert(fin[n0] == pair);
                    assert(fin.contains(pair));
                } else {
                    assert(nd.right == Some(c));
                    assert(fin[seq_l.len() as int] == pair);
                    assert(fin.contains(pair));
                }
            } else {
                let q = choose|q: int| 0 <= q < ch.len() && ch[q] == i;
                assert(ch[0] == x);
                assert(q >= 1);
                let w = ch[q - 1];
                assert(tree.nodes@[w as int].parent == Some(i));
                assert(tree.live@.contains(w));
                assert(tree.node_ok(w));
                assert(nd.left == Some(w) || nd.right == Some(w));
                assert(ch.contains(w)) by {
                    assert(ch[q - 1] == w);
                }
                if nd.left == Some(w) {
                    assert(seq_l.contains(pair));
                    let a = choose|a: int| 0 <= a < seq_l.len() && seq_l[a] == pair;
                    assert(fin[a] == seq_l[a]);
                    assert(fin.contains(pair));
                } else {
                    assert(nd.right == Some(w));
                    assert(fin.contains(pair));
                }
            }
        }
    }
}

} // verus!
