//! A plain binary tree without an ordering rule: nodes hold a value,
//! owning links to their children and a non-owning back-reference to
//! their parent, in the same index-addressed arena style as the search
//! tree.  It offers construction, linking, sibling lookup and node
//! counting; the search tree in [`crate::bst`] is the ordered
//! structure with the full operations.

use vstd::prelude::*;

verus! {

/// One node of the plain binary tree.
#[derive(Clone, Copy)]
pub struct Node {
    pub value: i32,
    pub parent: Option<usize>,
    pub left: Option<usize>,
    pub right: Option<usize>,
    /// Ghost: the number of nodes in the subtree rooted at this node.
    pub size: Ghost<nat>,
    /// Ghost: the depth of the deepest node below this one, with 0 for
    /// a leaf.
    pub height: Ghost<int>,
}

/// The plain binary tree: the arena, the index of the root and the
/// ghost set of indices that belong to the tree.
pub struct BinaryTree {
    pub nodes: Vec<Node>,
    pub root: Option<usize>,
    pub live: Ghost<Set<usize>>,
}

impl BinaryTree {
    /// The slot `i` holds a node that belongs to the tree.
    pub open spec fn has_node(self, i: usize) -> bool {
        self.live@.contains(i)
    }

    /// The value held at slot `i`.
    pub open spec fn value_at(self, i: usize) -> int {
        self.nodes@[i as int].value as int
    }

    /// The number of nodes in the subtree rooted at slot `i`.
    pub open spec fn size_at(self, i: usize) -> int {
        self.nodes@[i as int].size@ as int
    }

    /// The size of the subtree hanging off an optional child link.
    pub open spec fn size_of(self, c: Option<usize>) -> int {
        match c {
            Some(j) => self.nodes@[j as int].size@ as int,
            None => 0,
        }
    }

    /// The height of the subtree rooted at slot `i`: 0 for a leaf.
    pub open spec fn height_at(self, i: usize) -> int {
        self.nodes@[i as int].height@
    }

    /// The height of the subtree hanging off an optional child link,
    /// with -1 for an absent child.
    pub open spec fn height_of(self, c: Option<usize>) -> int {
        match c {
            Some(j) => self.nodes@[j as int].height@,
            None => -1,
        }
    }

    /// The local well-formedness of the node at slot `i`: its links
    /// point at nodes of the tree and are mirrored by their parent
    /// back-references, the only node without a parent is the root,
    /// no slot links to itself or holds both children in one node, and
    /// its ghost size counts itself plus both children's subtrees.
    pub open spec fn node_ok(self, i: usize) -> bool {
        let nd = self.nodes@[i as int];
        &&& (nd.parent is None <==> self.root == Some(i))
        &&& match nd.parent {
            Some(p) => self.live@.contains(p) && (self.nodes@[p as int].left == Some(i)
                || self.nodes@[p as int].right == Some(i)),
            None => true,
        }
        &&& match nd.left {
            Some(l) => self.live@.contains(l) && self.nodes@[l as int].parent == Some(i) && l != i,
            None => true,
        }
        &&& match nd.right {
            Some(r) => self.live@.contains(r) && self.nodes@[r as int].parent == Some(i) && r != i,
            None => true,
        }
        &&& (nd.left is Some ==> nd.left != nd.right)
        &&& nd.size@ == 1 + self.size_of(nd.left) + self.size_of(nd.right)
        &&& nd.size@ <= self.live@.len()
        &&& nd.height@ == 1 + (if self.height_of(nd.left) >= self.height_of(nd.right) {
            self.height_of(nd.left)
        } else {
            self.height_of(nd.right)
        })
    }

    /// The whole tree is well formed: the invariant every operation
    /// preserves.
    pub open spec fn wf(self) -> bool {
        &&& self.live@.finite()
        &&& forall|i: usize| #[trigger] self.live@.contains(i) ==> (i as int) < self.nodes@.len()
        &&& match self.root {
            Some(r) => self.live@.contains(r),
            None => true,
        }
        &&& forall|i: usize| #[trigger] self.live@.contains(i) ==> self.node_ok(i)
    }

    /// The value held by the node at slot `i`.
    pub fn value_of(&self, i: usize) -> (v: i32)
        requires
            self.wf(),
            self.has_node(i),
        ensures
            v as int == self.value_at(i),
    {
        self.nodes[i].value
    }
}

/// The chain of parent back-references from `p[0]` up to the root
/// `p[p.len() - 1]`: sizes grow strictly along the chain, so the
/// entries are pairwise distinct.
pub open spec fn up_path(t: BinaryTree, p: Seq<usize>) -> bool {
    &&& p.len() >= 1
    &&& forall|s: int| 0 <= s < p.len() ==> t.live@.contains(#[trigger] p[s])
    &&& forall|s: int|
        0 <= s < p.len() - 1 ==> t.nodes@[#[trigger] p[s] as int].parent == Some(p[s + 1])
    &&& t.root == Some(p[p.len() - 1])
    &&& forall|s: int, u: int|
        0 <= s < u < p.len() ==> t.nodes@[#[trigger] p[s] as int].size@ < t.nodes@[
            #[trigger] p[u] as int
        ].size@
}

/// A child's subtree is strictly smaller than its parent's.
proof fn lemma_child_size(t: BinaryTree, i: usize, c: usize)
    requires
        t.wf(),
        t.has_node(i),
        t.nodes@[i as int].left == Some(c) || t.nodes@[i as int].right == Some(c),
    ensures
        t.has_node(c),
        t.size_at(c) < t.size_at(i),
        t.size_at(c) >= 1,
{
    assert(t.node_ok(i));
    assert(t.node_ok(c));
}

/// Collects the parent chain from `node` up to the root.
#[verifier::rlimit(60)]
fn climb_to_root(tree: &BinaryTree, node: usize) -> (path: Vec<usize>)
    requires
        tree.wf(),
        tree.has_node(node),
    ensures
        up_path(*tree, path@),
        path@[0] == node,
{
    let mut path: Vec<usize> = Vec::new();
    let mut cur: usize = node;
    path.push(node);
    loop
        invariant
            tree.wf(),
            tree.has_node(cur),
            path@.len() >= 1,
            path@[0] == node,
            path@[path@.len() - 1] == cur,
            forall|s: int| 0 <= s < path@.len() ==> tree.live@.contains(#[trigger] path@[s]),
            forall|s: int|
                0 <= s < path@.len() - 1 ==> tree.nodes@[#[trigger] path@[s] as int].parent
                    == Some(path@[s + 1]),
            forall|s: int, u: int|
                0 <= s < u < path@.len() ==> tree.nodes@[#[trigger] path@[s] as int].size@
                    < tree.nodes@[#[trigger] path@[u] as int].size@,
        decreases tree.live@.len() - tree.nodes@[cur as int].size@,
    {
        proof {
            assert(tree.node_ok(cur));
        }
        let nd = tree.nodes[cur];
        match nd.parent {
            None => {
                return path;
            },
            Some(p) => {
                proof {
                    assert(tree.node_ok(p));
                    lemma_child_size(*tree, p, cur);
                }
                path.push(p);
                cur = p;
            },
        }
    }
}

/// If a child of `j` appears on an upward path, then the next entry of
/// the path is `j` itself.
proof fn lemma_up_child(t: BinaryTree, p: Seq<usize>, j: usize, oc: usize)
    requires
        t.wf(),
        up_path(t, p),
        t.live@.contains(j),
        t.nodes@[j as int].left == Some(oc) || t.nodes@[j as int].right == Some(oc),
    ensures
        forall|q: int|
            0 <= q < p.len() && #[trigger] p[q] == oc ==> q < p.len() - 1 && p[q + 1] == j,
{
    assert(t.node_ok(j));
    assert(t.node_ok(oc));
    assert(t.nodes@[oc as int].parent == Some(j));
    assert forall|q: int| 0 <= q < p.len() && #[trigger] p[q] == oc implies q < p.len() - 1 && p[q
        + 1] == j by {
        if q == p.len() - 1 {
            assert(t.root == Some(oc));
            assert(t.nodes@[oc as int].parent is None);
        } else {
            assert(t.nodes@[p[q] as int].parent == Some(p[q + 1]));
        }
    }
}

/// A child of the path entry `p[s]` other than `p[s - 1]` appears
/// nowhere on the path.
proof fn lemma_up_other_child(t: BinaryTree, p: Seq<usize>, s: int, oc: usize)
    requires
        t.wf(),
        up_path(t, p),
        0 <= s < p.len(),
        t.nodes@[p[s] as int].left == Some(oc) || t.nodes@[p[s] as int].right == Some(oc),
        s == 0 || p[s - 1] != oc,
    ensures
        forall|q: int| 0 <= q < p.len() ==> #[trigger] p[q] != oc,
{
    let j = p[s];
    lemma_up_child(t, p, j, oc);
    assert forall|q: int| 0 <= q < p.len() implies #[trigger] p[q] != oc by {
        if p[q] == oc {
            assert(q < p.len() - 1 && p[q + 1] == j);
            if q + 1 < s {
                assert(t.nodes@[p[q + 1] as int].size@ < t.nodes@[p[s] as int].size@);
            }
            if s < q + 1 {
                assert(t.nodes@[p[s] as int].size@ < t.nodes@[p[q + 1] as int].size@);
            }
            assert(q + 1 == s);
            assert(p[q] == p[s - 1]);
        }
    }
}

/// A child of a node that lies off the path appears nowhere on the
/// path.
proof fn lemma_up_child_off(t: BinaryTree, p: Seq<usize>, j: usize, oc: usize)
    requires
        t.wf(),
        up_path(t, p),
        t.live@.contains(j),
        t.nodes@[j as int].left == Some(oc) || t.nodes@[j as int].right == Some(oc),
        forall|s: int| 0 <= s < p.len() ==> #[trigger] p[s] != j,
    ensures
        forall|q: int| 0 <= q < p.len() ==> #[trigger] p[q] != oc,
{
    lemma_up_child(t, p, j, oc);
    assert forall|q: int| 0 <= q < p.len() implies #[trigger] p[q] != oc by {
        if p[q] == oc {
            assert(q < p.len() - 1 && p[q + 1] == j);
        }
    }
}

/// Grows the tree by one node holding `value`, hung on the empty left
/// (`to_left`) or right slot of `node`, with the parent back-reference
/// set in the same step; every subtree on the way to the root grows by
/// one node.
#[verifier::spinoff_prover]
#[verifier::rlimit(100)]
fn attach_node(tree: &mut BinaryTree, node: usize, value: i32, to_left: bool)
    requires
        old(tree).wf(),
        old(tree).has_node(node),
        to_left ==> old(tree).nodes@[node as int].left is None,
        !to_left ==> old(tree).nodes@[node as int].right is None,
    ensures
        final(tree).wf(),
        final(tree).root == old(tree).root,
        final(tree).nodes@.len() == old(tree).nodes@.len() + 1,
        final(tree).live@ == old(tree).live@.insert(old(tree).nodes@.len() as usize),
        final(tree).nodes@[old(tree).nodes@.len() as int].value == value,
        final(tree).nodes@[old(tree).nodes@.len() as int].parent == Some(node),
        final(tree).nodes@[old(tree).nodes@.len() as int].left is None,
        final(tree).nodes@[old(tree).nodes@.len() as int].right is None,
        to_left ==> final(tree).nodes@[node as int].left == Some(old(tree).nodes@.len() as usize)
            && final(tree).nodes@[node as int].right == old(tree).nodes@[node as int].right,
        !to_left ==> final(tree).nodes@[node as int].right == Some(
            old(tree).nodes@.len() as usize,
        ) && final(tree).nodes@[node as int].left == old(tree).nodes@[node as int].left,
        forall|j: usize| #![trigger old(tree).live@.contains(j)]
            old(tree).live@.contains(j) ==> final(tree).nodes@[j as int].value == old(
                tree,
            ).nodes@[j as int].value && final(tree).nodes@[j as int].parent == old(
                tree,
            ).nodes@[j as int].parent,
        forall|j: usize| #![trigger old(tree).live@.contains(j)]
            old(tree).live@.contains(j) && j != node ==> final(tree).nodes@[j as int].left == old(
                tree,
            ).nodes@[j as int].left && final(tree).nodes@[j as int].right == old(
                tree,
            ).nodes@[j as int].right,
        final(tree).size_at(node) == old(tree).size_at(node) + 1,
        match old(tree).root {
            Some(r) => final(tree).size_at(r) == old(tree).size_at(r) + 1,
            None => true,
        },
        final(tree).height_at(node) == 1 + (if to_left {
            if old(tree).height_of(old(tree).nodes@[node as int].right) >= 0 {
                old(tree).height_of(old(tree).nodes@[node as int].right)
            } else {
                0
            }
        } else {
            if old(tree).height_of(old(tree).nodes@[node as int].left) >= 0 {
                old(tree).height_of(old(tree).nodes@[node as int].left)
            } else {
                0
            }
        }),
{
    let ghost t0 = *tree;
    let path = climb_to_root(tree, node);
    let m: usize = tree.nodes.len();
    proof {
        assert(!t0.live@.contains(m));
    }
    tree.nodes.push(
        Node {
            value,
            parent: Some(node),
            left: None,
            right: None,
            size: Ghost(1nat),
            height: Ghost(0int),
        },
    );
    let mut nd = tree.nodes[node];
    if to_left {
        nd.left = Some(m);
    } else {
        nd.right = Some(m);
    }
    tree.nodes.set(node, nd);
    tree.live = Ghost(tree.live@.insert(m));
    let mut idx: usize = 0;
    while idx < path.len()
        invariant
            t0 == *old(tree),
            t0.wf(),
            up_path(t0, path@),
            path@[0] == node,
            t0.live@.contains(node),
            m as int == t0.nodes@.len(),
            !t0.live@.contains(m),
            idx <= path@.len(),
            tree.nodes@.len() == t0.nodes@.len() + 1,
            tree.root == t0.root,
            tree.live@ == t0.live@.insert(m),
            tree.nodes@[m as int].value == value,
            tree.nodes@[m as int].parent == Some(node),
            tree.nodes@[m as int].left is None,
            tree.nodes@[m as int].right is None,
            tree.nodes@[m as int].size@ == 1,
            tree.nodes@[m as int].height@ == 0,
            forall|j: usize| #![trigger t0.live@.contains(j)]
                t0.live@.contains(j) ==> tree.nodes@[j as int].value == t0.nodes@[j as int].value
                    && tree.nodes@[j as int].parent == t0.nodes@[j as int].parent,
            forall|j: usize| #![trigger t0.live@.contains(j)]
                t0.live@.contains(j) && j != node ==> tree.nodes@[j as int].left == t0.nodes@[j
                    as int].left && tree.nodes@[j as int].right == t0.nodes@[j as int].right,
            to_left ==> tree.nodes@[node as int].left == Some(m) && tree.nodes@[node as int].right
                == t0.nodes@[node as int].right,
            !to_left ==> tree.nodes@[node as int].right == Some(m) && tree.nodes@[node
                as int].left == t0.nodes@[node as int].left,
            forall|s: int|
                0 <= s < idx ==> tree.nodes@[#[trigger] path@[s] as int].size@ == t0.nodes@[path@[s]
                    as int].size@ + 1,
            forall|s: int|
                0 <= s < idx ==> tree.nodes@[#[trigger] path@[s] as int].height@ == 1 + (
                if tree.height_of(tree.nodes@[path@[s] as int].left) >= tree.height_of(
                    tree.nodes@[path@[s] as int].right,
                ) {
                    tree.height_of(tree.nodes@[path@[s] as int].left)
                } else {
                    tree.height_of(tree.nodes@[path@[s] as int].right)
                }),
            forall|s: int|
                idx <= s < path@.len() ==> tree.nodes@[#[trigger] path@[s] as int].size@
                    == t0.nodes@[path@[s] as int].size@ && tree.nodes@[#[trigger] path@[s]
                    as int].height@ == t0.nodes@[path@[s] as int].height@,
            forall|j: usize| #![trigger t0.live@.contains(j)]
                t0.live@.contains(j) && (forall|s: int|
                    0 <= s < path@.len() ==> #[trigger] path@[s] != j) ==> tree.nodes@[j
                    as int].size@ == t0.nodes@[j as int].size@ && tree.nodes@[j as int].height@
                    == t0.nodes@[j as int].height@,
        decreases path@.len() - idx,
    {
        let p_i = path[idx];
        proof {
            assert(t0.live@.contains(p_i));
            assert forall|s: int| 0 <= s < path@.len() && s != idx implies #[trigger] path@[s]
                != p_i by {
                if s < idx {
                    assert(t0.nodes@[path@[s] as int].size@ < t0.nodes@[p_i as int].size@);
                } else {
                    assert(t0.nodes@[p_i as int].size@ < t0.nodes@[path@[s] as int].size@);
                }
            }
        }
        let mut pn = tree.nodes[p_i];
        pn.size = Ghost((pn.size@ + 1) as nat);
        let ghost lh = tree.height_of(pn.left);
        let ghost rh = tree.height_of(pn.right);
        pn.height = Ghost(1 + (if lh >= rh { lh } else { rh }));
        tree.nodes.set(p_i, pn);
        idx += 1;
    }
    proof {
        let p = path@;
        let plen = p.len() as int;
        let r = p[plen - 1];
        assert(t0.root == Some(r));
        assert(tree.live@.len() == t0.live@.len() + 1);
        assert forall|j: usize| tree.live@.contains(j) implies tree.node_ok(j) by {
            if j == m {
                assert(t0.live@.contains(r));
                assert(tree.root != Some(m));
            } else {
                assert(t0.live@.contains(j));
                assert(t0.node_ok(j));
                let nd0 = t0.nodes@[j as int];
                let nd1 = tree.nodes@[j as int];
                assert(match nd0.left {
                    Some(l) => t0.live@.contains(l) && l != m,
                    None => true,
                });
                assert(match nd0.right {
                    Some(rt) => t0.live@.contains(rt) && rt != m,
                    None => true,
                });
                if exists|s: int| 0 <= s < plen && #[trigger] p[s] == j {
                    let s = choose|s: int| 0 <= s < plen && #[trigger] p[s] == j;
                    assert(nd1.size@ == nd0.size@ + 1);
                    if s < plen - 1 {
                        assert(nd0.parent == Some(p[s + 1]));
                        assert(p[s + 1] != p[0]) by {
                            assert(t0.nodes@[p[0] as int].size@ < t0.nodes@[p[s + 1] as int].size@);
                        }
                        assert(tree.nodes@[p[s + 1] as int].left == t0.nodes@[p[s + 1] as int].left
                            && tree.nodes@[p[s + 1] as int].right == t0.nodes@[p[s
                            + 1] as int].right);
                    }
                    if s == 0 {
                        assert(j == node);
                        if to_left {
                            match nd0.right {
                                Some(oc) => {
                                    lemma_up_other_child(t0, p, 0, oc);
                                    assert(tree.nodes@[oc as int].size@
                                        == t0.nodes@[oc as int].size@);
                                },
                                None => {},
                            }
                        } else {
                            match nd0.left {
                                Some(oc) => {
                                    lemma_up_other_child(t0, p, 0, oc);
                                    assert(tree.nodes@[oc as int].size@
                                        == t0.nodes@[oc as int].size@);
                                },
                                None => {},
                            }
                        }
                    } else {
                        assert(j != node) by {
                            assert(t0.nodes@[p[0] as int].size@ < t0.nodes@[p[s] as int].size@);
                        }
                        let c = p[s - 1];
                        assert(t0.nodes@[p[s - 1] as int].parent == Some(p[s]));
                        assert(t0.node_ok(c));
                        assert(nd0.left == Some(c) || nd0.right == Some(c));
                        assert(tree.nodes@[c as int].size@ == t0.nodes@[c as int].size@ + 1);
                        if nd0.left == Some(c) {
                            match nd0.right {
                                Some(oc) => {
                                    assert(oc != c);
                                    lemma_up_other_child(t0, p, s, oc);
                                    assert(tree.nodes@[oc as int].size@
                                        == t0.nodes@[oc as int].size@);
                                },
                                None => {},
                            }
                        } else {
                            match nd0.left {
                                Some(oc) => {
                                    assert(oc != c);
                                    lemma_up_other_child(t0, p, s, oc);
                                    assert(tree.nodes@[oc as int].size@
                                        == t0.nodes@[oc as int].size@);
                                },
                                None => {},
                            }
                        }
                    }
                } else {
                    assert(j != node);
                    assert(nd1.size@ == nd0.size@);
                    assert(nd1.left == nd0.left && nd1.right == nd0.right);
                    match nd0.left {
                        Some(oc) => {
                            lemma_up_child_off(t0, p, j, oc);
                            assert(tree.nodes@[oc as int].size@ == t0.nodes@[oc as int].size@);
                        },
                        None => {},
                    }
                    match nd0.right {
                        Some(oc) => {
                            lemma_up_child_off(t0, p, j, oc);
                            assert(tree.nodes@[oc as int].size@ == t0.nodes@[oc as int].size@);
                        },
                        None => {},
                    }
                    assert(j != r);
                    assert(tree.root != Some(j));
                }
            }
        }
        // the attach point and the root each grew by one node, and the
        // attach point's height is recomputed from its children
        assert(tree.nodes@[node as int].size@ == t0.nodes@[node as int].size@ + 1);
        assert(t0.root == Some(r));
        assert(tree.nodes@[r as int].size@ == t0.nodes@[r as int].size@ + 1);
        if to_left {
            match t0.nodes@[node as int].right {
                Some(oc) => {
                    lemma_up_other_child(t0, p, 0, oc);
                    assert(tree.nodes@[oc as int].height@ == t0.nodes@[oc as int].height@);
                },
                None => {},
            }
        } else {
            match t0.nodes@[node as int].left {
                Some(oc) => {
                    lemma_up_other_child(t0, p, 0, oc);
                    assert(tree.nodes@[oc as int].height@ == t0.nodes@[oc as int].height@);
                },
                None => {},
            }
        }
    }
}

impl Node {
    /// Creates a fresh tree holding the one node with the given value;
    /// the new node sits in slot 0 and is the root.
    pub fn new_nodelink(value: i32) -> (t: BinaryTree)
        ensures
            t.wf(),
            t.root == Some(0usize),
            t.has_node(0),
            t.value_at(0) == value as int,
            t.size_at(0) == 1,
            t.height_at(0) == 0,
    {
        let mut nodes: Vec<Node> = Vec::new();
        nodes.push(
            Node { value, parent: None, left: None, right: None, size: Ghost(1nat), height: Ghost(0int) },
        );
        let t = BinaryTree { nodes, root: Some(0), live: Ghost(Set::empty().insert(0usize)) };
        proof {
            assert forall|i: usize| t.live@.contains(i) implies t.node_ok(i) by {
                assert(i == 0);
            }
        }
        t
    }

    /// Returns a copy of the node record held at the given slot.
    pub fn get_nodelink_copy(tree: &BinaryTree, node: usize) -> (nd: Node)
        requires
            tree.wf(),
            tree.has_node(node),
        ensures
            nd == tree.nodes@[node as int],
    {
        tree.nodes[node]
    }

    /// Creates a new node holding `value` and installs it as the left
    /// child of `node`, with the parent back-reference set in the same
    /// step.  The slot must be empty.
    pub fn add_left_child(tree: &mut BinaryTree, node: usize, value: i32)
        requires
            old(tree).wf(),
            old(tree).has_node(node),
            old(tree).nodes@[node as int].left is None,
        ensures
            final(tree).wf(),
            final(tree).root == old(tree).root,
            final(tree).nodes@[node as int].left == Some(old(tree).nodes@.len() as usize),
            final(tree).has_node(old(tree).nodes@.len() as usize),
            final(tree).nodes@[old(tree).nodes@.len() as int].value == value,
            final(tree).nodes@[old(tree).nodes@.len() as int].parent == Some(node),
            forall|j: usize| #![trigger old(tree).live@.contains(j)]
                old(tree).live@.contains(j) ==> final(tree).has_node(j) && final(tree).nodes@[j
                    as int].value == old(tree).nodes@[j as int].value,
            final(tree).nodes@.len() == old(tree).nodes@.len() + 1,
            final(tree).live@ == old(tree).live@.insert(old(tree).nodes@.len() as usize),
            final(tree).nodes@[old(tree).nodes@.len() as int].left is None,
            final(tree).nodes@[old(tree).nodes@.len() as int].right is None,
            final(tree).nodes@[node as int].right == old(tree).nodes@[node as int].right,
            forall|j: usize| #![trigger old(tree).live@.contains(j)]
                old(tree).live@.contains(j) ==> final(tree).nodes@[j as int].parent == old(
                    tree,
                ).nodes@[j as int].parent,
            forall|j: usize| #![trigger old(tree).live@.contains(j)]
                old(tree).live@.contains(j) && j != node ==> final(tree).nodes@[j as int].left
                    == old(tree).nodes@[j as int].left && final(tree).nodes@[j as int].right
                    == old(tree).nodes@[j as int].right,
            final(tree).size_at(node) == old(tree).size_at(node) + 1,
            match old(tree).root {
                Some(r) => final(tree).size_at(r) == old(tree).size_at(r) + 1,
                None => true,
            },
            final(tree).height_at(node) == 1 + (if old(tree).height_of(
                old(tree).nodes@[node as int].right,
            ) >= 0 {
                old(tree).height_of(old(tree).nodes@[node as int].right)
            } else {
                0
            }),
    {
        attach_node(tree, node, value, true);
    }

    /// Creates a new node holding `value` and installs it as the right
    /// child of `node`, with the parent back-reference set in the same
    /// step.  The slot must be empty.
    pub fn add_right_child(tree: &mut BinaryTree, node: usize, value: i32)
        requires
            old(tree).wf(),
            old(tree).has_node(node),
            old(tree).nodes@[node as int].right is None,
        ensures
            final(tree).wf(),
            final(tree).root == old(tree).root,
            final(tree).nodes@[node as int].right == Some(old(tree).nodes@.len() as usize),
            final(tree).has_node(old(tree).nodes@.len() as usize),
            final(tree).nodes@[old(tree).nodes@.len() as int].value == value,
            final(tree).nodes@[old(tree).nodes@.len() as int].parent == Some(node),
            forall|j: usize| #![trigger old(tree).live@.contains(j)]
                old(tree).live@.contains(j) ==> final(tree).has_node(j) && final(tree).nodes@[j
                    as int].value == old(tree).nodes@[j as int].value,
            final(tree).nodes@.len() == old(tree).nodes@.len() + 1,
            final(tree).live@ == old(tree).live@.insert(old(tree).nodes@.len() as usize),
            final(tree).nodes@[old(tree).nodes@.len() as int].left is None,
            final(tree).nodes@[old(tree).nodes@.len() as int].right is None,
            final(tree).nodes@[node as int].left == old(tree).nodes@[node as int].left,
            forall|j: usize| #![trigger old(tree).live@.contains(j)]
                old(tree).live@.contains(j) ==> final(tree).nodes@[j as int].parent == old(
                    tree,
                ).nodes@[j as int].parent,
            forall|j: usize| #![trigger old(tree).live@.contains(j)]
                old(tree).live@.contains(j) && j != node ==> final(tree).nodes@[j as int].left
                    == old(tree).nodes@[j as int].left && final(tree).nodes@[j as int].right
                    == old(tree).nodes@[j as int].right,
            final(tree).size_at(node) == old(tree).size_at(node) + 1,
            match old(tree).root {
                Some(r) => final(tree).size_at(r) == old(tree).size_at(r) + 1,
                None => true,
            },
            final(tree).height_at(node) == 1 + (if old(tree).height_of(
                old(tree).nodes@[node as int].left,
            ) >= 0 {
                old(tree).height_of(old(tree).nodes@[node as int].left)
            } else {
                0
            }),
    {
        attach_node(tree, node, value, false);
    }

    /// Resolves an optional non-owning back-reference to an owning
    /// handle on the same node: back-references never keep a node
    /// alive, so the caller states that the target is still in the
    /// tree.
    pub fn upgrade_weak_to_strong(tree: &BinaryTree, link: Option<usize>) -> (r: Option<usize>)
        requires
            tree.wf(),
            match link {
                Some(i) => tree.has_node(i),
                None => true,
            },
        ensures
            r == link,
            match r {
                Some(i) => tree.has_node(i),
                None => true,
            },
    {
        let _ = tree;
        link
    }

    /// Returns the sibling of `node`: the other child slot of its
    /// parent, or `None` for the root.
    pub fn get_sibling(tree: &BinaryTree, node: usize) -> (s: Option<usize>)
        requires
            tree.wf(),
            tree.has_node(node),
        ensures
            match tree.nodes@[node as int].parent {
                Some(p) => s == (if tree.nodes@[p as int].left == Some(node) {
                    tree.nodes@[p as int].right
                } else {
                    tree.nodes@[p as int].left
                }) && (match s {
                    Some(sib) => tree.has_node(sib) && sib != node,
                    None => true,
                }),
                None => s is None,
            },
    {
        proof {
            assert(tree.node_ok(node));
        }
        let nd = tree.nodes[node];
        match nd.parent {
            None => None,
            Some(p) => {
                proof {
                    assert(tree.node_ok(p));
                }
                let pn = tree.nodes[p];
                let from_left: bool = match pn.left {
                    Some(l) => l == node,
                    None => false,
                };
                if from_left {
                    pn.right
                } else {
                    pn.left
                }
            },
        }
    }

    /// Returns the node that `get_node_by_value` finds for `value` in
    /// the subtree at `i`: the node itself when it holds the value,
    /// else whatever the left subtree yields when there is one, else
    /// whatever the right subtree yields.  The walk visits one branch
    /// per node, never both.
    pub open spec fn found_by_value(t: BinaryTree, i: usize, value: int) -> Option<usize>
        decreases t.size_at(i),
        when t.wf() && t.has_node(i)
    {
        if t.value_at(i) == value {
            Some(i)
        } else {
            match t.nodes@[i as int].left {
                Some(l) => Node::found_by_value(t, l, value),
                None => match t.nodes@[i as int].right {
                    Some(r) => Node::found_by_value(t, r, value),
                    None => None,
                },
            }
        }
    }

    /// Seeks a node holding `value` below `node`, checking the current
    /// node and then descending into the left subtree when one exists,
    /// else the right: the walk follows one branch per node, so a
    /// match elsewhere can be missed.  This one-branch walk is the
    /// intended behaviour of the lookup, and the contract pins it
    /// exactly through [`Self::found_by_value`]; a search that covers
    /// the whole tree belongs to the ordered tree in [`crate::bst`].
    pub fn get_node_by_value(tree: &BinaryTree, node: usize, value: i32) -> (r: Option<usize>)
        requires
            tree.wf(),
            tree.has_node(node),
        ensures
            r == Node::found_by_value(*tree, node, value as int),
            match r {
                Some(j) => tree.has_node(j) && tree.value_at(j) == value as int,
                None => true,
            },
        decreases tree.size_at(node),
    {
        proof {
            assert(tree.node_ok(node));
        }
        let nd = tree.nodes[node];
        if nd.value == value {
            return Some(node);
        }
        match nd.left {
            Some(l) => {
                proof {
                    lemma_child_size(*tree, node, l);
                }
                Node::get_node_by_value(tree, l, value)
            },
            None => match nd.right {
                Some(rt) => {
                    proof {
                        lemma_child_size(*tree, node, rt);
                    }
                    Node::get_node_by_value(tree, rt, value)
                },
                None => None,
            },
        }
    }

    /// Two optional links "match" when both are absent, or both point
    /// at nodes holding the same value.
    pub open spec fn links_match(t: BinaryTree, a: Option<usize>, b: Option<usize>) -> bool {
        match a {
            None => b is None,
            Some(x) => match b {
                None => false,
                Some(y) => t.value_at(x) == t.value_at(y),
            },
        }
    }

    /// The node at slot `i` matches the probe record: same value, and
    /// matching parent, left and right links, compared by value.
    pub open spec fn record_matches(t: BinaryTree, probe: Node, i: usize) -> bool {
        &&& t.value_at(i) == probe.value as int
        &&& Node::links_match(t, probe.parent, t.nodes@[i as int].parent)
        &&& Node::links_match(t, probe.left, t.nodes@[i as int].left)
        &&& Node::links_match(t, probe.right, t.nodes@[i as int].right)
    }

    /// Every link of the probe record that is present points at a node
    /// of the tree.
    pub open spec fn probe_ok(t: BinaryTree, probe: Node) -> bool {
        &&& match probe.parent {
            Some(x) => t.has_node(x),
            None => true,
        }
        &&& match probe.left {
            Some(x) => t.has_node(x),
            None => true,
        }
        &&& match probe.right {
            Some(x) => t.has_node(x),
            None => true,
        }
    }

    /// Returns the node that `get_node_by_full_property` finds for the
    /// probe in the subtree at `i`: the node itself when it matches,
    /// else whatever the left subtree yields when there is one, else
    /// whatever the right subtree yields.
    pub open spec fn found_by_property(t: BinaryTree, probe: Node, i: usize) -> Option<usize>
        decreases t.size_at(i),
        when t.wf() && t.has_node(i)
    {
        if Node::record_matches(t, probe, i) {
            Some(i)
        } else {
            match t.nodes@[i as int].left {
                Some(l) => Node::found_by_property(t, probe, l),
                None => match t.nodes@[i as int].right {
                    Some(r) => Node::found_by_property(t, probe, r),
                    None => None,
                },
            }
        }
    }

    /// Seeks a node below `node` that matches the probe record on all
    /// properties: its own value, the parent's value and both child
    /// values.  Like `get_node_by_value`, the walk descends into the
    /// left subtree when one exists, else the right.
    pub fn get_node_by_full_property(tree: &BinaryTree, probe: &Node, node: usize) -> (r: Option<
        usize,
    >)
        requires
            tree.wf(),
            tree.has_node(node),
            Node::probe_ok(*tree, *probe),
        ensures
            r == Node::found_by_property(*tree, *probe, node),
            match r {
                Some(j) => tree.has_node(j) && Node::record_matches(*tree, *probe, j),
                None => true,
            },
        decreases tree.size_at(node),
    {
        proof {
            assert(tree.node_ok(node));
        }
        let nd = tree.nodes[node];
        let value_eq = nd.value == probe.value;
        let parent_eq = Node::link_values_match(tree, probe.parent, nd.parent);
        let left_eq = Node::link_values_match(tree, probe.left, nd.left);
        let right_eq = Node::link_values_match(tree, probe.right, nd.right);
        if value_eq && parent_eq && left_eq && right_eq {
            return Some(node);
        }
        match nd.left {
            Some(l) => {
                proof {
                    lemma_child_size(*tree, node, l);
                }
                Node::get_node_by_full_property(tree, probe, l)
            },
            None => match nd.right {
                Some(rt) => {
                    proof {
                        lemma_child_size(*tree, node, rt);
                    }
                    Node::get_node_by_full_property(tree, probe, rt)
                },
                None => None,
            },
        }
    }

    /// Compares two optional links by the values of the nodes they
    /// point at.
    fn link_values_match(tree: &BinaryTree, a: Option<usize>, b: Option<usize>) -> (r: bool)
        requires
            tree.wf(),
            match a {
                Some(x) => tree.has_node(x),
                None => true,
            },
            match b {
                Some(x) => tree.has_node(x),
                None => true,
            },
        ensures
            r == Node::links_match(*tree, a, b),
    {
        match a {
            None => b.is_none(),
            Some(x) => match b {
                None => false,
                Some(y) => tree.nodes[x].value == tree.nodes[y].value,
            },
        }
    }

    /// Returns the depth of the subtree rooted at `node`: the number
    /// of steps from `node` down to its deepest descendant, 0 for a
    /// node without children.
    pub fn tree_depth(tree: &BinaryTree, node: usize) -> (r: i32)
        requires
            tree.wf(),
            tree.has_node(node),
            tree.size_at(node) <= i32::MAX as int,
        ensures
            r as int == tree.height_at(node),
            0 <= r as int,
            r as int <= tree.size_at(node) - 1,
        decreases tree.size_at(node),
    {
        proof {
            assert(tree.node_ok(node));
        }
        let nd = tree.nodes[node];
        let mut left_d: i32 = -1;
        let mut right_d: i32 = -1;
        match nd.left {
            Some(l) => {
                proof {
                    lemma_child_size(*tree, node, l);
                }
                left_d = Node::tree_depth(tree, l);
            },
            None => {},
        }
        match nd.right {
            Some(rt) => {
                proof {
                    lemma_child_size(*tree, node, rt);
                }
                right_d = Node::tree_depth(tree, rt);
            },
            None => {},
        }
        let deeper: i32 = if left_d >= right_d {
            left_d
        } else {
            right_d
        };
        deeper + 1
    }

    /// Counts the nodes of the subtree rooted at `node`.
    pub fn count_nodes(tree: &BinaryTree, node: usize) -> (r: i32)
        requires
            tree.wf(),
            tree.has_node(node),
            tree.size_at(node) <= i32::MAX as int,
        ensures
            r as int == tree.size_at(node),
    {
        Node::count_nodes_by_nodelink(tree, node, 0)
    }

    /// Counts the subtree rooted at `node` while threading an
    /// accumulator through every visit, as a fold: every node of the
    /// subtree contributes one plus the accumulator, so the result is
    /// `(count + 1)` times the subtree size.
    pub fn count_nodes_by_nodelink(tree: &BinaryTree, node: usize, count: i32) -> (r: i32)
        requires
            tree.wf(),
            tree.has_node(node),
            0 <= count,
            (count as int + 1) * tree.size_at(node) <= i32::MAX as int,
        ensures
            r as int == (count as int + 1) * tree.size_at(node),
        decreases tree.size_at(node),
    {
        proof {
            assert(tree.node_ok(node));
        }
        let nd = tree.nodes[node];
        let mut left_count: i32 = 0;
        let mut right_count: i32 = 0;
        match nd.left {
            Some(l) => {
                proof {
                    lemma_child_size(*tree, node, l);
                    assert((count as int + 1) * tree.size_at(l) <= (count as int + 1)
                        * tree.size_at(node)) by (nonlinear_arith)
                        requires
                            0 <= count,
                            0 <= tree.size_at(l),
                            tree.size_at(l) <= tree.size_at(node),
                    ;
                }
                left_count = Node::count_nodes_by_nodelink(tree, l, count);
            },
            None => {},
        }
        match nd.right {
            Some(r) => {
                proof {
                    lemma_child_size(*tree, node, r);
                    assert((count as int + 1) * tree.size_at(r) <= (count as int + 1)
                        * tree.size_at(node)) by (nonlinear_arith)
                        requires
                            0 <= count,
                            0 <= tree.size_at(r),
                            tree.size_at(r) <= tree.size_at(node),
                    ;
                }
                right_count = Node::count_nodes_by_nodelink(tree, r, count);
            },
            None => {},
        }
        proof {
            assert((count as int + 1) * tree.size_at(node) == count + (count as int + 1)
                * tree.size_of(nd.left) + (count as int + 1) * tree.size_of(nd.right) + 1)
                by (nonlinear_arith)
                requires
                    tree.size_at(node) == 1 + tree.size_of(nd.left) + tree.size_of(nd.right),
            ;
            assert(left_count as int + right_count as int + count as int + 1 <= i32::MAX as int);
        }
        count + left_count + right_count + 1
    }
}

/// The parent chain of `x`: the node itself, then its ancestors in
/// order, ending at the node without a parent.
pub open spec fn up_chain(t: BinaryTree, x: usize) -> Seq<usize>
    decreases t.live@.len() - t.nodes@[x as int].size@
        when t.wf() && t.live@.contains(x)
        via up_chain_decreases
{
    match t.nodes@[x as int].parent {
        None => seq![x],
        Some(p) => seq![x] + up_chain(t, p),
    }
}

#[via_fn]
proof fn up_chain_decreases(t: BinaryTree, x: usize) {
    match t.nodes@[x as int].parent {
        Some(p) => {
            assert(t.node_ok(x));
            assert(t.node_ok(p));
            lemma_child_size(t, p, x);
        },
        None => {},
    }
}

/// What the parent chain of a node provides: it starts at the node,
/// each entry's parent is the next one, every entry belongs to the
/// tree, and the chain ends at the root.
pub proof fn lemma_up_chain_facts(t: BinaryTree, x: usize)
    requires
        t.wf(),
        t.live@.contains(x),
    ensures
        up_chain(t, x).len() >= 1,
        up_chain(t, x)[0] == x,
        t.root == Some(up_chain(t, x)[up_chain(t, x).len() - 1]),
        forall|s: int|
            0 <= s < up_chain(t, x).len() ==> t.live@.contains(#[trigger] up_chain(t, x)[s]),
        forall|s: int|
            0 <= s < up_chain(t, x).len() - 1 ==> t.nodes@[#[trigger] up_chain(t, x)[s]
                as int].parent == Some(up_chain(t, x)[s + 1]),
    decreases t.live@.len() - t.nodes@[x as int].size@,
{
    assert(t.node_ok(x));
    let ch = up_chain(t, x);
    match t.nodes@[x as int].parent {
        None => {
            assert(ch =~= seq![x]);
        },
        Some(p) => {
            lemma_child_size(t, p, x);
            lemma_up_chain_facts(t, p);
            let cp = up_chain(t, p);
            assert(ch =~= seq![x] + cp);
            assert(ch.len() == 1 + cp.len());
            assert forall|s: int| 0 <= s < ch.len() implies t.live@.contains(
                #[trigger] ch[s],
            ) by {
                if s >= 1 {
                    assert(ch[s] == cp[s - 1]);
                }
            }
            assert forall|s: int| 0 <= s < ch.len() - 1 implies t.nodes@[#[trigger] ch[s]
                as int].parent == Some(ch[s + 1]) by {
                if s == 0 {
                    assert(ch[0] == x && ch[1] == cp[0]);
                    assert(cp[0] == p);
                } else {
                    assert(ch[s] == cp[s - 1] && ch[s + 1] == cp[s]);
                }
            }
            assert(ch[ch.len() - 1] == cp[cp.len() - 1]);
        },
    }
}

/// The pair `e` names a real edge of the tree: a node of the tree and
/// one of its children, as their values, parent first.
pub open spec fn is_tree_edge(t: BinaryTree, e: (i32, i32)) -> bool {
    exists|x: usize, c: usize|
        #![trigger t.nodes@[x as int], t.nodes@[c as int]]
        t.has_node(x) && t.has_node(c) && (t.nodes@[x as int].left == Some(c) || t.nodes@[x
            as int].right == Some(c)) && e == (t.nodes@[x as int].value, t.nodes@[c as int].value)
}

/// Lists every parent-child edge of the tree as a pair of values,
/// parent first, walking from the root: each listed pair is a real
/// edge of the tree, and every edge of the tree is listed.
pub fn binary_tree_edges(tree: &BinaryTree) -> (out: Vec<(i32, i32)>)
    requires
        tree.wf(),
    ensures
        forall|a: int| 0 <= a < out@.len() ==> is_tree_edge(*tree, #[trigger] out@[a]),
        forall|x: usize, c: usize|
            #![trigger tree.nodes@[x as int], tree.nodes@[c as int]]
            tree.live@.contains(x) && (tree.nodes@[x as int].left == Some(c)
                || tree.nodes@[x as int].right == Some(c)) ==> out@.contains(
                (tree.nodes@[x as int].value, tree.nodes@[c as int].value),
            ),
{
    let mut out: Vec<(i32, i32)> = Vec::new();
    match tree.root {
        Some(r) => {
            edges_below(tree, r, &mut out);
            proof {
                assert forall|x: usize, c: usize|
                    tree.live@.contains(x) && (tree.nodes@[x as int].left == Some(c)
                        || tree.nodes@[x as int].right == Some(c)) implies out@.contains(
                    (tree.nodes@[x as int].value, tree.nodes@[c as int].value),
                ) by {
                    lemma_up_chain_facts(*tree, x);
                    let ch = up_chain(*tree, x);
                    assert(ch[ch.len() - 1] == r);
                    assert(ch.contains(r));
                }
            }
        },
        None => {
            proof {
                assert forall|x: usize, c: usize|
                    tree.live@.contains(x) && (tree.nodes@[x as int].left == Some(c)
                        || tree.nodes@[x as int].right == Some(c)) implies out@.contains(
                    (tree.nodes@[x as int].value, tree.nodes@[c as int].value),
                ) by {
                    lemma_up_chain_facts(*tree, x);
                }
            }
        },
    }
    out
}

/// Appends the edges of the subtree at `i` to `out`, parents first:
/// the appended pairs are real edges, and they cover every edge whose
/// parent node has `i` on its parent chain.
#[verifier::spinoff_prover]
#[verifier::rlimit(100)]
fn edges_below(tree: &BinaryTree, i: usize, out: &mut Vec<(i32, i32)>)
    requires
        tree.wf(),
        tree.has_node(i),
    ensures
        final(out)@.len() >= old(out)@.len(),
        forall|a: int| 0 <= a < old(out)@.len() ==> final(out)@[a] == old(out)@[a],
        forall|a: int|
            old(out)@.len() <= a < final(out)@.len() ==> is_tree_edge(
                *tree,
                #[trigger] final(out)@[a],
            ),
        forall|x: usize, c: usize|
            #![trigger tree.nodes@[x as int], tree.nodes@[c as int]]
            tree.live@.contains(x) && (tree.nodes@[x as int].left == Some(c)
                || tree.nodes@[x as int].right == Some(c)) && up_chain(*tree, x).contains(i)
                ==> final(out)@.contains(
                (tree.nodes@[x as int].value, tree.nodes@[c as int].value),
            ),
    decreases tree.nodes@[i as int].size@,
{
    proof {
        assert(tree.node_ok(i));
    }
    let ghost n0 = out@.len() as int;
    let nd = tree.nodes[i];
    match nd.left {
        Some(l) => {
            proof {
                lemma_child_size(*tree, i, l);
            }
            let cl = tree.nodes[l];
            out.push((nd.value, cl.value));
            proof {
                assert(tree.has_node(i) && tree.has_node(l) && tree.nodes@[i as int].left == Some(
                    l,
                ) && (nd.value, cl.value) == (
                    tree.nodes@[i as int].value,
                    tree.nodes@[l as int].value,
                ));
                assert(is_tree_edge(*tree, (nd.value, cl.value)));
            }
            edges_below(tree, l, out);
        },
        None => {},
    }
    let ghost seq_l = out@;
    match nd.right {
        Some(r) => {
            proof {
                lemma_child_size(*tree, i, r);
            }
            let cr = tree.nodes[r];
            out.push((nd.value, cr.value));
            proof {
                assert(tree.has_node(i) && tree.has_node(r) && tree.nodes@[i as int].right == Some(
                    r,
                ) && (nd.value, cr.value) == (
                    tree.nodes@[i as int].value,
                    tree.nodes@[r as int].value,
                ));
                assert(is_tree_edge(*tree, (nd.value, cr.value)));
            }
            edges_below(tree, r, out);
        },
        None => {},
    }
    proof {
        let fin = out@;
        assert forall|x: usize, c: usize|
            tree.live@.contains(x) && (tree.nodes@[x as int].left == Some(c)
                || tree.nodes@[x as int].right == Some(c)) && up_chain(*tree, x).contains(
                i,
            ) implies fin.contains((tree.nodes@[x as int].value, tree.nodes@[c as int].value)) by {
            let pair = (tree.nodes@[x as int].value, tree.nodes@[c as int].value);
            lemma_up_chain_facts(*tree, x);
            let ch = up_chain(*tree, x);
            if x == i {
                if nd.left == Some(c) {
                    assert(fin[n0] == pair);
                    assert(fin.contains(pair));
                } else {
                    assert(nd.right == Some(c));
                    assert(fin[seq_l.len() as int] == pair);
                    assert(fin.contains(pair));
                }
            } else {
                let q = choose|q: int| 0 <= q < ch.len() && ch[q] == i;
                assert(ch[0] == x);
                assert(q >= 1);
                let w = ch[q - 1];
                assert(tree.nodes@[w as int].parent == Some(i));
                assert(tree.live@.contains(w));
                assert(tree.node_ok(w));
                assert(nd.left == Some(w) || nd.right == Some(w));
                assert(ch.contains(w)) by {
                    assert(ch[q - 1] == w);
                }
                if nd.left == Some(w) {
                    assert(seq_l.contains(pair));
                    let a = choose|a: int| 0 <= a < seq_l.len() && seq_l[a] == pair;
                    assert(fin[a] == seq_l[a]);
                    assert(fin.contains(pair));
                } else {
                    assert(nd.right == Some(w));
                    assert(fin.contains(pair));
                }
            }
        }
    }
}

} // verus!
