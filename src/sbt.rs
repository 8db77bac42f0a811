use vstd::prelude::*;
use vstd::set_lib::*;
use crate::node::{frame, lemma_frame_keys, with_node, is_left_of, key_lt, keys_of, lemma_frame_refl, lemma_frame_trans, major, minor, node_at, node_of, set_node_at, Node, RawLink, Tree};

verus! {

/// The shape of one index tree: which record sits where.
pub enum Shape {
    Leaf,
    Branch { left: Box<Shape>, idx: usize, right: Box<Shape> },
}

impl Shape {
    pub open spec fn root(self) -> Option<usize> {
        match self {
            Shape::Leaf => None,
            Shape::Branch { idx, .. } => Some(idx),
        }
    }

    pub open spec fn left_shape(self) -> Shape {
        match self {
            Shape::Leaf => Shape::Leaf,
            Shape::Branch { left, .. } => *left,
        }
    }

    pub open spec fn right_shape(self) -> Shape {
        match self {
            Shape::Leaf => Shape::Leaf,
            Shape::Branch { right, .. } => *right,
        }
    }

    pub open spec fn size(self) -> nat
        decreases self,
    {
        match self {
            Shape::Leaf => 0,
            Shape::Branch { left, right, .. } => left.size() + 1 + right.size(),
        }
    }

    /// Sum over the records of their depth below the root.
    pub open spec fn depth_sum(self) -> nat
        decreases self,
    {
        match self {
            Shape::Leaf => 0,
            Shape::Branch { left, right, .. } => left.depth_sum() + right.depth_sum() + left.size()
                + right.size(),
        }
    }

    /// The records in the tree.
    pub open spec fn members(self) -> Set<usize>
        decreases self,
    {
        match self {
            Shape::Leaf => Set::empty(),
            Shape::Branch { left, idx, right } => left.members().union(right.members()).insert(idx),
        }
    }

    /// Every record of a left subtree comes before its root, every record of
    /// a right subtree after it.
    pub open spec fn ordered(self, ks: Seq<(usize, usize)>, t: Tree) -> bool
        decreases self,
    {
        match self {
            Shape::Leaf => true,
            Shape::Branch { left, idx, right } => {
                &&& left.ordered(ks, t)
                &&& right.ordered(ks, t)
                &&& forall|j: usize| #[trigger] left.members().contains(j) ==> key_lt(ks, t, j, idx)
                &&& forall|j: usize| #[trigger] right.members().contains(j) ==> key_lt(ks, t, idx, j)
            },
        }
    }

    /// The slab's tree-`t` nodes link the records as the shape says, and each
    /// node's size is the size of its subtree.
    pub open spec fn repr(self, s: Seq<RawLink>, t: Tree) -> bool
        decreases self,
    {
        match self {
            Shape::Leaf => true,
            Shape::Branch { left, idx, right } => {
                &&& idx < s.len()
                &&& node_of(s[idx as int], t).left == left.root()
                &&& node_of(s[idx as int], t).right == right.root()
                &&& node_of(s[idx as int], t).size as nat == self.size()
                &&& left.repr(s, t)
                &&& right.repr(s, t)
            },
        }
    }

    pub open spec fn wf(self, s: Seq<RawLink>, t: Tree) -> bool {
        self.repr(s, t) && self.ordered(keys_of(s), t)
    }

    /// The records whose major component is `v`, in tree order.
    pub open spec fn select(self, ks: Seq<(usize, usize)>, t: Tree, v: int) -> Seq<usize>
        decreases self,
    {
        match self {
            Shape::Leaf => Seq::empty(),
            Shape::Branch { left, idx, right } => left.select(ks, t, v) + (if major(ks, t, idx)
                == v {
                seq![idx]
            } else {
                Seq::empty()
            }) + right.select(ks, t, v),
        }
    }

    /// The record that a descent by `(a, b)` stops at.
    pub open spec fn find(self, ks: Seq<(usize, usize)>, t: Tree, a: int, b: int) -> Option<usize>
        decreases self,
    {
        match self {
            Shape::Leaf => None,
            Shape::Branch { left, idx, right } => {
                if major(ks, t, idx) == a && minor(ks, t, idx) == b {
                    Some(idx)
                } else if a < major(ks, t, idx) || (a == major(ks, t, idx) && b < minor(
                    ks,
                    t,
                    idx,
                )) {
                    left.find(ks, t, a, b)
                } else {
                    right.find(ks, t, a, b)
                }
            },
        }
    }
}

/// A tree whose records keep their nodes through a change is unaffected by it.
pub proof fn lemma_repr_frame(
    sh: Shape,
    s1: Seq<RawLink>,
    s2: Seq<RawLink>,
    t: Tree,
    touched: Set<usize>,
)
    requires
        sh.repr(s1, t),
        frame(s1, s2, t, touched),
        forall|i: usize| #[trigger] sh.members().contains(i) ==> !touched.contains(i),
    ensures
        sh.repr(s2, t),
    decreases sh,
{
    match sh {
        Shape::Leaf => {},
        Shape::Branch { left, idx, right } => {
            assert(sh.members().contains(idx));
            assert(s2[idx as int] == s1[idx as int]);
            assert forall|i: usize| #[trigger] left.members().contains(i) implies !touched.contains(
                i,
            ) by {
                assert(sh.members().contains(i));
            }
            assert forall|i: usize| #[trigger] right.members().contains(i) implies !touched.contains(
                i,
            ) by {
                assert(sh.members().contains(i));
            }
            lemma_repr_frame(*left, s1, s2, t, touched);
            lemma_repr_frame(*right, s1, s2, t, touched);
        },
    }
}

/// A tree is unaffected by a change of slots that are not its records.
pub proof fn lemma_repr_same(sh: Shape, s1: Seq<RawLink>, s2: Seq<RawLink>, t: Tree)
    requires
        sh.repr(s1, t),
        forall|j: usize|
            #[trigger] sh.members().contains(j) && j < s1.len() ==> j < s2.len() && s2[j as int]
                == s1[j as int],
    ensures
        sh.repr(s2, t),
        sh.ordered(keys_of(s1), t) ==> sh.ordered(keys_of(s2), t),
    decreases sh,
{
    match sh {
        Shape::Leaf => {},
        Shape::Branch { left, idx, right } => {
            assert(sh.members().contains(idx));
            assert forall|j: usize| #[trigger] left.members().contains(j) && j < s1.len() implies j
                < s2.len() && s2[j as int] == s1[j as int] by {
                assert(sh.members().contains(j));
            }
            assert forall|j: usize| #[trigger] right.members().contains(j) && j < s1.len() implies j
                < s2.len() && s2[j as int] == s1[j as int] by {
                assert(sh.members().contains(j));
            }
            lemma_repr_same(*left, s1, s2, t);
            lemma_repr_same(*right, s1, s2, t);
            lemma_wf_members_in(sh, s1, t);
            let k1 = keys_of(s1);
            let k2 = keys_of(s2);
            assert forall|j: usize| #[trigger] sh.members().contains(j) implies k2[j as int]
                == k1[j as int] by {}
            if sh.ordered(k1, t) {
                lemma_ordered_keys(sh, k1, k2, t);
            }
        },
    }
}

/// Every record of a represented tree lies in the slab.
pub proof fn lemma_wf_members_in(sh: Shape, s: Seq<RawLink>, t: Tree)
    requires
        sh.repr(s, t),
    ensures
        forall|i: usize| #[trigger] sh.members().contains(i) ==> i < s.len(),
    decreases sh,
{
    match sh {
        Shape::Leaf => {
            assert(sh.members() =~= Set::<usize>::empty());
        },
        Shape::Branch { left, idx, right } => {
            lemma_wf_members_in(*left, s, t);
            lemma_wf_members_in(*right, s, t);
            assert(idx < s.len());
            assert forall|i: usize| #[trigger] sh.members().contains(i) implies i < s.len() by {
                if left.members().contains(i) {
                } else if right.members().contains(i) {
                } else {
                    assert(i == idx);
                }
            }
        },
    }
}

/// Order depends only on the keys of the tree's own records.
pub proof fn lemma_ordered_keys(sh: Shape, k1: Seq<(usize, usize)>, k2: Seq<(usize, usize)>, t: Tree)
    requires
        sh.ordered(k1, t),
        forall|j: usize| #[trigger] sh.members().contains(j) ==> k2[j as int] == k1[j as int],
    ensures
        sh.ordered(k2, t),
    decreases sh,
{
    match sh {
        Shape::Leaf => {},
        Shape::Branch { left, idx, right } => {
            assert(sh.members().contains(idx));
            assert forall|j: usize| #[trigger] left.members().contains(j) implies k2[j as int]
                == k1[j as int] by {
                assert(sh.members().contains(j));
            }
            assert forall|j: usize| #[trigger] right.members().contains(j) implies k2[j as int]
                == k1[j as int] by {
                assert(sh.members().contains(j));
            }
            lemma_ordered_keys(*left, k1, k2, t);
            lemma_ordered_keys(*right, k1, k2, t);
            assert forall|j: usize| #[trigger] left.members().contains(j) implies key_lt(k2, t, j, idx) by {
                assert(key_lt(k1, t, j, idx));
            }
            assert forall|j: usize| #[trigger] right.members().contains(j) implies key_lt(k2, t, idx, j) by {
                assert(key_lt(k1, t, idx, j));
            }
        },
    }
}

/// Changing the nodes of one tree leaves the other tree as it was.
pub proof fn lemma_other_tree(
    sh: Shape,
    s1: Seq<RawLink>,
    s2: Seq<RawLink>,
    t: Tree,
    u: Tree,
    touched: Set<usize>,
)
    requires
        sh.wf(s1, u),
        frame(s1, s2, t, touched),
        t != u,
    ensures
        sh.wf(s2, u),
{
    lemma_wf_members_in(sh, s1, u);
    lemma_frame_keys(s1, s2, t, touched);
    assert forall|i: usize| #[trigger] sh.members().contains(i) implies node_of(s2[i as int], u)
        == node_of(s1[i as int], u) by {
        assert(s2[i as int] == with_node(s1[i as int], t, node_of(s2[i as int], t)));
    }
    lemma_repr_nodes(sh, s1, s2, u);
}

/// A tree depends only on its records' nodes.
pub proof fn lemma_repr_nodes(sh: Shape, s1: Seq<RawLink>, s2: Seq<RawLink>, u: Tree)
    requires
        sh.repr(s1, u),
        s1.len() == s2.len(),
        forall|i: usize| #[trigger]
            sh.members().contains(i) ==> node_of(s2[i as int], u) == node_of(s1[i as int], u),
    ensures
        sh.repr(s2, u),
    decreases sh,
{
    match sh {
        Shape::Leaf => {},
        Shape::Branch { left, idx, right } => {
            assert(sh.members().contains(idx));
            assert forall|i: usize| #[trigger] left.members().contains(i) implies node_of(
                s2[i as int],
                u,
            ) == node_of(s1[i as int], u) by {
                assert(sh.members().contains(i));
            }
            assert forall|i: usize| #[trigger] right.members().contains(i) implies node_of(
                s2[i as int],
                u,
            ) == node_of(s1[i as int], u) by {
                assert(sh.members().contains(i));
            }
            lemma_repr_nodes(*left, s1, s2, u);
            lemma_repr_nodes(*right, s1, s2, u);
        },
    }
}

/// A tree without records is the empty tree.
pub proof fn lemma_empty_tree(sh: Shape, s: Seq<RawLink>, t: Tree)
    requires
        sh.wf(s, t),
        sh.members() == Set::<usize>::empty(),
    ensures
        sh.root() is None,
        sh.size() == 0,
{
    if sh is Branch {
        assert(sh.members().contains(sh->idx));
    }
}

/// A well-formed tree holds as many records as its size, all in the slab.
pub proof fn lemma_wf_facts(sh: Shape, s: Seq<RawLink>, t: Tree)
    requires
        sh.repr(s, t),
        sh.ordered(keys_of(s), t),
    ensures
        sh.members().finite(),
        sh.members().len() == sh.size(),
        forall|i: usize| #[trigger] sh.members().contains(i) ==> i < s.len(),
    decreases sh,
{
    match sh {
        Shape::Leaf => {},
        Shape::Branch { left, idx, right } => {
            let ks = keys_of(s);
            lemma_wf_facts(*left, s, t);
            lemma_wf_facts(*right, s, t);
            assert(left.members().disjoint(right.members())) by {
                assert forall|j: usize| left.members().contains(j) implies !right.members().contains(
                    j,
                ) by {
                    assert(key_lt(ks, t, j, idx));
                    if right.members().contains(j) {
                        assert(key_lt(ks, t, idx, j));
                    }
                }
            }
            lemma_set_disjoint_lens(left.members(), right.members());
            assert(!left.members().contains(idx)) by {
                if left.members().contains(idx) {
                    assert(key_lt(ks, t, idx, idx));
                }
            }
            assert(!right.members().contains(idx)) by {
                if right.members().contains(idx) {
                    assert(key_lt(ks, t, idx, idx));
                }
            }
        },
    }
}

/// Size of the subtree whose root is `root`.
pub fn size_of(mem: &Vec<RawLink>, t: Tree, root: Option<usize>, Ghost(sh): Ghost<Shape>) -> (r: usize)
    requires
        sh.repr(mem@, t),
        root == sh.root(),
    ensures
        r as nat == sh.size(),
{
    match root {
        None => 0,
        Some(i) => node_at(mem, t, i).size,
    }
}

/// Promotes the left child of `root`; returns the new subtree root.
pub fn rotate_right(mem: &mut Vec<RawLink>, t: Tree, root: usize, Ghost(sh): Ghost<Shape>) -> (res: (
    usize,
    Ghost<Shape>,
))
    requires
        sh.wf(old(mem)@, t),
        sh.root() == Some(root),
        sh.left_shape() is Branch,
    ensures
        res.1@.wf(final(mem)@, t),
        res.1@.root() == Some(res.0),
        res.1@.members() == sh.members(),
        res.1@.size() == sh.size(),
        res.1@.depth_sum() + sh.left_shape().left_shape().size() == sh.depth_sum()
            + sh.right_shape().size(),
        res.1@.right_shape().size() == sh.left_shape().right_shape().size() + sh.right_shape().size()
            + 1,
        frame(old(mem)@, final(mem)@, t, sh.members()),
        keys_of(final(mem)@) == keys_of(old(mem)@),
{
    let ghost s0 = mem@;
    let ghost ks = keys_of(s0);
    let ghost l_sh = sh.left_shape();
    let ghost a = l_sh.left_shape();
    let ghost b = l_sh.right_shape();
    let ghost c = sh.right_shape();
    proof {
        assert(l_sh.repr(s0, t) && l_sh.ordered(ks, t));
        assert(b.repr(s0, t) && c.repr(s0, t) && a.repr(s0, t));
    }
    let n = node_at(mem, t, root);
    let l = n.left.unwrap();
    let ln = node_at(mem, t, l);
    let b_size = size_of(mem, t, ln.right, Ghost(b));
    let c_size = size_of(mem, t, n.right, Ghost(c));
    set_node_at(mem, t, root, Node { left: ln.right, right: n.right, size: b_size + c_size + 1 });
    let ghost s1 = mem@;
    set_node_at(mem, t, l, Node { left: ln.left, right: Some(root), size: n.size });
    let ghost s2 = mem@;
    let ghost inner = Shape::Branch { left: Box::new(b), idx: root, right: Box::new(c) };
    let ghost nsh = Shape::Branch { left: Box::new(a), idx: l, right: Box::new(inner) };
    proof {
        assert(l_sh.members().contains(l));
        assert(key_lt(ks, t, l, root));
        assert(!a.members().contains(l)) by {
            if a.members().contains(l) {
                assert(key_lt(ks, t, l, l));
            }
        }
        assert(!b.members().contains(l)) by {
            if b.members().contains(l) {
                assert(key_lt(ks, t, l, l));
            }
        }
        assert(!c.members().contains(l)) by {
            if c.members().contains(l) {
                assert(key_lt(ks, t, root, l));
            }
        }
        assert(!a.members().contains(root)) by {
            if a.members().contains(root) {
                assert(l_sh.members().contains(root));
                assert(key_lt(ks, t, root, root));
            }
        }
        assert(!b.members().contains(root)) by {
            if b.members().contains(root) {
                assert(l_sh.members().contains(root));
                assert(key_lt(ks, t, root, root));
            }
        }
        assert(!c.members().contains(root)) by {
            if c.members().contains(root) {
                assert(key_lt(ks, t, root, root));
            }
        }
        lemma_frame_trans(s0, s1, s2, t, set![root], set![l], set![root, l]);
        lemma_frame_trans(s0, s1, s2, t, set![root], set![l], sh.members());
        lemma_repr_frame(a, s0, s2, t, set![root, l]);
        lemma_repr_frame(b, s0, s2, t, set![root, l]);
        lemma_repr_frame(c, s0, s2, t, set![root, l]);
        assert forall|j: usize| #[trigger] b.members().contains(j) implies key_lt(ks, t, j, root) by {
            assert(l_sh.members().contains(j));
        }
        assert forall|j: usize| #[trigger] inner.members().contains(j) implies key_lt(ks, t, l, j) by {
            if c.members().contains(j) {
                assert(key_lt(ks, t, root, j));
            }
        }
        assert(l_sh == Shape::Branch { left: Box::new(a), idx: l, right: Box::new(b) });
        assert(sh == Shape::Branch { left: Box::new(l_sh), idx: root, right: Box::new(c) });
        assert(l_sh.members() == a.members().union(b.members()).insert(l));
        assert(inner.members() == b.members().union(c.members()).insert(root));
        assert(sh.members() == l_sh.members().union(c.members()).insert(root));
        assert(nsh.members() == a.members().union(inner.members()).insert(l));
        assert(nsh.members() =~= sh.members());
        assert(inner.repr(s2, t));
        assert(nsh.repr(s2, t));
        assert(inner.ordered(ks, t));
        assert(nsh.ordered(ks, t));
        assert(inner.size() == b.size() + 1 + c.size());
        assert(l_sh.size() == a.size() + 1 + b.size());
        assert(inner.depth_sum() == b.depth_sum() + c.depth_sum() + b.size() + c.size());
        assert(nsh.depth_sum() == a.depth_sum() + inner.depth_sum() + a.size() + inner.size());
        assert(l_sh.depth_sum() == a.depth_sum() + b.depth_sum() + a.size() + b.size());
        assert(sh.depth_sum() == l_sh.depth_sum() + c.depth_sum() + l_sh.size() + c.size());
    }
    (l, Ghost(nsh))
}

/// Promotes the right child of `root`; returns the new subtree root.
pub fn rotate_left(mem: &mut Vec<RawLink>, t: Tree, root: usize, Ghost(sh): Ghost<Shape>) -> (res: (
    usize,
    Ghost<Shape>,
))
    requires
        sh.wf(old(mem)@, t),
        sh.root() == Some(root),
        sh.right_shape() is Branch,
    ensures
        res.1@.wf(final(mem)@, t),
        res.1@.root() == Some(res.0),
        res.1@.members() == sh.members(),
        res.1@.size() == sh.size(),
        res.1@.depth_sum() + sh.right_shape().right_shape().size() == sh.depth_sum()
            + sh.left_shape().size(),
        res.1@.left_shape().size() == sh.left_shape().size() + sh.right_shape().left_shape().size()
            + 1,
        frame(old(mem)@, final(mem)@, t, sh.members()),
        keys_of(final(mem)@) == keys_of(old(mem)@),
{
    let ghost s0 = mem@;
    let ghost ks = keys_of(s0);
    let ghost r_sh = sh.right_shape();
    let ghost a = sh.left_shape();
    let ghost b = r_sh.left_shape();
    let ghost c = r_sh.right_shape();
    proof {
        assert(r_sh.repr(s0, t) && r_sh.ordered(ks, t));
        assert(b.repr(s0, t) && c.repr(s0, t) && a.repr(s0, t));
    }
    let n = node_at(mem, t, root);
    let r = n.right.unwrap();
    let rn = node_at(mem, t, r);
    let a_size = size_of(mem, t, n.left, Ghost(a));
    let b_size = size_of(mem, t, rn.left, Ghost(b));
    set_node_at(mem, t, root, Node { left: n.left, right: rn.left, size: a_size + b_size + 1 });
    let ghost s1 = mem@;
    set_node_at(mem, t, r, Node { left: Some(root), right: rn.right, size: n.size });
    let ghost s2 = mem@;
    let ghost inner = Shape::Branch { left: Box::new(a), idx: root, right: Box::new(b) };
    let ghost nsh = Shape::Branch { left: Box::new(inner), idx: r, right: Box::new(c) };
    proof {
        assert(r_sh.members().contains(r));
        assert(key_lt(ks, t, root, r));
        assert(!a.members().contains(r)) by {
            if a.members().contains(r) {
                assert(key_lt(ks, t, r, root));
            }
        }
        assert(!b.members().contains(r)) by {
            if b.members().contains(r) {
                assert(key_lt(ks, t, r, r));
            }
        }
        assert(!c.members().contains(r)) by {
            if c.members().contains(r) {
                assert(key_lt(ks, t, r, r));
            }
        }
        assert(!a.members().contains(root)) by {
            if a.members().contains(root) {
                assert(key_lt(ks, t, root, root));
            }
        }
        assert(!b.members().contains(root)) by {
            if b.members().contains(root) {
                assert(r_sh.members().contains(root));
                assert(key_lt(ks, t, root, root));
            }
        }
        assert(!c.members().contains(root)) by {
            if c.members().contains(root) {
                assert(r_sh.members().contains(root));
                assert(key_lt(ks, t, root, root));
            }
        }
        lemma_frame_trans(s0, s1, s2, t, set![root], set![r], set![root, r]);
        lemma_frame_trans(s0, s1, s2, t, set![root], set![r], sh.members());
        lemma_repr_frame(a, s0, s2, t, set![root, r]);
        lemma_repr_frame(b, s0, s2, t, set![root, r]);
        lemma_repr_frame(c, s0, s2, t, set![root, r]);
        assert forall|j: usize| #[trigger] b.members().contains(j) implies key_lt(ks, t, root, j) by {
            assert(r_sh.members().contains(j));
        }
        assert forall|j: usize| #[trigger] inner.members().contains(j) implies key_lt(ks, t, j, r) by {
            if a.members().contains(j) {
                assert(key_lt(ks, t, j, root));
            }
        }
        assert(r_sh == Shape::Branch { left: Box::new(b), idx: r, right: Box::new(c) });
        assert(sh == Shape::Branch { left: Box::new(a), idx: root, right: Box::new(r_sh) });
        assert(r_sh.members() == b.members().union(c.members()).insert(r));
        assert(inner.members() == a.members().union(b.members()).insert(root));
        assert(sh.members() == a.members().union(r_sh.members()).insert(root));
        assert(nsh.members() == inner.members().union(c.members()).insert(r));
        assert(nsh.members() =~= sh.members());
        assert(inner.repr(s2, t));
        assert(nsh.repr(s2, t));
        assert(inner.ordered(ks, t));
        assert(nsh.ordered(ks, t));
        assert(inner.size() == a.size() + 1 + b.size());
        assert(r_sh.size() == b.size() + 1 + c.size());
        assert(inner.depth_sum() == a.depth_sum() + b.depth_sum() + a.size() + b.size());
        assert(nsh.depth_sum() == inner.depth_sum() + c.depth_sum() + inner.size() + c.size());
        assert(r_sh.depth_sum() == b.depth_sum() + c.depth_sum() + b.size() + c.size());
        assert(sh.depth_sum() == a.depth_sum() + r_sh.depth_sum() + a.size() + r_sh.size());
    }
    (r, Ghost(nsh))
}


/// One rebalancing step at `root` for a heavy left side: a single or double
/// rotation when a grandchild on the left outweighs the right subtree.
/// Returns whether it rotated and the new subtree root.
pub fn balance_left(mem: &mut Vec<RawLink>, t: Tree, root: usize, Ghost(sh): Ghost<Shape>) -> (res: (
    bool,
    usize,
    Ghost<Shape>,
))
    requires
        sh.wf(old(mem)@, t),
        sh.root() == Some(root),
    ensures
        res.2@.wf(final(mem)@, t),
        res.2@.root() == Some(res.1),
        res.2@.members() == sh.members(),
        res.2@.size() == sh.size(),
        frame(old(mem)@, final(mem)@, t, sh.members()),
        keys_of(final(mem)@) == keys_of(old(mem)@),
        !res.0 ==> final(mem)@ == old(mem)@ && res.1 == root && res.2@ == sh,
        res.0 ==> res.2@.depth_sum() < sh.depth_sum(),
{
    let ghost s0 = mem@;
    let ghost ks = keys_of(s0);
    let ghost l_sh = sh.left_shape();
    let ghost c = sh.right_shape();
    proof {
        assert(l_sh.repr(s0, t) && l_sh.ordered(ks, t) && c.repr(s0, t));
        lemma_frame_refl(s0, t, sh.members());
    }
    let n = node_at(mem, t, root);
    let l = match n.left {
        None => {
            return (false, root, Ghost(sh));
        },
        Some(l) => l,
    };
    proof {
        assert(l_sh.left_shape().repr(s0, t) && l_sh.right_shape().repr(s0, t));
    }
    let ln = node_at(mem, t, l);
    let c_size = size_of(mem, t, n.right, Ghost(c));
    let a_size = size_of(mem, t, ln.left, Ghost(l_sh.left_shape()));
    let b_size = size_of(mem, t, ln.right, Ghost(l_sh.right_shape()));
    if a_size > c_size {
        let (nr, g) = rotate_right(mem, t, root, Ghost(sh));
        (true, nr, g)
    } else if b_size > c_size {
        let (nl, Ghost(gl)) = rotate_left(mem, t, l, Ghost(l_sh));
        let ghost s1 = mem@;
        set_node_at(mem, t, root, Node { left: Some(nl), right: n.right, size: n.size });
        let ghost s2 = mem@;
        let ghost mid = Shape::Branch { left: Box::new(gl), idx: root, right: Box::new(c) };
        proof {
            assert(sh == Shape::Branch { left: Box::new(l_sh), idx: root, right: Box::new(c) });
            assert(!l_sh.members().contains(root)) by {
                if l_sh.members().contains(root) {
                    assert(key_lt(ks, t, root, root));
                }
            }
            assert(!c.members().contains(root)) by {
                if c.members().contains(root) {
                    assert(key_lt(ks, t, root, root));
                }
            }
            assert forall|i: usize| #[trigger] c.members().contains(i) implies !l_sh.members().contains(
                i,
            ) by {
                assert(key_lt(ks, t, root, i));
                if l_sh.members().contains(i) {
                    assert(key_lt(ks, t, i, root));
                }
            }
            lemma_frame_trans(s0, s1, s2, t, l_sh.members(), set![root], l_sh.members().insert(root));
            lemma_frame_trans(s0, s1, s2, t, l_sh.members(), set![root], sh.members());
            lemma_repr_frame(c, s0, s2, t, l_sh.members().insert(root));
            lemma_repr_frame(gl, s1, s2, t, set![root]);
            assert(mid.repr(s2, t));
            assert(mid.ordered(ks, t));
            assert(mid.members() =~= sh.members());
            assert(mid.depth_sum() == gl.depth_sum() + c.depth_sum() + gl.size() + c.size());
            assert(sh.depth_sum() == l_sh.depth_sum() + c.depth_sum() + l_sh.size() + c.size());
            let lr = l_sh.right_shape();
            assert(lr.size() == lr.left_shape().size() + 1 + lr.right_shape().size());
            assert(mid.left_shape() == gl);
        }
        let (nr, g) = rotate_right(mem, t, root, Ghost(mid));
        (true, nr, g)
    } else {
        (false, root, Ghost(sh))
    }
}

/// One rebalancing step at `root` for a heavy right side: a single or
/// double rotation when a grandchild on the right outweighs the left
/// subtree. Returns whether it rotated and the new subtree root.
pub fn balance_right(mem: &mut Vec<RawLink>, t: Tree, root: usize, Ghost(sh): Ghost<Shape>) -> (res: (
    bool,
    usize,
    Ghost<Shape>,
))
    requires
        sh.wf(old(mem)@, t),
        sh.root() == Some(root),
    ensures
        res.2@.wf(final(mem)@, t),
        res.2@.root() == Some(res.1),
        res.2@.members() == sh.members(),
        res.2@.size() == sh.size(),
        frame(old(mem)@, final(mem)@, t, sh.members()),
        keys_of(final(mem)@) == keys_of(old(mem)@),
        !res.0 ==> final(mem)@ == old(mem)@ && res.1 == root && res.2@ == sh,
        res.0 ==> res.2@.depth_sum() < sh.depth_sum(),
{
    let ghost s0 = mem@;
    let ghost ks = keys_of(s0);
    let ghost r_sh = sh.right_shape();
    let ghost a = sh.left_shape();
    proof {
        assert(r_sh.repr(s0, t) && r_sh.ordered(ks, t) && a.repr(s0, t));
        lemma_frame_refl(s0, t, sh.members());
    }
    let n = node_at(mem, t, root);
    let r = match n.right {
        None => {
            return (false, root, Ghost(sh));
        },
        Some(r) => r,
    };
    proof {
        assert(r_sh.left_shape().repr(s0, t) && r_sh.right_shape().repr(s0, t));
    }
    let rn = node_at(mem, t, r);
    let a_size = size_of(mem, t, n.left, Ghost(a));
    let b_size = size_of(mem, t, rn.left, Ghost(r_sh.left_shape()));
    let c_size = size_of(mem, t, rn.right, Ghost(r_sh.right_shape()));
    if c_size > a_size {
        let (nr, g) = rotate_left(mem, t, root, Ghost(sh));
        (true, nr, g)
    } else if b_size > a_size {
        let (nr, Ghost(gr)) = rotate_right(mem, t, r, Ghost(r_sh));
        let ghost s1 = mem@;
        set_node_at(mem, t, root, Node { left: n.left, right: Some(nr), size: n.size });
        let ghost s2 = mem@;
        let ghost mid = Shape::Branch { left: Box::new(a), idx: root, right: Box::new(gr) };
        proof {
            assert(sh == Shape::Branch { left: Box::new(a), idx: root, right: Box::new(r_sh) });
            assert(!r_sh.members().contains(root)) by {
                if r_sh.members().contains(root) {
                    assert(key_lt(ks, t, root, root));
                }
            }
            assert(!a.members().contains(root)) by {
                if a.members().contains(root) {
                    assert(key_lt(ks, t, root, root));
                }
            }
            assert forall|i: usize| #[trigger] a.members().contains(i) implies !r_sh.members().contains(
                i,
            ) by {
                assert(key_lt(ks, t, i, root));
                if r_sh.members().contains(i) {
                    assert(key_lt(ks, t, root, i));
                }
            }
            lemma_frame_trans(s0, s1, s2, t, r_sh.members(), set![root], r_sh.members().insert(root));
            lemma_frame_trans(s0, s1, s2, t, r_sh.members(), set![root], sh.members());
            lemma_repr_frame(a, s0, s2, t, r_sh.members().insert(root));
            lemma_repr_frame(gr, s1, s2, t, set![root]);
            assert(mid.repr(s2, t));
            assert(mid.ordered(ks, t));
            assert(mid.members() =~= sh.members());
            assert(mid.depth_sum() == a.depth_sum() + gr.depth_sum() + a.size() + gr.size());
            assert(sh.depth_sum() == a.depth_sum() + r_sh.depth_sum() + a.size() + r_sh.size());
            let rl = r_sh.left_shape();
            assert(rl.size() == rl.left_shape().size() + 1 + rl.right_shape().size());
            assert(mid.right_shape() == gr);
        }
        let (nr, g) = rotate_left(mem, t, root, Ghost(mid));
        (true, nr, g)
    } else {
        (false, root, Ghost(sh))
    }
}


/// Restores balance at `root` after its left (`right_heavy` false) or right
/// subtree grew: rotates when a grandchild on that side outweighs the
/// opposite child, then rebalances the two children and the new root again.
/// Every rotation lowers the depth sum, which bounds the work.
pub fn maintain(
    mem: &mut Vec<RawLink>,
    t: Tree,
    root: usize,
    right_heavy: bool,
    Ghost(sh): Ghost<Shape>,
) -> (res: (usize, Ghost<Shape>))
    requires
        sh.wf(old(mem)@, t),
        sh.root() == Some(root),
    ensures
        res.1@.wf(final(mem)@, t),
        res.1@.root() == Some(res.0),
        res.1@.members() == sh.members(),
        res.1@.size() == sh.size(),
        res.1@.depth_sum() <= sh.depth_sum(),
        frame(old(mem)@, final(mem)@, t, sh.members()),
        keys_of(final(mem)@) == keys_of(old(mem)@),
    decreases sh.depth_sum(),
{
    let ghost s0 = mem@;
    let ghost ks = keys_of(s0);
    let (rotated, top, Ghost(g)) = if right_heavy {
        balance_right(mem, t, root, Ghost(sh))
    } else {
        balance_left(mem, t, root, Ghost(sh))
    };
    if !rotated {
        return (root, Ghost(sh));
    }
    let ghost s1 = mem@;
    let ghost gl = g.left_shape();
    let ghost gr = g.right_shape();
    proof {
        assert(g == Shape::Branch { left: Box::new(gl), idx: top, right: Box::new(gr) });
        assert(gl.repr(s1, t) && gl.ordered(ks, t) && gr.repr(s1, t) && gr.ordered(ks, t));
        assert(!gl.members().contains(top)) by {
            if gl.members().contains(top) {
                assert(key_lt(ks, t, top, top));
            }
        }
        assert(!gr.members().contains(top)) by {
            if gr.members().contains(top) {
                assert(key_lt(ks, t, top, top));
            }
        }
        assert forall|i: usize| #[trigger] gr.members().contains(i) implies !gl.members().contains(i) by {
            assert(key_lt(ks, t, top, i));
            if gl.members().contains(i) {
                assert(key_lt(ks, t, i, top));
            }
        }
        assert(g.depth_sum() == gl.depth_sum() + gr.depth_sum() + gl.size() + gr.size());
    }
    let tn = node_at(mem, t, top);
    let (nl, Ghost(gl2)) = match tn.left {
        Some(x) => {
            let (y, gy) = maintain(mem, t, x, false, Ghost(gl));
            (Some(y), gy)
        },
        None => {
            proof {
                lemma_frame_refl(mem@, t, gl.members());
            }
            (None, Ghost(gl))
        },
    };
    let ghost s2 = mem@;
    set_node_at(mem, t, top, Node { left: nl, right: tn.right, size: tn.size });
    let ghost s3 = mem@;
    proof {
        lemma_frame_trans(s1, s2, s3, t, gl.members(), set![top], gl.members().insert(top));
        lemma_repr_frame(gr, s1, s3, t, gl.members().insert(top));
        lemma_repr_frame(gl2, s2, s3, t, set![top]);
    }
    let (nr, Ghost(gr2)) = match tn.right {
        Some(x) => {
            let (y, gy) = maintain(mem, t, x, true, Ghost(gr));
            (Some(y), gy)
        },
        None => {
            proof {
                lemma_frame_refl(mem@, t, gr.members());
            }
            (None, Ghost(gr))
        },
    };
    let ghost s4 = mem@;
    set_node_at(mem, t, top, Node { left: nl, right: nr, size: tn.size });
    let ghost s5 = mem@;
    let ghost mid = Shape::Branch { left: Box::new(gl2), idx: top, right: Box::new(gr2) };
    proof {
        lemma_frame_trans(s3, s4, s5, t, gr.members(), set![top], gr.members().insert(top));
        assert forall|i: usize| #[trigger] gl2.members().contains(i) implies !gr.members().insert(
            top,
        ).contains(i) by {}
        lemma_repr_frame(gl2, s3, s5, t, gr.members().insert(top));
        lemma_repr_frame(gr2, s4, s5, t, set![top]);
        lemma_frame_trans(s1, s3, s5, t, gl.members().insert(top), gr.members().insert(top), sh.members());
        lemma_frame_trans(s0, s1, s5, t, sh.members(), sh.members(), sh.members());
        assert(mid.repr(s5, t));
        assert(mid.ordered(ks, t));
        assert(mid.members() =~= sh.members());
        assert(mid.depth_sum() == gl2.depth_sum() + gr2.depth_sum() + gl2.size() + gr2.size());
    }
    let (r1, Ghost(g1)) = maintain(mem, t, top, true, Ghost(mid));
    let ghost s6 = mem@;
    let (r2, Ghost(g2)) = maintain(mem, t, r1, false, Ghost(g1));
    proof {
        lemma_frame_trans(s5, s6, mem@, t, sh.members(), sh.members(), sh.members());
        lemma_frame_trans(s0, s5, mem@, t, sh.members(), sh.members(), sh.members());
    }
    (r2, Ghost(g2))
}

/// Inserts record `idx` into the subtree at `root`, rebalancing on the way
/// back up; returns the new subtree root.
pub fn insert_node(
    mem: &mut Vec<RawLink>,
    t: Tree,
    root: Option<usize>,
    idx: usize,
    Ghost(sh): Ghost<Shape>,
) -> (res: (Option<usize>, Ghost<Shape>))
    requires
        sh.wf(old(mem)@, t),
        root == sh.root(),
        idx < old(mem)@.len(),
        !sh.members().contains(idx),
        sh.size() < usize::MAX,
    ensures
        res.1@.wf(final(mem)@, t),
        res.0 == res.1@.root(),
        res.1@.members() == sh.members().insert(idx),
        res.1@.size() == sh.size() + 1,
        frame(old(mem)@, final(mem)@, t, sh.members().insert(idx)),
        keys_of(final(mem)@) == keys_of(old(mem)@),
    decreases sh,
{
    let ghost s0 = mem@;
    let ghost ks = keys_of(s0);
    match root {
        None => {
            set_node_at(mem, t, idx, Node { left: None, right: None, size: 1 });
            let ghost nsh = Shape::Branch {
                left: Box::new(Shape::Leaf),
                idx,
                right: Box::new(Shape::Leaf),
            };
            proof {
                assert(nsh.members() =~= sh.members().insert(idx));
                assert(node_of(mem@[idx as int], t) == Node { left: None, right: None, size: 1 }) by {
                    match t {
                        Tree::Source => {},
                        Tree::Target => {},
                    }
                }
                assert(Shape::Leaf.size() == 0);
                assert(nsh.size() == 1);
                assert(Shape::Leaf.repr(mem@, t));
                assert(Shape::Leaf.root() == None::<usize>);
                assert(nsh.repr(mem@, t));
            }
            (Some(idx), Ghost(nsh))
        },
        Some(r) => {
            let ghost a = sh.left_shape();
            let ghost c = sh.right_shape();
            proof {
                assert(sh == Shape::Branch { left: Box::new(a), idx: r, right: Box::new(c) });
                assert(a.repr(s0, t) && a.ordered(ks, t) && c.repr(s0, t) && c.ordered(ks, t));
                assert(sh.members().contains(r));
                assert(!a.members().contains(r)) by {
                    if a.members().contains(r) {
                        assert(key_lt(ks, t, r, r));
                    }
                }
                assert(!c.members().contains(r)) by {
                    if c.members().contains(r) {
                        assert(key_lt(ks, t, r, r));
                    }
                }
                assert forall|i: usize| #[trigger] c.members().contains(i) implies !a.members().contains(
                    i,
                ) by {
                    assert(key_lt(ks, t, r, i));
                    if a.members().contains(i) {
                        assert(key_lt(ks, t, i, r));
                    }
                }
            }
            let n = node_at(mem, t, r);
            if is_left_of(mem, t, idx, r) {
                let (nl, Ghost(ga)) = insert_node(mem, t, n.left, idx, Ghost(a));
                let ghost s1 = mem@;
                set_node_at(mem, t, r, Node { left: nl, right: n.right, size: n.size + 1 });
                let ghost s2 = mem@;
                let ghost mid = Shape::Branch { left: Box::new(ga), idx: r, right: Box::new(c) };
                proof {
                    let ta = a.members().insert(idx);
                    lemma_frame_trans(s0, s1, s2, t, ta, set![r], ta.insert(r));
                    lemma_frame_trans(s0, s1, s2, t, ta, set![r], sh.members().insert(idx));
                    assert forall|i: usize| #[trigger] c.members().contains(i) implies !ta.insert(
                        r,
                    ).contains(i) by {}
                    lemma_repr_frame(c, s0, s2, t, ta.insert(r));
                    lemma_repr_frame(ga, s1, s2, t, set![r]);
                    assert(mid.repr(s2, t));
                    assert(mid.ordered(ks, t));
                    assert(mid.members() =~= sh.members().insert(idx));
                }
                let (nr, Ghost(g)) = maintain(mem, t, r, false, Ghost(mid));
                proof {
                    lemma_frame_trans(s0, s2, mem@, t, sh.members().insert(idx), mid.members(), sh.members().insert(idx));
                }
                (Some(nr), Ghost(g))
            } else {
                let (nr, Ghost(gc)) = insert_node(mem, t, n.right, idx, Ghost(c));
                let ghost s1 = mem@;
                set_node_at(mem, t, r, Node { left: n.left, right: nr, size: n.size + 1 });
                let ghost s2 = mem@;
                let ghost mid = Shape::Branch { left: Box::new(a), idx: r, right: Box::new(gc) };
                proof {
                    assert(idx != r);
                    assert(key_lt(ks, t, r, idx));
                    let tc = c.members().insert(idx);
                    lemma_frame_trans(s0, s1, s2, t, tc, set![r], tc.insert(r));
                    lemma_frame_trans(s0, s1, s2, t, tc, set![r], sh.members().insert(idx));
                    assert forall|i: usize| #[trigger] a.members().contains(i) implies !tc.insert(
                        r,
                    ).contains(i) by {
                        assert(key_lt(ks, t, i, r));
                    }
                    lemma_repr_frame(a, s0, s2, t, tc.insert(r));
                    lemma_repr_frame(gc, s1, s2, t, set![r]);
                    assert(mid.repr(s2, t));
                    assert(mid.ordered(ks, t));
                    assert(mid.members() =~= sh.members().insert(idx));
                }
                let (nr2, Ghost(g)) = maintain(mem, t, r, true, Ghost(mid));
                proof {
                    lemma_frame_trans(s0, s2, mem@, t, sh.members().insert(idx), mid.members(), sh.members().insert(idx));
                }
                (Some(nr2), Ghost(g))
            }
        },
    }
}


/// Detaches the first record of the subtree at `root`; returns the new
/// subtree root and the detached record, whose node is left as it was.
pub fn remove_min(mem: &mut Vec<RawLink>, t: Tree, root: usize, Ghost(sh): Ghost<Shape>) -> (res: (
    Option<usize>,
    usize,
    Ghost<Shape>,
))
    requires
        sh.wf(old(mem)@, t),
        sh.root() == Some(root),
    ensures
        sh.members().contains(res.1),
        forall|j: usize|
            #[trigger] sh.members().contains(j) && j != res.1 ==> key_lt(
                keys_of(old(mem)@),
                t,
                res.1,
                j,
            ),
        res.2@.wf(final(mem)@, t),
        res.0 == res.2@.root(),
        res.2@.members() == sh.members().remove(res.1),
        res.2@.size() + 1 == sh.size(),
        frame(old(mem)@, final(mem)@, t, res.2@.members()),
        keys_of(final(mem)@) == keys_of(old(mem)@),
    decreases sh,
{
    let ghost s0 = mem@;
    let ghost ks = keys_of(s0);
    let ghost a = sh.left_shape();
    let ghost c = sh.right_shape();
    proof {
        assert(sh == Shape::Branch { left: Box::new(a), idx: root, right: Box::new(c) });
        assert(a.repr(s0, t) && a.ordered(ks, t) && c.repr(s0, t) && c.ordered(ks, t));
        assert(!a.members().contains(root)) by {
            if a.members().contains(root) {
                assert(key_lt(ks, t, root, root));
            }
        }
        assert(!c.members().contains(root)) by {
            if c.members().contains(root) {
                assert(key_lt(ks, t, root, root));
            }
        }
        assert forall|i: usize| #[trigger] c.members().contains(i) implies !a.members().contains(i) by {
            assert(key_lt(ks, t, root, i));
            if a.members().contains(i) {
                assert(key_lt(ks, t, i, root));
            }
        }
    }
    let n = node_at(mem, t, root);
    match n.left {
        None => {
            proof {
                lemma_frame_refl(s0, t, c.members());
                assert(a == Shape::Leaf);
                assert(a.size() == 0);
                assert(c.size() + 1 == sh.size());
                assert(c.members() =~= sh.members().remove(root));
            }
            (n.right, root, Ghost(c))
        },
        Some(l) => {
            let (na, m, Ghost(ga)) = remove_min(mem, t, l, Ghost(a));
            let ghost s1 = mem@;
            set_node_at(mem, t, root, Node { left: na, right: n.right, size: n.size - 1 });
            let ghost s2 = mem@;
            let ghost nsh = Shape::Branch { left: Box::new(ga), idx: root, right: Box::new(c) };
            proof {
                lemma_frame_trans(s0, s1, s2, t, ga.members(), set![root], ga.members().insert(root));
                assert(nsh.members() =~= sh.members().remove(m));
                lemma_frame_trans(s0, s1, s2, t, ga.members(), set![root], nsh.members());
                assert forall|i: usize| #[trigger] c.members().contains(i) implies !ga.members().insert(
                    root,
                ).contains(i) by {}
                lemma_repr_frame(c, s0, s2, t, ga.members().insert(root));
                lemma_repr_frame(ga, s1, s2, t, set![root]);
                assert(nsh.repr(s2, t));
                assert(nsh.ordered(ks, t));
                assert forall|j: usize| #[trigger] sh.members().contains(j) && j != m implies key_lt(
                    ks,
                    t,
                    m,
                    j,
                ) by {
                    assert(key_lt(ks, t, m, root));
                    if c.members().contains(j) {
                        assert(key_lt(ks, t, root, j));
                    }
                }
            }
            (Some(root), m, Ghost(nsh))
        },
    }
}

/// Removes record `idx` from the subtree at `root`; returns the new subtree
/// root. A record with two children is replaced by its successor, which is
/// detached from the right subtree before it is spliced in.
pub fn remove_node(
    mem: &mut Vec<RawLink>,
    t: Tree,
    root: Option<usize>,
    idx: usize,
    Ghost(sh): Ghost<Shape>,
) -> (res: (Option<usize>, Ghost<Shape>))
    requires
        sh.wf(old(mem)@, t),
        root == sh.root(),
        sh.members().contains(idx),
    ensures
        res.1@.wf(final(mem)@, t),
        res.0 == res.1@.root(),
        res.1@.members() == sh.members().remove(idx),
        res.1@.size() + 1 == sh.size(),
        frame(old(mem)@, final(mem)@, t, sh.members()),
        keys_of(final(mem)@) == keys_of(old(mem)@),
    decreases sh,
{
    let ghost s0 = mem@;
    let ghost ks = keys_of(s0);
    let ghost a = sh.left_shape();
    let ghost c = sh.right_shape();
    let r = root.unwrap();
    proof {
        assert(sh == Shape::Branch { left: Box::new(a), idx: r, right: Box::new(c) });
        assert(a.repr(s0, t) && a.ordered(ks, t) && c.repr(s0, t) && c.ordered(ks, t));
        assert(!a.members().contains(r)) by {
            if a.members().contains(r) {
                assert(key_lt(ks, t, r, r));
            }
        }
        assert(!c.members().contains(r)) by {
            if c.members().contains(r) {
                assert(key_lt(ks, t, r, r));
            }
        }
        assert forall|i: usize| #[trigger] c.members().contains(i) implies !a.members().contains(i) by {
            assert(key_lt(ks, t, r, i));
            if a.members().contains(i) {
                assert(key_lt(ks, t, i, r));
            }
        }
        lemma_wf_facts(sh, s0, t);
        lemma_frame_refl(s0, t, sh.members());
    }
    let n = node_at(mem, t, r);
    if idx == r {
        match (n.left, n.right) {
            (None, _) => {
                proof {
                    assert(a.root() is None);
                    assert(a == Shape::Leaf);
                    assert(a.size() == 0);
                    assert(c.members() =~= sh.members().remove(idx));
                }
                (n.right, Ghost(c))
            },
            (Some(_), None) => {
                proof {
                    assert(c.root() is None);
                    assert(c == Shape::Leaf);
                    assert(c.size() == 0);
                    assert(a.members() =~= sh.members().remove(idx));
                }
                (n.left, Ghost(a))
            },
            (Some(_), Some(rr)) => {
                let (nc, m, Ghost(gc)) = remove_min(mem, t, rr, Ghost(c));
                let ghost s1 = mem@;
                proof {
                    assert(sh.members().contains(m));
                }
                set_node_at(mem, t, m, Node { left: n.left, right: nc, size: n.size - 1 });
                let ghost s2 = mem@;
                let ghost nsh = Shape::Branch { left: Box::new(a), idx: m, right: Box::new(gc) };
                proof {
                    lemma_frame_trans(s0, s1, s2, t, gc.members(), set![m], c.members());
                    lemma_frame_trans(s0, s1, s2, t, gc.members(), set![m], sh.members());
                    lemma_repr_frame(a, s0, s2, t, c.members());
                    lemma_repr_frame(gc, s1, s2, t, set![m]);
                    assert(node_of(s2[m as int], t) == Node { left: n.left, right: nc, size: (n.size - 1) as usize }) by {
                        match t {
                            Tree::Source => {},
                            Tree::Target => {},
                        }
                    }
                    assert(nsh.size() + 1 == sh.size());
                    assert(nsh.repr(s2, t));
                    assert forall|j: usize| #[trigger] a.members().contains(j) implies key_lt(
                        ks,
                        t,
                        j,
                        m,
                    ) by {
                        assert(key_lt(ks, t, j, r));
                        assert(key_lt(ks, t, r, m));
                    }
                    assert forall|j: usize| #[trigger] gc.members().contains(j) implies key_lt(
                        ks,
                        t,
                        m,
                        j,
                    ) by {
                        assert(c.members().contains(j));
                    }
                    assert(nsh.ordered(ks, t));
                    assert(nsh.members() =~= sh.members().remove(idx));
                }
                (Some(m), Ghost(nsh))
            },
        }
    } else if is_left_of(mem, t, idx, r) {
        proof {
            if c.members().contains(idx) {
                assert(key_lt(ks, t, r, idx));
            }
        }
        let (na, Ghost(ga)) = remove_node(mem, t, n.left, idx, Ghost(a));
        let ghost s1 = mem@;
        set_node_at(mem, t, r, Node { left: na, right: n.right, size: n.size - 1 });
        let ghost s2 = mem@;
        let ghost nsh = Shape::Branch { left: Box::new(ga), idx: r, right: Box::new(c) };
        proof {
            lemma_frame_trans(s0, s1, s2, t, a.members(), set![r], a.members().insert(r));
            lemma_frame_trans(s0, s1, s2, t, a.members(), set![r], sh.members());
            lemma_repr_frame(c, s0, s2, t, a.members().insert(r));
            lemma_repr_frame(ga, s1, s2, t, set![r]);
            assert(nsh.repr(s2, t));
            assert(nsh.ordered(ks, t));
            assert(nsh.members() =~= sh.members().remove(idx));
        }
        (Some(r), Ghost(nsh))
    } else {
        proof {
            if a.members().contains(idx) {
                assert(key_lt(ks, t, idx, r));
            }
        }
        let (nc, Ghost(gc)) = remove_node(mem, t, n.right, idx, Ghost(c));
        let ghost s1 = mem@;
        set_node_at(mem, t, r, Node { left: n.left, right: nc, size: n.size - 1 });
        let ghost s2 = mem@;
        let ghost nsh = Shape::Branch { left: Box::new(a), idx: r, right: Box::new(gc) };
        proof {
            lemma_frame_trans(s0, s1, s2, t, c.members(), set![r], c.members().insert(r));
            lemma_frame_trans(s0, s1, s2, t, c.members(), set![r], sh.members());
            assert forall|i: usize| #[trigger] a.members().contains(i) implies !c.members().insert(
                r,
            ).contains(i) by {}
            lemma_repr_frame(a, s0, s2, t, c.members().insert(r));
            lemma_repr_frame(gc, s1, s2, t, set![r]);
            assert(nsh.repr(s2, t));
            assert(nsh.ordered(ks, t));
            assert(nsh.members() =~= sh.members().remove(idx));
        }
        (Some(r), Ghost(nsh))
    }
}


/// Whether record `idx` is in the subtree at `root`.
pub fn contains(mem: &Vec<RawLink>, t: Tree, root: Option<usize>, idx: usize, Ghost(sh): Ghost<Shape>) -> (r: bool)
    requires
        sh.wf(mem@, t),
        root == sh.root(),
        idx < mem@.len(),
    ensures
        r == sh.members().contains(idx),
    decreases sh,
{
    let ghost ks = keys_of(mem@);
    match root {
        None => false,
        Some(r) => {
            let ghost a = sh.left_shape();
            let ghost c = sh.right_shape();
            proof {
                assert(sh == Shape::Branch { left: Box::new(a), idx: r, right: Box::new(c) });
                assert(a.repr(mem@, t) && a.ordered(ks, t) && c.repr(mem@, t) && c.ordered(ks, t));
            }
            if idx == r {
                true
            } else if is_left_of(mem, t, idx, r) {
                proof {
                    if c.members().contains(idx) {
                        assert(key_lt(ks, t, r, idx));
                    }
                }
                contains(mem, t, node_at(mem, t, r).left, idx, Ghost(a))
            } else {
                proof {
                    if a.members().contains(idx) {
                        assert(key_lt(ks, t, idx, r));
                    }
                }
                contains(mem, t, node_at(mem, t, r).right, idx, Ghost(c))
            }
        },
    }
}

/// What `find` returns: a record whose components are `(a, b)`, if the tree
/// holds one.
pub proof fn lemma_find(sh: Shape, ks: Seq<(usize, usize)>, t: Tree, a: int, b: int)
    requires
        sh.ordered(ks, t),
    ensures
        sh.find(ks, t, a, b) matches Some(i) ==> sh.members().contains(i) && major(ks, t, i) == a
            && minor(ks, t, i) == b,
        sh.find(ks, t, a, b) is None ==> forall|j: usize| #[trigger]
            sh.members().contains(j) ==> !(major(ks, t, j) == a && minor(ks, t, j) == b),
    decreases sh,
{
    match sh {
        Shape::Leaf => {},
        Shape::Branch { left, idx, right } => {
            lemma_find(*left, ks, t, a, b);
            lemma_find(*right, ks, t, a, b);
            if sh.find(ks, t, a, b) is None {
                assert forall|j: usize| #[trigger] sh.members().contains(j) implies !(major(ks, t, j)
                    == a && minor(ks, t, j) == b) by {
                    if left.members().contains(j) {
                        assert(key_lt(ks, t, j, idx));
                    }
                    if right.members().contains(j) {
                        assert(key_lt(ks, t, idx, j));
                    }
                }
            }
        },
    }
}

/// Descends by the pair `(a, b)` to a record with those components.
pub fn find(mem: &Vec<RawLink>, t: Tree, root: Option<usize>, a: usize, b: usize, Ghost(sh): Ghost<Shape>) -> (r: Option<usize>)
    requires
        sh.wf(mem@, t),
        root == sh.root(),
    ensures
        r == sh.find(keys_of(mem@), t, a as int, b as int),
    decreases sh,
{
    let ghost ks = keys_of(mem@);
    match root {
        None => None,
        Some(r) => {
            let ghost sa = sh.left_shape();
            let ghost sc = sh.right_shape();
            proof {
                assert(sh == Shape::Branch { left: Box::new(sa), idx: r, right: Box::new(sc) });
                assert(sa.repr(mem@, t) && sa.ordered(ks, t) && sc.repr(mem@, t) && sc.ordered(ks, t));
            }
            let rec = mem[r];
            let (x, y) = match t {
                Tree::Source => (rec.source, rec.target),
                Tree::Target => (rec.target, rec.source),
            };
            if x == a && y == b {
                Some(r)
            } else if a < x || (a == x && b < y) {
                find(mem, t, node_at(mem, t, r).left, a, b, Ghost(sa))
            } else {
                find(mem, t, node_at(mem, t, r).right, a, b, Ghost(sc))
            }
        },
    }
}

/// A tree without a record of major component `v` selects nothing.
pub proof fn lemma_select_none(sh: Shape, ks: Seq<(usize, usize)>, t: Tree, v: int)
    requires
        forall|j: usize| #[trigger] sh.members().contains(j) ==> major(ks, t, j) != v,
    ensures
        sh.select(ks, t, v) == Seq::<usize>::empty(),
    decreases sh,
{
    match sh {
        Shape::Leaf => {},
        Shape::Branch { left, idx, right } => {
            assert(sh.members().contains(idx));
            assert forall|j: usize| #[trigger] left.members().contains(j) implies major(ks, t, j) != v by {
                assert(sh.members().contains(j));
            }
            assert forall|j: usize| #[trigger] right.members().contains(j) implies major(ks, t, j) != v by {
                assert(sh.members().contains(j));
            }
            lemma_select_none(*left, ks, t, v);
            lemma_select_none(*right, ks, t, v);
            assert(sh.select(ks, t, v) =~= Seq::<usize>::empty());
        },
    }
}

/// `select` lists exactly the records whose major component is `v`, in
/// strictly increasing tree order.
pub proof fn lemma_select(sh: Shape, ks: Seq<(usize, usize)>, t: Tree, v: int)
    requires
        sh.ordered(ks, t),
    ensures
        forall|k: int|
            0 <= k < sh.select(ks, t, v).len() ==> sh.members().contains(
                #[trigger] sh.select(ks, t, v)[k],
            ) && major(ks, t, sh.select(ks, t, v)[k]) == v,
        forall|j: usize| #[trigger]
            sh.members().contains(j) && major(ks, t, j) == v ==> sh.select(ks, t, v).contains(j),
        forall|x: int, y: int|
            0 <= x < y < sh.select(ks, t, v).len() ==> key_lt(
                ks,
                t,
                #[trigger] sh.select(ks, t, v)[x],
                #[trigger] sh.select(ks, t, v)[y],
            ),
    decreases sh,
{
    match sh {
        Shape::Leaf => {},
        Shape::Branch { left, idx, right } => {
            lemma_select(*left, ks, t, v);
            lemma_select(*right, ks, t, v);
            let sl = left.select(ks, t, v);
            let sm: Seq<usize> = if major(ks, t, idx) == v {
                seq![idx]
            } else {
                Seq::empty()
            };
            let sr = right.select(ks, t, v);
            let all = sh.select(ks, t, v);
            assert(all == sl + sm + sr);
            assert forall|k: int| 0 <= k < all.len() implies sh.members().contains(#[trigger] all[k])
                && major(ks, t, all[k]) == v by {
                if k < sl.len() {
                    assert(all[k] == sl[k]);
                } else if k < sl.len() + sm.len() {
                    assert(all[k] == sm[k - sl.len()]);
                } else {
                    assert(all[k] == sr[k - sl.len() - sm.len()]);
                }
            }
            assert forall|j: usize| #[trigger]
                sh.members().contains(j) && major(ks, t, j) == v implies all.contains(j) by {
                if left.members().contains(j) {
                    let k = choose|k: int| 0 <= k < sl.len() && sl[k] == j;
                    assert(all[k] == j);
                } else if right.members().contains(j) {
                    let k = choose|k: int| 0 <= k < sr.len() && sr[k] == j;
                    assert(all[k + sl.len() + sm.len()] == j);
                } else {
                    assert(j == idx);
                    assert(all[sl.len() as int] == j);
                }
            }
            assert forall|x: int, y: int| 0 <= x < y < all.len() implies key_lt(
                ks,
                t,
                #[trigger] all[x],
                #[trigger] all[y],
            ) by {
                let p = sl.len() as int;
                let q = p + sm.len();
                if y < p {
                    assert(all[x] == sl[x] && all[y] == sl[y]);
                } else if x >= q {
                    assert(all[x] == sr[x - q] && all[y] == sr[y - q]);
                } else {
                    // the two entries lie in different parts
                    let ex = all[x];
                    let ey = all[y];
                    if x < p {
                        assert(ex == sl[x]);
                        assert(left.members().contains(ex));
                        assert(key_lt(ks, t, ex, idx));
                        if y < q {
                            assert(ey == idx);
                        } else {
                            assert(ey == sr[y - q]);
                            assert(right.members().contains(ey));
                            assert(key_lt(ks, t, idx, ey));
                        }
                    } else {
                        assert(ex == idx);
                        assert(y >= q);
                        assert(ey == sr[y - q]);
                        assert(right.members().contains(ey));
                    }
                }
            }
        },
    }
}

/// Appends to `out` the records of the subtree at `root` whose major
/// component is `v`, in tree order, skipping subtrees that cannot hold one.
pub fn collect_major(
    mem: &Vec<RawLink>,
    t: Tree,
    root: Option<usize>,
    v: usize,
    out: &mut Vec<usize>,
    Ghost(sh): Ghost<Shape>,
)
    requires
        sh.wf(mem@, t),
        root == sh.root(),
    ensures
        final(out)@ == old(out)@ + sh.select(keys_of(mem@), t, v as int),
    decreases sh,
{
    let ghost ks = keys_of(mem@);
    match root {
        None => {
            assert(final(out)@ =~= old(out)@ + sh.select(ks, t, v as int));
        },
        Some(r) => {
            let ghost sa = sh.left_shape();
            let ghost sc = sh.right_shape();
            proof {
                assert(sh == Shape::Branch { left: Box::new(sa), idx: r, right: Box::new(sc) });
                assert(sa.repr(mem@, t) && sa.ordered(ks, t) && sc.repr(mem@, t) && sc.ordered(ks, t));
            }
            let rec = mem[r];
            let x = match t {
                Tree::Source => rec.source,
                Tree::Target => rec.target,
            };
            let n = node_at(mem, t, r);
            if x < v {
                proof {
                    assert forall|j: usize| #[trigger] sa.members().contains(j) implies major(ks, t, j)
                        != v by {
                        assert(key_lt(ks, t, j, r));
                    }
                    lemma_select_none(sa, ks, t, v as int);
                    assert(sh.select(ks, t, v as int) =~= sc.select(ks, t, v as int));
                }
                collect_major(mem, t, n.right, v, out, Ghost(sc));
            } else if x > v {
                proof {
                    assert forall|j: usize| #[trigger] sc.members().contains(j) implies major(ks, t, j)
                        != v by {
                        assert(key_lt(ks, t, r, j));
                    }
                    lemma_select_none(sc, ks, t, v as int);
                    assert(sh.select(ks, t, v as int) =~= sa.select(ks, t, v as int));
                }
                collect_major(mem, t, n.left, v, out, Ghost(sa));
            } else {
                let ghost o0 = out@;
                collect_major(mem, t, n.left, v, out, Ghost(sa));
                out.push(r);
                collect_major(mem, t, n.right, v, out, Ghost(sc));
                proof {
                    assert(out@ =~= o0 + sh.select(ks, t, v as int));
                }
            }
        },
    }
}


/// Inserts record `idx` into the tree at `root`; a record already in the
/// tree leaves it unchanged. Returns the new root.
pub fn insert(mem: &mut Vec<RawLink>, t: Tree, root: Option<usize>, idx: usize, Ghost(sh): Ghost<Shape>) -> (res: (
    Option<usize>,
    Ghost<Shape>,
))
    requires
        sh.wf(old(mem)@, t),
        root == sh.root(),
        idx < old(mem)@.len(),
        sh.size() < usize::MAX,
    ensures
        res.1@.wf(final(mem)@, t),
        res.0 == res.1@.root(),
        res.1@.members() == sh.members().insert(idx),
        sh.members().contains(idx) ==> final(mem)@ == old(mem)@ && res.1@ == sh,
        !sh.members().contains(idx) ==> res.1@.size() == sh.size() + 1,
        frame(old(mem)@, final(mem)@, t, sh.members().insert(idx)),
        keys_of(final(mem)@) == keys_of(old(mem)@),
{
    if contains(mem, t, root, idx, Ghost(sh)) {
        proof {
            lemma_frame_refl(mem@, t, sh.members().insert(idx));
            assert(sh.members().insert(idx) =~= sh.members());
        }
        return (root, Ghost(sh));
    }
    insert_node(mem, t, root, idx, Ghost(sh))
}

/// Removes record `idx` from the tree at `root`; a record not in the tree
/// leaves it unchanged, sizes included. Returns the new root.
pub fn remove(mem: &mut Vec<RawLink>, t: Tree, root: Option<usize>, idx: usize, Ghost(sh): Ghost<Shape>) -> (res: (
    Option<usize>,
    Ghost<Shape>,
))
    requires
        sh.wf(old(mem)@, t),
        root == sh.root(),
        idx < old(mem)@.len(),
    ensures
        res.1@.wf(final(mem)@, t),
        res.0 == res.1@.root(),
        res.1@.members() == sh.members().remove(idx),
        !sh.members().contains(idx) ==> final(mem)@ == old(mem)@ && res.1@ == sh,
        frame(old(mem)@, final(mem)@, t, sh.members()),
        keys_of(final(mem)@) == keys_of(old(mem)@),
{
    if !contains(mem, t, root, idx, Ghost(sh)) {
        proof {
            lemma_frame_refl(mem@, t, sh.members());
            assert(sh.members().remove(idx) =~= sh.members());
        }
        return (root, Ghost(sh));
    }
    remove_node(mem, t, root, idx, Ghost(sh))
}

} // verus!
