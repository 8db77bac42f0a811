use vstd::prelude::*;

verus! {

/// Tree-node fields embedded in a link record: children are record indices,
/// `size` is the number of records in the subtree rooted here.
#[derive(Debug, Clone, Copy)]
pub struct Node {
    pub left: Option<usize>,
    pub right: Option<usize>,
    pub size: usize,
}

impl Node {
    /// The node of a record that is in no tree.
    pub fn null() -> (r: Node)
        ensures
            r == Node::null_spec(),
    {
        Node { left: None, right: None, size: 0 }
    }

    pub open spec fn null_spec() -> Node {
        Node { left: None, right: None, size: 0 }
    }
}

/// One slot of the slab: a link's components, its free marker, and its node
/// in each of the two index trees.
#[derive(Debug, Clone, Copy)]
pub struct RawLink {
    pub source: usize,
    pub target: usize,
    pub source_tree: Node,
    pub target_tree: Node,
    pub is_free: bool,
}

impl RawLink {
    /// An unused slot: both components zero, live, in no tree.
    pub fn zeroed() -> (r: RawLink)
        ensures
            r == RawLink::zeroed_spec(),
    {
        RawLink {
            source: 0,
            target: 0,
            source_tree: Node::null(),
            target_tree: Node::null(),
            is_free: false,
        }
    }

    pub open spec fn zeroed_spec() -> RawLink {
        RawLink {
            source: 0,
            target: 0,
            source_tree: Node::null_spec(),
            target_tree: Node::null_spec(),
            is_free: false,
        }
    }
}

/// Which of the two index trees: ordered by `(source, target)` or by
/// `(target, source)`, ties broken by the record index.
#[derive(Debug, Clone, Copy, PartialEq, Eq, Structural)]
pub enum Tree {
    Source,
    Target,
}

/// The node that record `r` holds for tree `t`.
pub open spec fn node_of(r: RawLink, t: Tree) -> Node {
    match t {
        Tree::Source => r.source_tree,
        Tree::Target => r.target_tree,
    }
}

/// Record `r` with its node for tree `t` replaced by `n`.
pub open spec fn with_node(r: RawLink, t: Tree, n: Node) -> RawLink {
    match t {
        Tree::Source => RawLink { source_tree: n, ..r },
        Tree::Target => RawLink { target_tree: n, ..r },
    }
}

/// The `(source, target)` pair of every slot.
pub open spec fn keys_of(s: Seq<RawLink>) -> Seq<(usize, usize)> {
    s.map_values(|r: RawLink| (r.source, r.target))
}

/// The component that tree `t` orders by first.
pub open spec fn major(ks: Seq<(usize, usize)>, t: Tree, i: usize) -> int {
    match t {
        Tree::Source => ks[i as int].0 as int,
        Tree::Target => ks[i as int].1 as int,
    }
}

/// The component that tree `t` orders by second.
pub open spec fn minor(ks: Seq<(usize, usize)>, t: Tree, i: usize) -> int {
    match t {
        Tree::Source => ks[i as int].1 as int,
        Tree::Target => ks[i as int].0 as int,
    }
}

/// Lexicographic order on triples.
pub open spec fn lex3(a1: int, a2: int, a3: int, b1: int, b2: int, b3: int) -> bool {
    a1 < b1 || (a1 == b1 && (a2 < b2 || (a2 == b2 && a3 < b3)))
}

/// Record `a` comes before record `b` in tree `t`.
pub open spec fn key_lt(ks: Seq<(usize, usize)>, t: Tree, a: usize, b: usize) -> bool {
    lex3(major(ks, t, a), minor(ks, t, a), a as int, major(ks, t, b), minor(ks, t, b), b as int)
}

/// `s2` differs from `s1` at most in the tree-`t` nodes of the slots in `touched`.
pub open spec fn frame(s1: Seq<RawLink>, s2: Seq<RawLink>, t: Tree, touched: Set<usize>) -> bool {
    &&& s1.len() == s2.len()
    &&& forall|i: int|
        0 <= i < s1.len() ==> #[trigger] s2[i] == with_node(s1[i], t, node_of(s2[i], t))
    &&& forall|i: int|
        0 <= i < s1.len() && !touched.contains(i as usize) ==> #[trigger] s2[i] == s1[i]
}

pub proof fn lemma_frame_keys(s1: Seq<RawLink>, s2: Seq<RawLink>, t: Tree, touched: Set<usize>)
    requires
        frame(s1, s2, t, touched),
    ensures
        keys_of(s2) == keys_of(s1),
{
    assert forall|i: int| 0 <= i < s1.len() implies #[trigger] keys_of(s2)[i] == keys_of(s1)[i] by {
        assert(s2[i] == with_node(s1[i], t, node_of(s2[i], t)));
    }
    assert(keys_of(s2) =~= keys_of(s1));
}

pub proof fn lemma_frame_trans(
    s1: Seq<RawLink>,
    s2: Seq<RawLink>,
    s3: Seq<RawLink>,
    t: Tree,
    a: Set<usize>,
    b: Set<usize>,
    c: Set<usize>,
)
    requires
        frame(s1, s2, t, a),
        frame(s2, s3, t, b),
        a.subset_of(c),
        b.subset_of(c),
    ensures
        frame(s1, s3, t, c),
{
    assert forall|i: int| 0 <= i < s1.len() implies #[trigger] s3[i] == with_node(
        s1[i],
        t,
        node_of(s3[i], t),
    ) by {
        assert(s2[i] == with_node(s1[i], t, node_of(s2[i], t)));
        assert(s3[i] == with_node(s2[i], t, node_of(s3[i], t)));
    }
    assert forall|i: int| 0 <= i < s1.len() && !c.contains(i as usize) implies #[trigger] s3[i]
        == s1[i] by {
        assert(s2[i] == s1[i]);
        assert(s3[i] == s2[i]);
    }
}

pub proof fn lemma_frame_refl(s: Seq<RawLink>, t: Tree, c: Set<usize>)
    ensures
        frame(s, s, t, c),
{
    assert forall|i: int| 0 <= i < s.len() implies #[trigger] s[i] == with_node(
        s[i],
        t,
        node_of(s[i], t),
    ) by {
        match t {
            Tree::Source => {},
            Tree::Target => {},
        }
    }
}

/// Reads the tree-`t` node of slot `i`.
pub fn node_at(mem: &Vec<RawLink>, t: Tree, i: usize) -> (n: Node)
    requires
        i < mem@.len(),
    ensures
        n == node_of(mem@[i as int], t),
{
    match t {
        Tree::Source => mem[i].source_tree,
        Tree::Target => mem[i].target_tree,
    }
}

/// Writes the tree-`t` node of slot `i`, leaving everything else as it was.
pub fn set_node_at(mem: &mut Vec<RawLink>, t: Tree, i: usize, n: Node)
    requires
        i < old(mem)@.len(),
    ensures
        final(mem)@ == old(mem)@.update(i as int, with_node(old(mem)@[i as int], t, n)),
        frame(old(mem)@, final(mem)@, t, set![i]),
        keys_of(final(mem)@) == keys_of(old(mem)@),
{
    match t {
        Tree::Source => {
            mem[i].source_tree = n;
        },
        Tree::Target => {
            mem[i].target_tree = n;
        },
    }
    assert(final(mem)@ =~= old(mem)@.update(i as int, with_node(old(mem)@[i as int], t, n)));
    proof {
        let s1 = old(mem)@;
        let s2 = mem@;
        assert forall|j: int| 0 <= j < s1.len() implies #[trigger] s2[j] == with_node(
            s1[j],
            t,
            node_of(s2[j], t),
        ) by {
            match t {
                Tree::Source => {},
                Tree::Target => {},
            }
        }
        lemma_frame_keys(s1, s2, t, set![i]);
    }
}

/// Whether slot `a` comes before slot `b` in tree `t`.
pub fn is_left_of(mem: &Vec<RawLink>, t: Tree, a: usize, b: usize) -> (r: bool)
    requires
        a < mem@.len(),
        b < mem@.len(),
    ensures
        r == key_lt(keys_of(mem@), t, a, b),
{
    let ra = mem[a];
    let rb = mem[b];
    let (a1, a2, b1, b2) = match t {
        Tree::Source => (ra.source, ra.target, rb.source, rb.target),
        Tree::Target => (ra.target, ra.source, rb.target, rb.source),
    };
    a1 < b1 || (a1 == b1 && (a2 < b2 || (a2 == b2 && a < b)))
}

} // verus!
