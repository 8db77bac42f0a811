use vstd::prelude::*;
use crate::error::Error;
use crate::link::{Link, ANY};
use crate::node::{frame, key_lt, keys_of, lemma_frame_keys, Node, RawLink, Tree};
use crate::sbt::{
    insert, lemma_other_tree, lemma_repr_same, lemma_wf_facts, remove, Shape,
};
use crate::slab::Alloc;

verus! {

/// Number of records a new store reserves.
pub const INITIAL_CAPACITY: usize = 1024;

/// The live links of a slab: every slot in `[1, allocated)` not marked free.
pub open spec fn live_map(s: Seq<RawLink>, allocated: usize) -> Map<usize, (usize, usize)> {
    Map::new(
        |i: usize| 1 <= i < allocated && i < s.len() && !s[i as int].is_free,
        |i: usize| (s[i as int].source, s[i as int].target),
    )
}

/// The free list `fl` is a chain through the `source` fields of free slots,
/// ending in `0`, without repeats, and it holds every free slot.
pub open spec fn free_list_ok(
    s: Seq<RawLink>,
    allocated: usize,
    fl: Seq<usize>,
    first_free: Option<usize>,
) -> bool {
    &&& first_free == (if fl.len() == 0 {
        None
    } else {
        Some(fl[0])
    })
    &&& forall|k: int|
        0 <= k < fl.len() ==> 1 <= #[trigger] fl[k] < allocated && s[fl[k] as int].is_free
            && s[fl[k] as int].source == (if k + 1 < fl.len() {
            fl[k + 1]
        } else {
            0
        })
    &&& fl.no_duplicates()
    &&& forall|i: usize| 1 <= i < allocated && #[trigger] s[i as int].is_free ==> fl.contains(i)
}

/// Two slabs of equal length that agree on every slot's link and free marker.
pub open spec fn same_links(s1: Seq<RawLink>, s2: Seq<RawLink>) -> bool {
    &&& s1.len() == s2.len()
    &&& forall|i: int|
        0 <= i < s1.len() ==> (#[trigger] s2[i]).source == s1[i].source && s2[i].target
            == s1[i].target && s2[i].is_free == s1[i].is_free
}

pub proof fn lemma_frame_same_links(s1: Seq<RawLink>, s2: Seq<RawLink>, t: Tree, touched: Set<usize>)
    requires
        frame(s1, s2, t, touched),
    ensures
        same_links(s1, s2),
{
    assert forall|i: int| 0 <= i < s1.len() implies (#[trigger] s2[i]).source == s1[i].source
        && s2[i].target == s1[i].target && s2[i].is_free == s1[i].is_free by {
        assert(s2[i] == crate::node::with_node(s1[i], t, crate::node::node_of(s2[i], t)));
    }
}

pub proof fn lemma_same_links(
    s1: Seq<RawLink>,
    s2: Seq<RawLink>,
    allocated: usize,
    fl: Seq<usize>,
    first_free: Option<usize>,
)
    requires
        same_links(s1, s2),
        allocated <= s1.len(),
    ensures
        live_map(s2, allocated) == live_map(s1, allocated),
        free_list_ok(s1, allocated, fl, first_free) ==> free_list_ok(s2, allocated, fl, first_free),
{
    assert(live_map(s2, allocated) =~= live_map(s1, allocated));
    if free_list_ok(s1, allocated, fl, first_free) {
        assert forall|k: int| 0 <= k < fl.len() implies 1 <= #[trigger] fl[k] < allocated
            && s2[fl[k] as int].is_free && s2[fl[k] as int].source == (if k + 1 < fl.len() {
            fl[k + 1]
        } else {
            0
        }) by {
            assert(s1[fl[k] as int].is_free);
        }
        assert forall|i: usize| 1 <= i < allocated && #[trigger] s2[i as int].is_free implies fl.contains(
            i,
        ) by {
            assert(s1[i as int].is_free);
        }
    }
}

/// The link store: a slab of records, a free list threaded through the free
/// records, and two index trees embedded in the records.
pub struct Store {
    mem: Alloc<RawLink>,
    allocated: usize,
    free_count: usize,
    first_free: Option<usize>,
    source_root: Option<usize>,
    target_root: Option<usize>,
    source_shape: Ghost<Shape>,
    target_shape: Ghost<Shape>,
    free_list: Ghost<Seq<usize>>,
}

/// The `(source, target)` that `create` gives a link for a query of each arity.
pub open spec fn create_pair(q: Seq<usize>) -> (usize, usize) {
    if q.len() == 0 {
        (0, 0)
    } else if q.len() == 1 {
        (q[0], q[0])
    } else {
        (q[0], q[1])
    }
}

/// The index component of a query; absent components are the wildcard.
pub open spec fn q_index(q: Seq<usize>) -> usize {
    if q.len() >= 1 {
        q[0]
    } else {
        0
    }
}

/// The source component of a query.
pub open spec fn q_source(q: Seq<usize>) -> usize {
    if q.len() >= 2 {
        q[1]
    } else {
        0
    }
}

/// The target component of a query.
pub open spec fn q_target(q: Seq<usize>) -> usize {
    if q.len() >= 3 {
        q[2]
    } else {
        0
    }
}

/// A query that fixes source and target and leaves the index open: it is
/// answered by one lookup in the source tree.
pub open spec fn is_exact_pair(q: Seq<usize>) -> bool {
    q_index(q) == 0 && q_source(q) != 0 && q_target(q) != 0
}

/// The order in which `each` yields links for query `q`: by target within a
/// fixed source, by source within a fixed target, else by index.
pub open spec fn comes_before(q: Seq<usize>, a: Link, b: Link) -> bool {
    if q_index(q) == 0 && q_source(q) != 0 && q_target(q) == 0 {
        a.target < b.target || (a.target == b.target && a.index < b.index)
    } else if q_index(q) == 0 && q_source(q) == 0 && q_target(q) != 0 {
        a.source < b.source || (a.source == b.source && a.index < b.index)
    } else {
        a.index < b.index
    }
}

impl Store {
    /// The live links: index to `(source, target)`.
    pub closed spec fn view(&self) -> Map<usize, (usize, usize)> {
        live_map(self.mem.buf@, self.allocated)
    }

    /// First slot past those ever handed out.
    pub closed spec fn spec_allocated(&self) -> usize {
        self.allocated
    }

    /// Number of slots the slab holds.
    pub closed spec fn spec_capacity(&self) -> nat {
        self.mem.buf@.len()
    }

    /// The most recently freed slot, if any is free.
    pub closed spec fn free_head(&self) -> Option<usize> {
        self.first_free
    }

    /// Index that the next `create` hands out: the free-list head, else the
    /// first slot never used.
    pub open spec fn next_index(&self) -> usize {
        match self.free_head() {
            Some(h) => h,
            None => self.spec_allocated(),
        }
    }

    /// Whether `create` can find a slot: a free one, room in the slab, or
    /// room to double the slab.
    pub open spec fn can_allocate(&self) -> bool {
        ||| self.free_head() is Some
        ||| self.spec_allocated() + 1 < self.spec_capacity()
        ||| self.spec_capacity() + self.spec_capacity() <= usize::MAX
    }

    pub open spec fn link_of(&self, i: usize) -> Link {
        Link { index: i, source: self@[i].0, target: self@[i].1 }
    }

    /// Link `i` is live and agrees with every component of `q` that is not
    /// the wildcard.
    pub open spec fn matches(&self, q: Seq<usize>, i: usize) -> bool {
        &&& self@.contains_key(i)
        &&& (q_index(q) == 0 || q_index(q) == i)
        &&& (q_source(q) == 0 || q_source(q) == self@[i].0)
        &&& (q_target(q) == 0 || q_target(q) == self@[i].1)
    }

    /// What `each` guarantees of its result `r` for query `q`: only matching
    /// links, each as stored; none exactly when nothing matches; every match
    /// unless source and target are both fixed, in which case at most one;
    /// and in the order of `comes_before`.
    pub open spec fn each_post(&self, q: Seq<usize>, r: Seq<Link>) -> bool {
        &&& forall|k: int|
            0 <= k < r.len() ==> self.matches(q, (#[trigger] r[k]).index) && r[k] == self.link_of(
                r[k].index,
            )
        &&& (r.len() == 0 <==> forall|i: usize| !self.matches(q, i))
        &&& is_exact_pair(q) ==> r.len() <= 1
        &&& !is_exact_pair(q) ==> forall|i: usize| #[trigger]
            self.matches(q, i) ==> exists|k: int| 0 <= k < r.len() && (#[trigger] r[k]).index == i
        &&& forall|x: int, y: int|
            0 <= x < y < r.len() ==> comes_before(q, #[trigger] r[x], #[trigger] r[y])
    }

    /// The live links with index below `n`, by index.
    pub closed spec fn live_upto(&self, n: nat) -> Seq<Link>
        decreases n,
    {
        if n == 0 {
            Seq::empty()
        } else {
            self.live_upto((n - 1) as nat) + (if self@.contains_key((n - 1) as usize) {
                seq![self.link_of((n - 1) as usize)]
            } else {
                Seq::empty()
            })
        }
    }

    /// Exactly the links that `each` yields for query `q`.
    pub closed spec fn each_spec(&self, q: Seq<usize>) -> Seq<Link> {
        let ks = keys_of(self.mem.buf@);
        if q_index(q) != 0 {
            if self.matches(q, q_index(q)) {
                seq![self.link_of(q_index(q))]
            } else {
                Seq::empty()
            }
        } else if q_source(q) != 0 && q_target(q) != 0 {
            match self.source_shape@.find(ks, Tree::Source, q_source(q) as int, q_target(q) as int) {
                Some(i) => seq![self.link_of(i)],
                None => Seq::empty(),
            }
        } else if q_source(q) != 0 {
            self.source_shape@.select(ks, Tree::Source, q_source(q) as int).map_values(
                |i: usize| self.link_of(i),
            )
        } else if q_target(q) != 0 {
            self.target_shape@.select(ks, Tree::Target, q_target(q) as int).map_values(
                |i: usize| self.link_of(i),
            )
        } else {
            self.live_upto(self.allocated as nat)
        }
    }

    /// The store's invariant: slots below `allocated` are in use or on the
    /// free list, the free list is exact, both trees are well formed and hold
    /// exactly the live links, and the live count is `allocated - free - 1`.
    pub closed spec fn wf(&self) -> bool {
        let s = self.mem.buf@;
        &&& 1 <= self.allocated < s.len()
        &&& free_list_ok(s, self.allocated, self.free_list@, self.first_free)
        &&& self.free_count == self.free_list@.len()
        &&& self.source_shape@.wf(s, Tree::Source)
        &&& self.source_root == self.source_shape@.root()
        &&& self.source_shape@.members() == self@.dom()
        &&& self.target_shape@.wf(s, Tree::Target)
        &&& self.target_root == self.target_shape@.root()
        &&& self.target_shape@.members() == self@.dom()
        &&& self@.dom().finite()
        &&& self@.dom().len() + self.free_count + 1 == self.allocated
    }

    /// A store on `mem`, which grows by the initial capacity; fails when the
    /// slab cannot grow that far.
    pub fn new(mem: Alloc<RawLink>) -> (r: Result<Store, Error>)
        ensures
            r is Ok <==> mem@.len() + INITIAL_CAPACITY <= usize::MAX,
            r matches Ok(st) ==> st.wf() && st@ == Map::<usize, (usize, usize)>::empty()
                && st.next_index() == 1,
            r matches Err(e) ==> e == Error::AllocationFailed,
    {
        let mut mem = mem;
        if mem.len() > usize::MAX - INITIAL_CAPACITY {
            return Err(Error::AllocationFailed);
        }
        mem.grow_filled(INITIAL_CAPACITY, RawLink::zeroed());
        let st = Store {
            mem,
            allocated: 1,
            free_count: 0,
            first_free: None,
            source_root: None,
            target_root: None,
            source_shape: Ghost(Shape::Leaf),
            target_shape: Ghost(Shape::Leaf),
            free_list: Ghost(Seq::empty()),
        };
        proof {
            assert(st@ =~= Map::<usize, (usize, usize)>::empty());
            assert(st.source_shape@.members() =~= st@.dom());
            assert(st.target_shape@.members() =~= st@.dom());
        }
        Ok(st)
    }

    /// Whether `index` names a live link.
    pub fn link_exists(&self, index: usize) -> (r: bool)
        requires
            self.wf(),
        ensures
            r == self@.contains_key(index),
    {
        index != ANY && index < self.allocated && !self.mem.buf[index].is_free
    }

    /// The link at `index`, if it is live.
    pub fn get(&self, index: usize) -> (r: Option<Link>)
        requires
            self.wf(),
        ensures
            r == (if self@.contains_key(index) {
                Some(self.link_of(index))
            } else {
                None
            }),
    {
        if !self.link_exists(index) {
            return None;
        }
        let raw = self.mem.buf[index];
        Some(Link::new(index, raw.source, raw.target))
    }

    /// Number of live links.
    pub fn count_total(&self) -> (r: usize)
        requires
            self.wf(),
        ensures
            r == self@.len(),
    {
        self.allocated - self.free_count - 1
    }

    /// Takes a slot for a new link `(source, target)` and attaches it to both
    /// trees; returns its index.
    fn create_raw(&mut self, source: usize, target: usize) -> (r: Result<usize, Error>)
        requires
            old(self).wf(),
        ensures
            final(self).wf(),
            r is Ok <==> old(self).can_allocate(),
            r matches Ok(i) ==> i == old(self).next_index() && i != 0 && !old(self)@.contains_key(i)
                && final(self)@ == old(self)@.insert(i, (source, target)),
            r matches Err(e) ==> e == Error::AllocationFailed && final(self)@ == old(self)@
                && final(self).next_index() == old(self).next_index(),
    {
        let ghost s0 = self.mem.buf@;
        let ghost a0 = self.allocated;
        let ghost fl0 = self.free_list@;
        let ghost v0 = self@;
        let ghost ss0 = self.source_shape@;
        let ghost ts0 = self.target_shape@;
        let i: usize;
        match self.first_free {
            Some(h) => {
                let next = self.mem.buf[h].source;
                proof {
                    assert(fl0[0] == h);
                    assert(fl0.len() > 1 ==> fl0[1] >= 1);
                }
                self.first_free = if next == 0 {
                    None
                } else {
                    Some(next)
                };
                self.free_count = self.free_count - 1;
                self.free_list = Ghost(fl0.drop_first());
                i = h;
            },
            None => {
                let a = self.allocated;
                let len = self.mem.buf.len();
                if a + 1 >= len {
                    if len > usize::MAX - len {
                        return Err(Error::AllocationFailed);
                    }
                    self.mem.grow_filled(len, RawLink::zeroed());
                }
                self.allocated = a + 1;
                i = a;
            },
        }
        let ghost sg = self.mem.buf@;
        self.mem.buf.set(i, RawLink {
            source,
            target,
            source_tree: Node::null(),
            target_tree: Node::null(),
            is_free: false,
        });
        let ghost s1 = self.mem.buf@;
        proof {
            lemma_wf_facts(ss0, s0, Tree::Source);
            lemma_wf_facts(ts0, s0, Tree::Target);
            assert(!v0.contains_key(i));
            assert forall|j: usize| #[trigger] ss0.members().contains(j) && j < s0.len() implies j
                < s1.len() && s1[j as int] == s0[j as int] by {
                assert(v0.contains_key(j));
            }
            assert forall|j: usize| #[trigger] ts0.members().contains(j) && j < s0.len() implies j
                < s1.len() && s1[j as int] == s0[j as int] by {
                assert(v0.contains_key(j));
            }
            lemma_repr_same(ss0, s0, s1, Tree::Source);
            lemma_repr_same(ts0, s0, s1, Tree::Target);
        }
        let (sr, Ghost(ss1)) = insert(&mut self.mem.buf, Tree::Source, self.source_root, i, Ghost(ss0));
        let ghost s2 = self.mem.buf@;
        proof {
            lemma_other_tree(ts0, s1, s2, Tree::Source, Tree::Target, ss0.members().insert(i));
            lemma_frame_same_links(s1, s2, Tree::Source, ss0.members().insert(i));
        }
        let (tr, Ghost(ts1)) = insert(&mut self.mem.buf, Tree::Target, self.target_root, i, Ghost(ts0));
        let ghost s3 = self.mem.buf@;
        proof {
            lemma_other_tree(ss1, s2, s3, Tree::Target, Tree::Source, ts0.members().insert(i));
            lemma_frame_same_links(s2, s3, Tree::Target, ts0.members().insert(i));
        }
        self.source_root = sr;
        self.target_root = tr;
        self.source_shape = Ghost(ss1);
        self.target_shape = Ghost(ts1);
        proof {
            let a1 = self.allocated;
            let fl1 = self.free_list@;
            lemma_same_links(s1, s3, a1, fl1, self.first_free);
            assert(live_map(s1, a1) =~= v0.insert(i, (source, target))) by {
                assert forall|j: usize| #[trigger] live_map(s1, a1).contains_key(j) <==> v0.insert(
                    i,
                    (source, target),
                ).contains_key(j) by {
                    if j != i && j < s0.len() {
                        assert(s1[j as int] == s0[j as int]);
                    }
                    if j == i {
                    } else if 1 <= j < a1 && j < s1.len() && !s1[j as int].is_free {
                        if a1 != a0 {
                            assert(j < a0);
                        }
                    }
                }
            }
            assert(free_list_ok(s1, a1, fl1, self.first_free)) by {
                assert forall|k: int| 0 <= k < fl1.len() implies 1 <= #[trigger] fl1[k] < a1
                    && s1[fl1[k] as int].is_free && s1[fl1[k] as int].source == (if k + 1
                    < fl1.len() {
                    fl1[k + 1]
                } else {
                    0
                }) by {
                    if a1 == a0 {
                        assert(fl1[k] == fl0[k + 1]);
                        assert(fl0[0] != fl0[k + 1]);
                    }
                    assert(fl1[k] != i);
                }
                assert forall|j: usize| 1 <= j < a1 && #[trigger] s1[j as int].is_free implies fl1.contains(
                    j,
                ) by {
                    assert(j != i);
                    assert(s0[j as int].is_free);
                    assert(fl0.contains(j));
                    if a1 == a0 {
                        let k = choose|k: int| 0 <= k < fl0.len() && fl0[k] == j;
                        assert(k != 0);
                        assert(fl1[k - 1] == j);
                    }
                }
                if a1 == a0 {
                    assert(fl1.len() > 0 ==> fl1[0] == fl0[1]);
                }
            }
        }
        Ok(i)
    }

    /// Detaches the live link `i` from both trees and pushes its slot onto
    /// the free list.
    fn delete_raw(&mut self, i: usize)
        requires
            old(self).wf(),
            old(self)@.contains_key(i),
        ensures
            final(self).wf(),
            final(self)@ == old(self)@.remove(i),
            final(self).next_index() == i,
    {
        let ghost s0 = self.mem.buf@;
        let ghost a0 = self.allocated;
        let ghost fl0 = self.free_list@;
        let ghost v0 = self@;
        let ghost ss0 = self.source_shape@;
        let ghost ts0 = self.target_shape@;
        let (sr, Ghost(ss1)) = remove(&mut self.mem.buf, Tree::Source, self.source_root, i, Ghost(ss0));
        let ghost s1 = self.mem.buf@;
        proof {
            lemma_other_tree(ts0, s0, s1, Tree::Source, Tree::Target, ss0.members());
            lemma_frame_same_links(s0, s1, Tree::Source, ss0.members());
        }
        let (tr, Ghost(ts1)) = remove(&mut self.mem.buf, Tree::Target, self.target_root, i, Ghost(ts0));
        let ghost s2 = self.mem.buf@;
        proof {
            lemma_other_tree(ss1, s1, s2, Tree::Target, Tree::Source, ts0.members());
            lemma_frame_same_links(s1, s2, Tree::Target, ts0.members());
            lemma_same_links(s0, s2, a0, fl0, self.first_free);
        }
        let next = match self.first_free {
            Some(h) => h,
            None => 0,
        };
        self.mem.buf.set(i, RawLink {
            source: next,
            target: 0,
            source_tree: Node::null(),
            target_tree: Node::null(),
            is_free: true,
        });
        let ghost s3 = self.mem.buf@;
        proof {
            lemma_wf_facts(ss1, s2, Tree::Source);
            lemma_wf_facts(ts1, s2, Tree::Target);
            assert forall|j: usize| #[trigger] ss1.members().contains(j) && j < s2.len() implies j
                < s3.len() && s3[j as int] == s2[j as int] by {}
            assert forall|j: usize| #[trigger] ts1.members().contains(j) && j < s2.len() implies j
                < s3.len() && s3[j as int] == s2[j as int] by {}
            lemma_repr_same(ss1, s2, s3, Tree::Source);
            lemma_repr_same(ts1, s2, s3, Tree::Target);
        }
        self.source_root = sr;
        self.target_root = tr;
        self.source_shape = Ghost(ss1);
        self.target_shape = Ghost(ts1);
        self.first_free = Some(i);
        self.free_count = self.free_count + 1;
        self.free_list = Ghost(seq![i] + fl0);
        proof {
            let fl1 = self.free_list@;
            assert(live_map(s3, a0) =~= v0.remove(i)) by {
                assert forall|j: usize| #[trigger] live_map(s3, a0).contains_key(j) <==> v0.remove(
                    i,
                ).contains_key(j) by {
                    if j != i && j < s0.len() {
                        assert(s3[j as int].is_free == s0[j as int].is_free);
                    }
                }
                assert forall|j: usize| #[trigger] live_map(s3, a0).contains_key(j) implies live_map(
                    s3,
                    a0,
                )[j] == v0.remove(i)[j] by {
                    assert(s3[j as int] == s2[j as int]);
                }
            }
            assert(!fl0.contains(i)) by {
                if fl0.contains(i) {
                    let k = choose|k: int| 0 <= k < fl0.len() && fl0[k] == i;
                    assert(s0[fl0[k] as int].is_free);
                }
            }
            assert(free_list_ok(s3, a0, fl1, self.first_free)) by {
                assert forall|k: int| 0 <= k < fl1.len() implies 1 <= #[trigger] fl1[k] < a0
                    && s3[fl1[k] as int].is_free && s3[fl1[k] as int].source == (if k + 1
                    < fl1.len() {
                    fl1[k + 1]
                } else {
                    0
                }) by {
                    if k > 0 {
                        assert(fl1[k] == fl0[k - 1]);
                        assert(fl1[k] != i);
                        assert(s3[fl1[k] as int] == s2[fl1[k] as int]);
                    }
                }
                assert forall|j: usize| 1 <= j < a0 && #[trigger] s3[j as int].is_free implies fl1.contains(
                    j,
                ) by {
                    if j == i {
                        assert(fl1[0] == j);
                    } else {
                        assert(s2[j as int].is_free);
                        let k = choose|k: int| 0 <= k < fl0.len() && fl0[k] == j;
                        assert(fl1[k + 1] == j);
                    }
                }
                assert(fl1.no_duplicates()) by {
                    assert forall|x: int, y: int| 0 <= x < fl1.len() && 0 <= y < fl1.len() && x != y
                        implies fl1[x] != fl1[y] by {
                        if x > 0 && y > 0 {
                            assert(fl1[x] == fl0[x - 1] && fl1[y] == fl0[y - 1]);
                        } else if x == 0 {
                            assert(fl1[y] == fl0[y - 1]);
                        } else {
                            assert(fl1[x] == fl0[x - 1]);
                        }
                    }
                }
            }
        }
    }

    /// Moves the live link `i` to `(source, target)`, re-placing it in both
    /// trees when a component changes.
    fn update_raw(&mut self, i: usize, source: usize, target: usize)
        requires
            old(self).wf(),
            old(self)@.contains_key(i),
        ensures
            final(self).wf(),
            final(self)@ == old(self)@.insert(i, (source, target)),
            final(self).next_index() == old(self).next_index(),
            final(self).can_allocate() == old(self).can_allocate(),
    {
        let ghost s0 = self.mem.buf@;
        let ghost a0 = self.allocated;
        let ghost fl0 = self.free_list@;
        let ghost v0 = self@;
        let ghost ss0 = self.source_shape@;
        let ghost ts0 = self.target_shape@;
        let raw = self.mem.buf[i];
        if raw.source == source && raw.target == target {
            proof {
                assert(v0.insert(i, (source, target)) =~= v0);
            }
            return ;
        }
        let (sr, Ghost(ss1)) = remove(&mut self.mem.buf, Tree::Source, self.source_root, i, Ghost(ss0));
        let ghost s1 = self.mem.buf@;
        proof {
            lemma_other_tree(ts0, s0, s1, Tree::Source, Tree::Target, ss0.members());
            lemma_frame_same_links(s0, s1, Tree::Source, ss0.members());
        }
        let (tr, Ghost(ts1)) = remove(&mut self.mem.buf, Tree::Target, self.target_root, i, Ghost(ts0));
        let ghost s2 = self.mem.buf@;
        proof {
            lemma_other_tree(ss1, s1, s2, Tree::Target, Tree::Source, ts0.members());
            lemma_frame_same_links(s1, s2, Tree::Target, ts0.members());
            lemma_same_links(s0, s2, a0, fl0, self.first_free);
        }
        self.mem.buf.set(i, RawLink {
            source,
            target,
            source_tree: Node::null(),
            target_tree: Node::null(),
            is_free: false,
        });
        let ghost s3 = self.mem.buf@;
        proof {
            lemma_wf_facts(ss0, s0, Tree::Source);
            lemma_wf_facts(ss1, s2, Tree::Source);
            lemma_wf_facts(ts1, s2, Tree::Target);
            assert forall|j: usize| #[trigger] ss1.members().contains(j) && j < s2.len() implies j
                < s3.len() && s3[j as int] == s2[j as int] by {}
            assert forall|j: usize| #[trigger] ts1.members().contains(j) && j < s2.len() implies j
                < s3.len() && s3[j as int] == s2[j as int] by {}
            lemma_repr_same(ss1, s2, s3, Tree::Source);
            lemma_repr_same(ts1, s2, s3, Tree::Target);
        }
        let (sr2, Ghost(ss2)) = insert(&mut self.mem.buf, Tree::Source, sr, i, Ghost(ss1));
        let ghost s4 = self.mem.buf@;
        proof {
            lemma_other_tree(ts1, s3, s4, Tree::Source, Tree::Target, ss1.members().insert(i));
            lemma_frame_same_links(s3, s4, Tree::Source, ss1.members().insert(i));
        }
        let (tr2, Ghost(ts2)) = insert(&mut self.mem.buf, Tree::Target, tr, i, Ghost(ts1));
        let ghost s5 = self.mem.buf@;
        proof {
            lemma_other_tree(ss2, s4, s5, Tree::Target, Tree::Source, ts1.members().insert(i));
            lemma_frame_same_links(s4, s5, Tree::Target, ts1.members().insert(i));
        }
        self.source_root = sr2;
        self.target_root = tr2;
        self.source_shape = Ghost(ss2);
        self.target_shape = Ghost(ts2);
        proof {
            lemma_same_links(s3, s5, a0, fl0, self.first_free);
            assert(v0.insert(i, (source, target)).dom() =~= v0.dom());
            assert(ss1.members().insert(i) =~= v0.dom());
            assert(ts1.members().insert(i) =~= v0.dom());
            assert(live_map(s3, a0) =~= v0.insert(i, (source, target))) by {
                assert forall|j: usize| #[trigger] live_map(s3, a0).contains_key(j) <==> v0.insert(
                    i,
                    (source, target),
                ).contains_key(j) by {
                    if j != i && j < s0.len() {
                        assert(s3[j as int].is_free == s0[j as int].is_free);
                    }
                }
            }
            assert(free_list_ok(s3, a0, fl0, self.first_free)) by {
                assert forall|k: int| 0 <= k < fl0.len() implies 1 <= #[trigger] fl0[k] < a0
                    && s3[fl0[k] as int].is_free && s3[fl0[k] as int].source == (if k + 1
                    < fl0.len() {
                    fl0[k + 1]
                } else {
                    0
                }) by {
                    assert(s0[fl0[k] as int].is_free);
                    assert(fl0[k] != i);
                }
                assert forall|j: usize| 1 <= j < a0 && #[trigger] s3[j as int].is_free implies fl0.contains(
                    j,
                ) by {
                    assert(s2[j as int].is_free);
                }
            }
        }
    }

    proof fn lemma_live_upto(&self, n: nat)
        requires
            n <= usize::MAX,
        ensures
            forall|k: int|
                0 <= k < self.live_upto(n).len() ==> (#[trigger] self.live_upto(n)[k]).index < n
                    && self@.contains_key(self.live_upto(n)[k].index) && self.live_upto(n)[k]
                    == self.link_of(self.live_upto(n)[k].index),
            forall|j: usize|
                j < n && #[trigger] self@.contains_key(j) ==> exists|k: int|
                    0 <= k < self.live_upto(n).len() && (#[trigger] self.live_upto(n)[k]).index == j,
            forall|x: int, y: int|
                0 <= x < y < self.live_upto(n).len() ==> (#[trigger] self.live_upto(n)[x]).index
                    < (#[trigger] self.live_upto(n)[y]).index,
        decreases n,
    {
        if n > 0 {
            let m = (n - 1) as nat;
            self.lemma_live_upto(m);
            let p = self.live_upto(m);
            let all = self.live_upto(n);
            assert forall|j: usize| j < n && #[trigger] self@.contains_key(j) implies exists|k: int|
                0 <= k < all.len() && (#[trigger] all[k]).index == j by {
                if j < m {
                    let k = choose|k: int| 0 <= k < p.len() && (#[trigger] p[k]).index == j;
                    assert(all[k] == p[k]);
                } else {
                    assert(all[p.len() as int].index == j);
                }
            }
            assert forall|k: int| 0 <= k < all.len() implies (#[trigger] all[k]).index < n
                && self@.contains_key(all[k].index) && all[k] == self.link_of(all[k].index) by {
                if k < p.len() {
                    assert(all[k] == p[k]);
                }
            }
            assert forall|x: int, y: int| 0 <= x < y < all.len() implies (#[trigger] all[x]).index
                < (#[trigger] all[y]).index by {
                assert(all[x] == p[x]);
                assert(p[x].index < m);
                if y < p.len() {
                    assert(all[y] == p[y]);
                } else {
                    assert(all[y] == self.link_of(m as usize));
                }
            }
        }
    }

    /// The live links are finitely many, and none has index zero.
    pub proof fn lemma_view_facts(&self)
        requires
            self.wf(),
        ensures
            self@.dom().finite(),
            !self@.contains_key(0),
    {
    }

    /// The size recorded in the root node of tree `t`; zero for an empty tree.
    pub closed spec fn root_size(&self, t: Tree) -> nat {
        let root = match t {
            Tree::Source => self.source_root,
            Tree::Target => self.target_root,
        };
        match root {
            Some(r) => crate::node::node_of(self.mem.buf@[r as int], t).size as nat,
            None => 0,
        }
    }

    /// At rest, the root of each tree records the number of live links.
    pub proof fn lemma_root_size(&self)
        requires
            self.wf(),
        ensures
            self.root_size(Tree::Source) == self@.len(),
            self.root_size(Tree::Target) == self@.len(),
    {
        lemma_wf_facts(self.source_shape@, self.mem.buf@, Tree::Source);
        lemma_wf_facts(self.target_shape@, self.mem.buf@, Tree::Target);
    }

    /// Whether a descent of tree `t` from its root reaches the record `index`;
    /// it does exactly for the live links.
    pub fn tree_contains(&self, t: Tree, index: usize) -> (r: bool)
        requires
            self.wf(),
        ensures
            r == self@.contains_key(index),
    {
        if index >= self.allocated {
            return false;
        }
        match t {
            Tree::Source => crate::sbt::contains(&self.mem.buf, t, self.source_root, index, self.source_shape),
            Tree::Target => crate::sbt::contains(&self.mem.buf, t, self.target_root, index, self.target_shape),
        }
    }

    /// The links that `each_spec` names meet `each_post`.
    pub proof fn lemma_each_spec(&self, q: Seq<usize>)
        requires
            self.wf(),
        ensures
            self.each_post(q, self.each_spec(q)),
    {
        let s = self.mem.buf@;
        let ks = keys_of(s);
        let r = self.each_spec(q);
        let ss = self.source_shape@;
        let ts = self.target_shape@;
        assert forall|i: usize| i < s.len() implies #[trigger] ks[i as int] == (
            s[i as int].source,
            s[i as int].target,
        ) by {}
        if q_index(q) != 0 {
            assert forall|i: usize| #[trigger] self.matches(q, i) implies i == q_index(q) by {}
            if self.matches(q, q_index(q)) {
                assert(r[0].index == q_index(q));
                assert(r.len() == 1);
            }
            assert(self.each_post(q, r));
        } else if q_source(q) != 0 && q_target(q) != 0 {
            crate::sbt::lemma_find(ss, ks, Tree::Source, q_source(q) as int, q_target(q) as int);
            lemma_wf_facts(ss, s, Tree::Source);
            match ss.find(ks, Tree::Source, q_source(q) as int, q_target(q) as int) {
                Some(i) => {
                    assert(self.matches(q, i));
                },
                None => {
                    assert forall|i: usize| !self.matches(q, i) by {
                        if self.matches(q, i) {
                            assert(ss.members().contains(i));
                        }
                    }
                },
            }
            assert(self.each_post(q, r));
        } else if q_source(q) != 0 {
            let v = q_source(q);
            crate::sbt::lemma_select(ss, ks, Tree::Source, v as int);
            lemma_wf_facts(ss, s, Tree::Source);
            let sel = ss.select(ks, Tree::Source, v as int);
            assert forall|k: int| 0 <= k < r.len() implies self.matches(q, (#[trigger] r[k]).index)
                && r[k] == self.link_of(r[k].index) by {
                assert(r[k] == self.link_of(sel[k]));
                assert(ss.members().contains(sel[k]));
            }
            assert forall|i: usize| #[trigger] self.matches(q, i) implies exists|k: int|
                0 <= k < r.len() && (#[trigger] r[k]).index == i by {
                assert(ss.members().contains(i));
                assert(sel.contains(i));
                let k = choose|k: int| 0 <= k < sel.len() && sel[k] == i;
                assert(r[k].index == i);
            }
            assert forall|x: int, y: int| 0 <= x < y < r.len() implies comes_before(
                q,
                #[trigger] r[x],
                #[trigger] r[y],
            ) by {
                assert(key_lt(ks, Tree::Source, sel[x], sel[y]));
                assert(ss.members().contains(sel[x]) && ss.members().contains(sel[y]));
                assert(r[x] == self.link_of(sel[x]) && r[y] == self.link_of(sel[y]));
            }
            if r.len() > 0 {
                assert(self.matches(q, r[0].index));
            }
            assert(self.each_post(q, r));
        } else if q_target(q) != 0 {
            let v = q_target(q);
            crate::sbt::lemma_select(ts, ks, Tree::Target, v as int);
            lemma_wf_facts(ts, s, Tree::Target);
            let sel = ts.select(ks, Tree::Target, v as int);
            assert forall|k: int| 0 <= k < r.len() implies self.matches(q, (#[trigger] r[k]).index)
                && r[k] == self.link_of(r[k].index) by {
                assert(r[k] == self.link_of(sel[k]));
                assert(ts.members().contains(sel[k]));
            }
            assert forall|i: usize| #[trigger] self.matches(q, i) implies exists|k: int|
                0 <= k < r.len() && (#[trigger] r[k]).index == i by {
                assert(ts.members().contains(i));
                assert(sel.contains(i));
                let k = choose|k: int| 0 <= k < sel.len() && sel[k] == i;
                assert(r[k].index == i);
            }
            assert forall|x: int, y: int| 0 <= x < y < r.len() implies comes_before(
                q,
                #[trigger] r[x],
                #[trigger] r[y],
            ) by {
                assert(key_lt(ks, Tree::Target, sel[x], sel[y]));
                assert(ts.members().contains(sel[x]) && ts.members().contains(sel[y]));
                assert(r[x] == self.link_of(sel[x]) && r[y] == self.link_of(sel[y]));
            }
            if r.len() > 0 {
                assert(self.matches(q, r[0].index));
            }
        } else {
            self.lemma_live_upto(self.allocated as nat);
            assert forall|i: usize| #[trigger] self.matches(q, i) implies exists|k: int|
                0 <= k < r.len() && (#[trigger] r[k]).index == i by {
                assert(self@.contains_key(i));
                assert(i < self.allocated);
            }
            if r.len() > 0 {
                assert(self.matches(q, r[0].index));
            }
        }
    }

    /// The live links that match `q`.
    pub open spec fn matching(&self, q: Seq<usize>) -> Set<usize> {
        self@.dom().filter(|i: usize| self.matches(q, i))
    }

    /// Unless source and target are both fixed, a result that meets
    /// `each_post` has one entry per matching link.
    pub proof fn lemma_post_len(&self, q: Seq<usize>, r: Seq<Link>)
        requires
            self.wf(),
            self.each_post(q, r),
            !is_exact_pair(q),
        ensures
            r.len() == self.matching(q).len(),
    {
        let idx = r.map_values(|l: Link| l.index);
        assert(idx.no_duplicates()) by {
            assert forall|x: int, y: int| 0 <= x < idx.len() && 0 <= y < idx.len() && x != y implies idx[x]
                != idx[y] by {
                if x < y {
                    assert(comes_before(q, r[x], r[y]));
                } else {
                    assert(comes_before(q, r[y], r[x]));
                }
                if idx[x] == idx[y] {
                    assert(r[x] == self.link_of(r[x].index));
                    assert(r[y] == self.link_of(r[y].index));
                }
            }
        }
        idx.unique_seq_to_set();
        assert(idx.to_set() =~= self.matching(q)) by {
            assert forall|i: usize| #[trigger] idx.to_set().contains(i) implies self.matching(
                q,
            ).contains(i) by {
                let k = choose|k: int| 0 <= k < idx.len() && idx[k] == i;
                assert(self.matches(q, r[k].index));
            }
            assert forall|i: usize| #[trigger] self.matching(q).contains(i) implies idx.to_set().contains(
                i,
            ) by {
                assert(self.matches(q, i));
                let k = choose|k: int| 0 <= k < r.len() && (#[trigger] r[k]).index == i;
                assert(idx[k] == i);
            }
        }
    }

    /// Counting all links agrees with enumerating them: `each` over the empty
    /// query yields exactly `self@.len()` links.
    pub proof fn lemma_count_identity(&self)
        requires
            self.wf(),
        ensures
            self.each_spec(Seq::empty()).len() == self@.len(),
    {
        let q = Seq::<usize>::empty();
        self.lemma_each_spec(q);
        self.lemma_post_len(q, self.each_spec(q));
        assert(self.matching(q) =~= self@.dom());
    }

    fn link_at(&self, i: usize) -> (r: Link)
        requires
            self.wf(),
            self@.contains_key(i),
        ensures
            r == self.link_of(i),
    {
        let raw = self.mem.buf[i];
        Link::new(i, raw.source, raw.target)
    }

    /// Every live link, by ascending index.
    fn all_links(&self) -> (r: Vec<Link>)
        requires
            self.wf(),
        ensures
            r@ == self.live_upto(self.allocated as nat),
    {
        let mut out: Vec<Link> = Vec::new();
        let mut i: usize = 1;
        proof {
            assert(self.live_upto(1) =~= Seq::<Link>::empty()) by {
                assert(self.live_upto(0) == Seq::<Link>::empty());
                assert(!self@.contains_key(0));
            }
        }
        while i < self.allocated
            invariant
                self.wf(),
                1 <= i <= self.allocated,
                out@ == self.live_upto(i as nat),
            decreases self.allocated - i,
        {
            if self.link_exists(i) {
                let l = self.link_at(i);
                out.push(l);
            }
            proof {
                let n = (i + 1) as nat;
                assert((n - 1) as usize == i);
            }
            i = i + 1;
            proof {
                assert(out@ =~= self.live_upto(i as nat));
            }
        }
        out
    }

    /// The links at the given live indices, in the same order.
    fn links_of(&self, idxs: &Vec<usize>) -> (r: Vec<Link>)
        requires
            self.wf(),
            forall|k: int| 0 <= k < idxs@.len() ==> self@.contains_key(#[trigger] idxs@[k]),
        ensures
            r@ == idxs@.map_values(|i: usize| self.link_of(i)),
    {
        let mut out: Vec<Link> = Vec::new();
        let mut k: usize = 0;
        while k < idxs.len()
            invariant
                self.wf(),
                k <= idxs@.len(),
                forall|j: int| 0 <= j < idxs@.len() ==> self@.contains_key(#[trigger] idxs@[j]),
                out@ == idxs@.subrange(0, k as int).map_values(|i: usize| self.link_of(i)),
            decreases idxs@.len() - k,
        {
            let l = self.link_at(idxs[k]);
            out.push(l);
            k = k + 1;
            proof {
                assert(out@ =~= idxs@.subrange(0, k as int).map_values(|i: usize| self.link_of(i)));
            }
        }
        proof {
            assert(idxs@.subrange(0, k as int) =~= idxs@);
        }
        out
    }

    /// The links that match `(index, source, target)`, zero meaning any.
    fn each_by(&self, index: usize, source: usize, target: usize, Ghost(q): Ghost<Seq<usize>>) -> (r: Vec<Link>)
        requires
            self.wf(),
            q_index(q) == index,
            q_source(q) == source,
            q_target(q) == target,
        ensures
            r@ == self.each_spec(q),
    {
        let ghost ks = keys_of(self.mem.buf@);
        if index != ANY {
            let mut out: Vec<Link> = Vec::new();
            if self.link_exists(index) {
                let l = self.link_at(index);
                if (source == ANY || source == l.source) && (target == ANY || target == l.target) {
                    out.push(l);
                }
            }
            proof {
                assert(out@ =~= self.each_spec(q));
            }
            out
        } else if source != ANY && target != ANY {
            let found = crate::sbt::find(&self.mem.buf, Tree::Source, self.source_root, source, target, self.source_shape);
            let mut out: Vec<Link> = Vec::new();
            match found {
                Some(i) => {
                    proof {
                        crate::sbt::lemma_find(self.source_shape@, ks, Tree::Source, source as int, target as int);
                    }
                    let l = self.link_at(i);
                    out.push(l);
                },
                None => {},
            }
            proof {
                assert(out@ =~= self.each_spec(q));
            }
            out
        } else if source != ANY {
            let mut idxs: Vec<usize> = Vec::new();
            crate::sbt::collect_major(&self.mem.buf, Tree::Source, self.source_root, source, &mut idxs, self.source_shape);
            proof {
                assert(idxs@ =~= self.source_shape@.select(ks, Tree::Source, source as int));
                crate::sbt::lemma_select(self.source_shape@, ks, Tree::Source, source as int);
            }
            self.links_of(&idxs)
        } else if target != ANY {
            let mut idxs: Vec<usize> = Vec::new();
            crate::sbt::collect_major(&self.mem.buf, Tree::Target, self.target_root, target, &mut idxs, self.target_shape);
            proof {
                assert(idxs@ =~= self.target_shape@.select(ks, Tree::Target, target as int));
                crate::sbt::lemma_select(self.target_shape@, ks, Tree::Target, target as int);
            }
            self.links_of(&idxs)
        } else {
            self.all_links()
        }
    }

    /// The links that match `query`: `[]` or `[0]` enumerate every link;
    /// `[i]` the link `i`; `[i, s]` stands for `[i, s, 0]`; `[i, s, t]`
    /// constrains each component that is not zero.
    pub fn each<const N: usize>(&self, query: [usize; N]) -> (r: Vec<Link>)
        requires
            self.wf(),
        ensures
            r@ == self.each_spec(query@),
            self.each_post(query@, r@),
    {
        let index = if N >= 1 {
            query[0]
        } else {
            ANY
        };
        let source = if N >= 2 {
            query[1]
        } else {
            ANY
        };
        let target = if N >= 3 {
            query[2]
        } else {
            ANY
        };
        proof {
            self.lemma_each_spec(query@);
        }
        self.each_by(index, source, target, Ghost(query@))
    }

    /// Number of links that `each` yields for `query`.
    pub fn count<const N: usize>(&self, query: [usize; N]) -> (r: usize)
        requires
            self.wf(),
        ensures
            r == self.each_spec(query@).len(),
            !is_exact_pair(query@) ==> r == self.matching(query@).len(),
            is_exact_pair(query@) ==> r == (if self.matching(query@).len() > 0 { 1usize } else { 0usize }),
    {
        proof {
            self.lemma_each_spec(query@);
            if !is_exact_pair(query@) {
                self.lemma_post_len(query@, self.each_spec(query@));
            } else {
                let e = self.each_spec(query@);
                if e.len() > 0 {
                    assert(self.matching(query@).contains(e[0].index));
                } else {
                    assert(self.matching(query@) =~= Set::<usize>::empty());
                }
            }
        }
        if N == 0 || (N == 1 && query[0] == ANY) {
            proof {
                self.lemma_count_identity();
                assert(self.each_spec(query@) == self.each_spec(Seq::empty()));
            }
            return self.count_total();
        }
        if N == 1 {
            let e = self.link_exists(query[0]);
            return if e {
                1
            } else {
                0
            };
        }
        let r = self.each(query);
        r.len()
    }

    /// Creates a link from `query`: `[]` gives `(0, 0)`, `[x]` gives
    /// `(x, x)`, `[s, t, ..]` gives `(s, t)`. Returns the new link.
    pub fn create<const N: usize>(&mut self, query: [usize; N]) -> (r: Result<Link, Error>)
        requires
            old(self).wf(),
        ensures
            final(self).wf(),
            create_post(*old(self), *final(self), query@, r),
    {
        let (source, target) = if N == 0 {
            (ANY, ANY)
        } else if N == 1 {
            (query[0], query[0])
        } else {
            (query[0], query[1])
        };
        match self.create_raw(source, target) {
            Ok(i) => Ok(Link::new(i, source, target)),
            Err(e) => Err(e),
        }
    }

    /// Moves the link `query[0]` to the source and target of `change`
    /// (`change[1]`, `change[2]`; a missing one stays as it was). Returns the
    /// link before and after.
    pub fn update<const N1: usize, const N2: usize>(&mut self, query: [usize; N1], change: [usize; N2]) -> (r: Result<(Link, Link), Error>)
        requires
            old(self).wf(),
        ensures
            final(self).wf(),
            update_post(*old(self), *final(self), query@, change@, r),
    {
        if N1 == 0 || N2 == 0 {
            return Err(Error::InvalidQuery);
        }
        let index = query[0];
        if !self.link_exists(index) {
            return Err(Error::NotExists(index));
        }
        let before = self.link_at(index);
        let source = if N2 >= 2 {
            change[1]
        } else {
            before.source
        };
        let target = if N2 >= 3 {
            change[2]
        } else {
            before.target
        };
        self.update_raw(index, source, target);
        Ok((before, Link::new(index, source, target)))
    }

    /// Deletes the link `query[0]`; returns it as it was.
    pub fn delete<const N: usize>(&mut self, query: [usize; N]) -> (r: Result<Link, Error>)
        requires
            old(self).wf(),
        ensures
            final(self).wf(),
            delete_post(*old(self), *final(self), query@, r),
    {
        if N == 0 {
            return Err(Error::InvalidQuery);
        }
        let index = query[0];
        if !self.link_exists(index) {
            return Err(Error::NotExists(index));
        }
        let before = self.link_at(index);
        self.delete_raw(index);
        Ok(before)
    }

    /// Number of live links.
    pub fn count_all(&self) -> (r: usize)
        requires
            self.wf(),
        ensures
            r == self@.len(),
    {
        self.count_total()
    }

    /// Every live link, by ascending index.
    pub fn collect_all(&self) -> (r: Vec<Link>)
        requires
            self.wf(),
        ensures
            r@ == self.each_spec(Seq::empty()),
            self.each_post(Seq::empty(), r@),
    {
        let r = self.each([]);
        proof {
            assert([]@ =~= Seq::<usize>::empty());
        }
        r
    }

}

/// What `create` promises for `query`: it fails only when no slot can be
/// had, and otherwise adds the link `create_pair(query)` at `next_index`.
pub open spec fn create_post(before: Store, after: Store, query: Seq<usize>, r: Result<Link, Error>) -> bool {
    &&& (r is Ok <==> before.can_allocate())
    &&& r matches Ok(l) ==> l.index == before.next_index() && l.index != 0 && !before@.contains_key(
        l.index,
    ) && (l.source, l.target) == create_pair(query) && after@ == before@.insert(
        l.index,
        (l.source, l.target),
    )
    &&& r matches Err(e) ==> e == Error::AllocationFailed && after@ == before@
}

/// What `update` promises: an empty query or change is refused, a dead index
/// is reported, and otherwise the link takes the new components.
pub open spec fn update_post(
    before: Store,
    after: Store,
    query: Seq<usize>,
    change: Seq<usize>,
    r: Result<(Link, Link), Error>,
) -> bool {
    &&& (query.len() == 0 || change.len() == 0) ==> r == Err::<(Link, Link), Error>(
        Error::InvalidQuery,
    )
    &&& query.len() > 0 && change.len() > 0 && !before@.contains_key(query[0]) ==> r == Err::<
        (Link, Link),
        Error,
    >(Error::NotExists(query[0]))
    &&& r is Err ==> after@ == before@
    &&& (r is Ok <==> query.len() > 0 && change.len() > 0 && before@.contains_key(query[0]))
    &&& r matches Ok((old_link, new_link)) ==> {
        let i = query[0];
        let ns = if change.len() >= 2 {
            change[1]
        } else {
            before@[i].0
        };
        let nt = if change.len() >= 3 {
            change[2]
        } else {
            before@[i].1
        };
        &&& old_link == before.link_of(i)
        &&& new_link == Link { index: i, source: ns, target: nt }
        &&& after@ == before@.insert(i, (ns, nt))
    }
    &&& after.next_index() == before.next_index()
    &&& after.can_allocate() == before.can_allocate()
}

/// What `delete` promises: an empty query is refused, a dead index is
/// reported, and otherwise the link is gone and its slot is reused next.
pub open spec fn delete_post(before: Store, after: Store, query: Seq<usize>, r: Result<Link, Error>) -> bool {
    &&& query.len() == 0 ==> r == Err::<Link, Error>(Error::InvalidQuery)
    &&& query.len() > 0 && !before@.contains_key(query[0]) ==> r == Err::<Link, Error>(
        Error::NotExists(query[0]),
    )
    &&& r is Err ==> after == before
    &&& (r is Ok <==> query.len() > 0 && before@.contains_key(query[0]))
    &&& r matches Ok(old_link) ==> old_link == before.link_of(query[0]) && after@ == before@.remove(
        query[0],
    ) && after.next_index() == query[0]
}

} // verus!
