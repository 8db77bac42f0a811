use vstd::prelude::*;
use crate::error::Error;
use crate::link::Link;
use crate::node::{RawLink, Tree};
use crate::sbt::{lemma_empty_tree, Shape};
use crate::doublets::get_or_create_post;
use crate::store::{create_post, delete_post, update_post, Store};

verus! {

/// After `create([source, target])` returns link `l`, the store holds
/// `(l.index, source, target)` and `l.index` exists.
pub proof fn lemma_create_then_get(
    before: Store,
    after: Store,
    source: usize,
    target: usize,
    l: Link,
)
    requires
        create_post(before, after, seq![source, target], Ok::<Link, Error>(l)),
    ensures
        after@.contains_key(l.index),
        after.link_of(l.index) == (Link { index: l.index, source, target }),
{
}

/// After `delete([i])` succeeds, `i` no longer exists, and the next
/// `create` hands `i` out again.
pub proof fn lemma_delete_then_get(
    before: Store,
    after: Store,
    i: usize,
    r: Result<Link, Error>,
    again: Store,
    query: Seq<usize>,
    created: Link,
)
    requires
        delete_post(before, after, seq![i], r),
        r is Ok,
        create_post(after, again, query, Ok::<Link, Error>(created)),
    ensures
        !after@.contains_key(i),
        created.index == i,
{
}

/// After `update([i], [i, source, target])` succeeds, the link `i` is
/// `(i, source, target)`.
pub proof fn lemma_update_then_get(
    before: Store,
    after: Store,
    i: usize,
    source: usize,
    target: usize,
    r: Result<(Link, Link), Error>,
)
    requires
        update_post(before, after, seq![i], seq![i, source, target], r),
        r is Ok,
    ensures
        after@.contains_key(i),
        after.link_of(i) == (Link { index: i, source, target }),
{
}

/// The query `[0, source, target]`.
pub open spec fn pair_query(source: usize, target: usize) -> Seq<usize> {
    seq![0, source, target]
}

/// `search(source, target)` finds a link exactly when `each([0, source,
/// target])` yields one, and then it finds a link that `each` yields.
pub proof fn lemma_search_agrees_with_each(st: Store, source: usize, target: usize)
    requires
        st.wf(),
    ensures
        st.each_spec(pair_query(source, target)).len() > 0 ==> (st.search_spec(source, target) matches Some(
            i,
        ) && exists|k: int|
            0 <= k < st.each_spec(pair_query(source, target)).len() && (#[trigger] st.each_spec(
                pair_query(source, target),
            )[k]).index == i),
        st.each_spec(pair_query(source, target)).len() == 0 ==> st.search_spec(source, target) is None,
{
    let e = st.each_spec(pair_query(source, target));
    assert(pair_query(source, target) == seq![0usize, source, target]);
    if e.len() > 0 {
        assert(e[0].index == st.search_spec(source, target)->Some_0);
    }
}

/// Enumerating with the empty query visits every live index exactly once.
pub proof fn lemma_each_visits_once(st: Store)
    requires
        st.wf(),
    ensures
        forall|i: usize| #[trigger]
            st@.contains_key(i) ==> exists|k: int|
                0 <= k < st.each_spec(Seq::empty()).len() && (#[trigger] st.each_spec(
                    Seq::empty(),
                )[k]).index == i,
        forall|k: int|
            0 <= k < st.each_spec(Seq::empty()).len() ==> st@.contains_key(
                (#[trigger] st.each_spec(Seq::empty())[k]).index,
            ),
        forall|x: int, y: int|
            0 <= x < st.each_spec(Seq::empty()).len() && 0 <= y < st.each_spec(Seq::empty()).len()
                && x != y ==> (#[trigger] st.each_spec(Seq::empty())[x]).index != (
            #[trigger] st.each_spec(Seq::empty())[y]).index,
{
    let q = Seq::<usize>::empty();
    st.lemma_each_spec(q);
    let e = st.each_spec(q);
    assert forall|i: usize| #[trigger] st@.contains_key(i) implies exists|k: int|
        0 <= k < e.len() && (#[trigger] e[k]).index == i by {
        assert(st.matches(q, i));
    }
    assert forall|k: int| 0 <= k < e.len() implies st@.contains_key((#[trigger] e[k]).index) by {
        assert(st.matches(q, e[k].index));
    }
    assert forall|x: int, y: int| 0 <= x < e.len() && 0 <= y < e.len() && x != y implies (
    #[trigger] e[x]).index != (#[trigger] e[y]).index by {
        if x < y {
            assert(crate::store::comes_before(q, e[x], e[y]));
        } else {
            assert(crate::store::comes_before(q, e[y], e[x]));
        }
    }
}

/// The records after inserting `xs` in turn into a tree holding `m`.
pub open spec fn after_inserts(m: Set<usize>, xs: Seq<usize>) -> Set<usize>
    decreases xs.len(),
{
    if xs.len() == 0 {
        m
    } else {
        after_inserts(m.insert(xs[0]), xs.drop_first())
    }
}

/// The records after removing `xs` in turn from a tree holding `m`.
pub open spec fn after_removes(m: Set<usize>, xs: Seq<usize>) -> Set<usize>
    decreases xs.len(),
{
    if xs.len() == 0 {
        m
    } else {
        after_removes(m.remove(xs[0]), xs.drop_first())
    }
}

proof fn lemma_after_inserts(m: Set<usize>, xs: Seq<usize>)
    ensures
        after_inserts(m, xs) == m + xs.to_set(),
    decreases xs.len(),
{
    if xs.len() > 0 {
        lemma_after_inserts(m.insert(xs[0]), xs.drop_first());
        assert(xs.to_set() =~= xs.drop_first().to_set().insert(xs[0])) by {
            assert forall|x: usize| #[trigger] xs.to_set().contains(x) implies xs.drop_first().to_set().insert(
                xs[0],
            ).contains(x) by {
                let k = choose|k: int| 0 <= k < xs.len() && xs[k] == x;
                if k > 0 {
                    assert(xs.drop_first()[k - 1] == x);
                }
            }
            assert forall|x: usize| #[trigger] xs.drop_first().to_set().contains(x) implies xs.to_set().contains(
                x,
            ) by {
                let k = choose|k: int| 0 <= k < xs.len() - 1 && xs.drop_first()[k] == x;
                assert(xs[k + 1] == x);
            }
        }
        assert(m.insert(xs[0]) + xs.drop_first().to_set() =~= m + xs.to_set());
    } else {
        assert(m + xs.to_set() =~= m);
    }
}

proof fn lemma_after_removes(m: Set<usize>, xs: Seq<usize>)
    ensures
        after_removes(m, xs) == m - xs.to_set(),
    decreases xs.len(),
{
    if xs.len() > 0 {
        lemma_after_removes(m.remove(xs[0]), xs.drop_first());
        assert forall|x: usize| #[trigger] xs.to_set().contains(x) <==> (x == xs[0]
            || xs.drop_first().to_set().contains(x)) by {
            if xs.to_set().contains(x) && x != xs[0] {
                let k = choose|k: int| 0 <= k < xs.len() && xs[k] == x;
                assert(xs.drop_first()[k - 1] == x);
            }
            if xs.drop_first().to_set().contains(x) {
                let k = choose|k: int| 0 <= k < xs.len() - 1 && xs.drop_first()[k] == x;
                assert(xs[k + 1] == x);
            }
            if x == xs[0] {
                assert(xs[0] == x);
            }
        }
        assert(m.remove(xs[0]) - xs.drop_first().to_set() =~= m - xs.to_set());
    } else {
        assert(m - xs.to_set() =~= m);
    }
}

/// Inserting the records `ins` into an empty tree and then removing each of
/// them, in any order `rem`, leaves the empty tree.
pub proof fn lemma_insert_remove_roundtrip(
    ins: Seq<usize>,
    rem: Seq<usize>,
    sh: Shape,
    s: Seq<RawLink>,
    t: Tree,
)
    requires
        ins.to_set().subset_of(rem.to_set()),
        sh.wf(s, t),
        sh.members() == after_removes(after_inserts(Set::empty(), ins), rem),
    ensures
        sh.root() is None,
        sh.size() == 0,
{
    lemma_after_inserts(Set::empty(), ins);
    lemma_after_removes(after_inserts(Set::empty(), ins), rem);
    assert(sh.members() =~= Set::<usize>::empty());
    lemma_empty_tree(sh, s, t);
}

/// Calling `get_or_create(source, target)` a second time returns the index
/// of the first call and leaves the store as it was.
pub proof fn lemma_get_or_create_idempotent(
    s0: Store,
    s1: Store,
    s2: Store,
    source: usize,
    target: usize,
    i: usize,
    r: Result<usize, Error>,
)
    requires
        s0.wf(),
        s1.wf(),
        get_or_create_post(s0, s1, source, target, Ok::<usize, Error>(i)),
        get_or_create_post(s1, s2, source, target, r),
    ensures
        r == Ok::<usize, Error>(i),
        s2 == s1,
        s2@.len() == s1@.len(),
{
    let q = seq![0usize, source, target];
    if s0.search_spec(source, target) is None {
        s0.lemma_each_spec(q);
        s1.lemma_each_spec(q);
        assert(s1.matches(q, i));
        let e = s1.each_spec(q);
        assert(e.len() > 0);
        let j = e[0].index;
        assert(s1.matches(q, j));
        if j != i {
            assert(s0.matches(q, j));
        }
    }
}

} // verus!
