use vstd::prelude::*;
use crate::error::Error;
use crate::link::ANY;
use crate::store::Store;

verus! {

impl Store {
    /// Creates the link `(source, target)`; returns its index.
    pub fn create_link(&mut self, source: usize, target: usize) -> (r: Result<usize, Error>)
        requires
            old(self).wf(),
        ensures
            final(self).wf(),
            r is Ok <==> old(self).can_allocate(),
            r matches Ok(i) ==> i == old(self).next_index() && i != 0 && !old(self)@.contains_key(i)
                && final(self)@ == old(self)@.insert(i, (source, target)),
            r matches Err(e) ==> e == Error::AllocationFailed && final(self)@ == old(self)@,
    {
        let q = [source, target];
        proof {
            assert(q@ =~= seq![source, target]);
        }
        match self.create(q) {
            Ok(l) => Ok(l.index),
            Err(e) => Err(e),
        }
    }

    /// Creates a point: a link whose source and target are its own index.
    pub fn create_point(&mut self) -> (r: Result<usize, Error>)
        requires
            old(self).wf(),
        ensures
            final(self).wf(),
            r is Ok <==> old(self).can_allocate(),
            r matches Ok(i) ==> i == old(self).next_index() && i != 0 && !old(self)@.contains_key(i)
                && final(self)@ == old(self)@.insert(i, (i, i)),
            r matches Err(e) ==> e == Error::AllocationFailed && final(self)@ == old(self)@,
    {
        let l = match self.create([]) {
            Ok(l) => l,
            Err(e) => {
                return Err(e);
            },
        };
        let i = l.index;
        let ghost mid = self@;
        match self.update([i], [i, i, i]) {
            Ok(_) => {},
            Err(e) => {
                return Err(e);
            },
        }
        proof {
            assert(mid.insert(i, (i, i)) =~= old(self)@.insert(i, (i, i)));
        }
        Ok(i)
    }

    /// Moves the link `index` to `(source, target)`; returns `index`.
    pub fn update_link(&mut self, index: usize, source: usize, target: usize) -> (r: Result<usize, Error>)
        requires
            old(self).wf(),
        ensures
            final(self).wf(),
            r == (if old(self)@.contains_key(index) {
                Ok::<usize, Error>(index)
            } else {
                Err(Error::NotExists(index))
            }),
            r is Ok ==> final(self)@ == old(self)@.insert(index, (source, target)),
            r is Err ==> final(self)@ == old(self)@,
            final(self).next_index() == old(self).next_index(),
            final(self).can_allocate() == old(self).can_allocate(),
    {
        match self.update([index], [index, source, target]) {
            Ok((_, after)) => Ok(after.index),
            Err(e) => Err(e),
        }
    }

    /// Deletes the link `index`; returns `index`.
    pub fn delete_link(&mut self, index: usize) -> (r: Result<usize, Error>)
        requires
            old(self).wf(),
        ensures
            final(self).wf(),
            r == (if old(self)@.contains_key(index) {
                Ok::<usize, Error>(index)
            } else {
                Err(Error::NotExists(index))
            }),
            r is Ok ==> final(self)@ == old(self)@.remove(index) && final(self).next_index() == index,
            r is Err ==> *final(self) == *old(self),
    {
        match self.delete([index]) {
            Ok(before) => Ok(before.index),
            Err(e) => Err(e),
        }
    }

    /// The index that `search(source, target)` returns: the first link that
    /// `each([0, source, target])` yields.
    pub open spec fn search_spec(&self, source: usize, target: usize) -> Option<usize> {
        let e = self.each_spec(seq![0, source, target]);
        if e.len() > 0 {
            Some(e[0].index)
        } else {
            None
        }
    }

    /// A link that matches `[0, source, target]`, if there is one.
    pub fn search(&self, source: usize, target: usize) -> (r: Option<usize>)
        requires
            self.wf(),
        ensures
            r == self.search_spec(source, target),
            r matches Some(i) ==> self.matches(seq![0, source, target], i),
            r is None <==> forall|i: usize| !self.matches(seq![0, source, target], i),
    {
        let found = self.each([ANY, source, target]);
        proof {
            assert([ANY, source, target]@ =~= seq![0, source, target]);
        }
        if found.len() > 0 {
            Some(found[0].index)
        } else {
            None
        }
    }

    /// Links other than `i` whose source is `i`, and those whose target is `i`.
    pub open spec fn usages(&self, i: usize) -> nat {
        self.matching(seq![0, i, 0]).remove(i).len() + self.matching(seq![0, 0, i]).remove(i).len()
    }

    /// The link `(source, target)`: an existing match if `search` finds one,
    /// else a new link.
    pub fn get_or_create(&mut self, source: usize, target: usize) -> (r: Result<usize, Error>)
        requires
            old(self).wf(),
        ensures
            final(self).wf(),
            get_or_create_post(*old(self), *final(self), source, target, r),
    {
        match self.search(source, target) {
            Some(i) => Ok(i),
            None => self.create_link(source, target),
        }
    }

    /// How many times `index` is used as source or target by other links.
    pub fn count_usages(&self, index: usize) -> (r: Result<usize, Error>)
        requires
            self.wf(),
        ensures
            !self@.contains_key(index) ==> r == Err::<usize, Error>(Error::NotExists(index)),
            self@.contains_key(index) && self.usages(index) <= usize::MAX ==> r == Ok::<usize, Error>(
                self.usages(index) as usize,
            ),
            self@.contains_key(index) && self.usages(index) > usize::MAX ==> r == Err::<usize, Error>(
                Error::Overflow,
            ),
    {
        let link = match self.get(index) {
            Some(l) => l,
            None => {
                return Err(Error::NotExists(index));
            },
        };
        let qs = [ANY, index, ANY];
        let qt = [ANY, ANY, index];
        proof {
            assert(qs@ =~= seq![0, index, 0]);
            assert(qt@ =~= seq![0, 0, index]);
            let ms = self.matching(qs@);
            let mt = self.matching(qt@);
            self.lemma_view_facts();
            vstd::set_lib::lemma_len_subset(ms, self@.dom());
            vstd::set_lib::lemma_len_subset(mt, self@.dom());
            if link.source == index {
                assert(ms.contains(index));
            } else {
                assert(ms.remove(index) =~= ms);
            }
            if link.target == index {
                assert(mt.contains(index));
            } else {
                assert(mt.remove(index) =~= mt);
            }
        }
        let mut us = self.count(qs);
        if index == link.source {
            us = us - 1;
        }
        let mut ut = self.count(qt);
        if index == link.target {
            ut = ut - 1;
        }
        match us.checked_add(ut) {
            Some(n) => Ok(n),
            None => Err(Error::Overflow),
        }
    }

    /// Whether another link uses `index` as its source or target.
    pub fn has_usages(&self, index: usize) -> (r: bool)
        requires
            self.wf(),
        ensures
            r == (self@.contains_key(index) && self.usages(index) > 0),
    {
        match self.count_usages(index) {
            Ok(n) => n != 0,
            Err(Error::Overflow) => true,
            Err(_) => false,
        }
    }
}

/// What `get_or_create` promises: the index `search` finds, with nothing
/// changed, or else a link created as `create_link` does.
pub open spec fn get_or_create_post(
    before: Store,
    after: Store,
    source: usize,
    target: usize,
    r: Result<usize, Error>,
) -> bool {
    match before.search_spec(source, target) {
        Some(i) => r == Ok::<usize, Error>(i) && after == before,
        None => {
            &&& (r is Ok <==> before.can_allocate())
            &&& r matches Ok(i) ==> i == before.next_index() && !before@.contains_key(i) && after@
                == before@.insert(i, (source, target))
            &&& r is Err ==> r == Err::<usize, Error>(Error::AllocationFailed) && after@ == before@
        },
    }
}

/// `x`, with `from` replaced by `to`.
pub open spec fn replace(x: usize, from: usize, to: usize) -> usize {
    if x == from {
        to
    } else {
        x
    }
}

/// The links `v` after every use of `from` as a source or target by another
/// link is replaced by `to`.
pub open spec fn rebased(v: Map<usize, (usize, usize)>, from: usize, to: usize) -> Map<usize, (usize, usize)> {
    Map::new(
        |j: usize| v.contains_key(j),
        |j: usize|
            if j == from {
                v[j]
            } else {
                (replace(v[j].0, from, to), replace(v[j].1, from, to))
            },
    )
}

/// A store on a fresh heap slab, empty.
pub fn create_heap_store() -> (r: Result<Store, Error>)
    ensures
        r matches Ok(st) ==> st.wf() && st@ == Map::<usize, (usize, usize)>::empty() && st.next_index()
            == 1,
        r is Ok,
{
    Store::new(crate::slab::Alloc::new())
}

impl Store {
    /// Makes every other link that uses `from` as its source or target use
    /// `to` instead; returns `to`.
    pub fn rebase(&mut self, from: usize, to: usize) -> (r: Result<usize, Error>)
        requires
            old(self).wf(),
        ensures
            final(self).wf(),
            from == to ==> r == Ok::<usize, Error>(to) && final(self)@ == old(self)@,
            from != to && !old(self)@.contains_key(from) ==> r == Err::<usize, Error>(
                Error::NotExists(from),
            ) && final(self)@ == old(self)@,
            from != to && old(self)@.contains_key(from) ==> r == Ok::<usize, Error>(to)
                && final(self)@ == rebased(old(self)@, from, to),
            final(self).next_index() == old(self).next_index(),
            final(self).can_allocate() == old(self).can_allocate(),
    {
        if from == to {
            return Ok(to);
        }
        if !self.link_exists(from) {
            return Err(Error::NotExists(from));
        }
        let ghost v0 = self@;
        let ghost rb = rebased(v0, from, to);
        proof {
            self.lemma_view_facts();
        }
        let qs = [ANY, from, ANY];
        let qt = [ANY, ANY, from];
        let by_source = self.each(qs);
        let by_target = self.each(qt);
        proof {
            assert(qs@ =~= seq![0, from, 0]);
            assert(qt@ =~= seq![0, 0, from]);
        }
        let mut k: usize = 0;
        while k < by_source.len()
            invariant
                self.wf(),
                self@.dom() == v0.dom(),
                self.next_index() == old(self).next_index(),
                self.can_allocate() == old(self).can_allocate(),
                k <= by_source@.len(),
                old(self).each_post(qs@, by_source@),
                v0 == old(self)@,
                rb == rebased(v0, from, to),
                qs@ == seq![0usize, from, 0usize],
                qt@ == seq![0usize, 0usize, from],
                from != to,
                from != 0,
                forall|j: usize| #[trigger] v0.contains_key(j) ==> self@[j] == v0[j] || self@[j] == rb[j],
                forall|m: int| 0 <= m < k ==> self@[(#[trigger] by_source@[m]).index] == rb[by_source@[m].index],
            decreases by_source@.len() - k,
        {
            let l = by_source[k];
            let ghost prev = self@;
            proof {
                assert(old(self).matches(qs@, l.index));
                assert(l == old(self).link_of(l.index));
            }
            if l.index != from {
                let _ = self.update_link(l.index, to, if l.target == from { to } else { l.target });
                proof {
                    assert(v0.contains_key(l.index));
                    assert(v0[l.index] == (l.source, l.target));
                    assert(rb.dom().contains(l.index));
                    assert(l.index != from);
                    assert(rb[l.index] == (to, if l.target == from { to } else { l.target }));
                    assert(self@ == prev.insert(l.index, rb[l.index]));
                }
            }
            proof {
                assert forall|j: usize| #[trigger] v0.contains_key(j) implies self@[j] == v0[j]
                    || self@[j] == rb[j] by {
                    if j != l.index {
                        assert(self@[j] == prev[j]);
                    }
                }
                assert forall|m: int| 0 <= m < k + 1 implies self@[(#[trigger] by_source@[m]).index]
                    == rb[by_source@[m].index] by {
                    let j = by_source@[m].index;
                    assert(old(self).matches(qs@, j));
                    if j != l.index {
                        assert(self@[j] == prev[j]);
                    }
                }
            }
            k = k + 1;
        }
        let ghost done_source = self@;
        let mut k2: usize = 0;
        while k2 < by_target.len()
            invariant
                self.wf(),
                self@.dom() == v0.dom(),
                self.next_index() == old(self).next_index(),
                self.can_allocate() == old(self).can_allocate(),
                k2 <= by_target@.len(),
                old(self).each_post(qs@, by_source@),
                old(self).each_post(qt@, by_target@),
                v0 == old(self)@,
                rb == rebased(v0, from, to),
                qs@ == seq![0usize, from, 0usize],
                qt@ == seq![0usize, 0usize, from],
                from != to,
                from != 0,
                forall|j: usize| #[trigger] v0.contains_key(j) ==> self@[j] == v0[j] || self@[j] == rb[j],
                forall|m: int| 0 <= m < by_source@.len() ==> self@[(#[trigger] by_source@[m]).index] == rb[by_source@[m].index],
                forall|m: int| 0 <= m < k2 ==> self@[(#[trigger] by_target@[m]).index] == rb[by_target@[m].index],
            decreases by_target@.len() - k2,
        {
            let l = by_target[k2];
            let ghost prev = self@;
            proof {
                assert(old(self).matches(qt@, l.index));
                assert(l == old(self).link_of(l.index));
            }
            if l.index != from && l.source != from {
                let _ = self.update_link(l.index, l.source, to);
                proof {
                    assert(v0.contains_key(l.index));
                    assert(v0[l.index] == (l.source, l.target));
                    assert(rb.dom().contains(l.index));
                    assert(l.index != from);
                    assert(rb[l.index] == (l.source, to));
                    assert(self@ == prev.insert(l.index, rb[l.index]));
                }
            }
            proof {
                if l.index != from && l.source == from {
                    assert(old(self).matches(qs@, l.index));
                    let m = choose|m: int| 0 <= m < by_source@.len() && (#[trigger] by_source@[m]).index == l.index;
                    assert(self@[by_source@[m].index] == rb[by_source@[m].index]);
                }
                assert forall|j: usize| #[trigger] v0.contains_key(j) implies self@[j] == v0[j]
                    || self@[j] == rb[j] by {
                    if j != l.index {
                        assert(self@[j] == prev[j]);
                    }
                }
                assert forall|m: int| 0 <= m < by_source@.len() implies self@[(#[trigger] by_source@[m]).index]
                    == rb[by_source@[m].index] by {
                    let j = by_source@[m].index;
                    assert(old(self).matches(qs@, j));
                    if j != l.index {
                        assert(self@[j] == prev[j]);
                    }
                }
                assert forall|m: int| 0 <= m < k2 + 1 implies self@[(#[trigger] by_target@[m]).index]
                    == rb[by_target@[m].index] by {
                    let j = by_target@[m].index;
                    assert(old(self).matches(qt@, j));
                    if j != l.index {
                        assert(self@[j] == prev[j]);
                    }
                }
            }
            k2 = k2 + 1;
        }
        proof {
            assert(self@ =~= rb) by {
                assert forall|j: usize| #[trigger] v0.contains_key(j) implies self@[j] == rb[j] by {
                    if j != from && v0[j].0 == from {
                        assert(old(self).matches(qs@, j));
                        let m = choose|m: int| 0 <= m < by_source@.len() && (#[trigger] by_source@[m]).index == j;
                        assert(self@[by_source@[m].index] == rb[by_source@[m].index]);
                    } else if j != from && v0[j].1 == from {
                        assert(old(self).matches(qt@, j));
                        let m = choose|m: int| 0 <= m < by_target@.len() && (#[trigger] by_target@[m]).index == j;
                        assert(self@[by_target@[m].index] == rb[by_target@[m].index]);
                    }
                }
            }
        }
        Ok(to)
    }

    /// Rebases `from` onto `to`, then deletes `from`; returns the deleted
    /// index, or `to` when the two are equal.
    pub fn rebase_and_delete(&mut self, from: usize, to: usize) -> (r: Result<usize, Error>)
        requires
            old(self).wf(),
        ensures
            final(self).wf(),
            from == to ==> r == Ok::<usize, Error>(to) && final(self)@ == old(self)@,
            from != to && !old(self)@.contains_key(from) ==> r == Err::<usize, Error>(
                Error::NotExists(from),
            ) && final(self)@ == old(self)@,
            from != to && old(self)@.contains_key(from) ==> r == Ok::<usize, Error>(from)
                && final(self)@ == rebased(old(self)@, from, to).remove(from),
    {
        if from == to {
            return Ok(to);
        }
        match self.rebase(from, to) {
            Ok(_) => {},
            Err(e) => {
                return Err(e);
            },
        }
        self.delete_link(from)
    }
}

} // verus!
