use vstd::prelude::*;

verus! {

/// A growable process-heap slab whose slots are all initialised.
pub struct Alloc<T> {
    pub(crate) buf: Vec<T>,
}

impl<T: Copy> Alloc<T> {
    pub open(crate) spec fn view(&self) -> Seq<T> {
        self.buf@
    }

    /// An empty slab.
    pub fn new() -> (r: Alloc<T>)
        ensures
            r@.len() == 0,
    {
        Alloc { buf: Vec::new() }
    }

    /// Number of slots the slab holds.
    pub fn capacity(&self) -> (r: usize)
        ensures
            r == self@.len(),
    {
        self.buf.len()
    }

    /// Number of initialised slots; every slot is initialised.
    pub fn len(&self) -> (r: usize)
        ensures
            r == self@.len(),
    {
        self.buf.len()
    }

    pub fn is_empty(&self) -> (r: bool)
        ensures
            r == (self@.len() == 0),
    {
        self.buf.len() == 0
    }

    /// Adds `addition` slots, each holding `value`.
    pub fn grow_filled(&mut self, addition: usize, value: T)
        requires
            old(self)@.len() + addition <= usize::MAX,
        ensures
            final(self)@ == old(self)@ + Seq::new(addition as nat, |_i: int| value),
    {
        let mut k: usize = 0;
        while k < addition
            invariant
                k <= addition,
                self.buf@ == old(self)@ + Seq::new(k as nat, |_i: int| value),
            decreases addition - k,
        {
            self.buf.push(value);
            k = k + 1;
            assert(self.buf@ =~= old(self)@ + Seq::new(k as nat, |_i: int| value));
        }
    }
}

} // verus!
