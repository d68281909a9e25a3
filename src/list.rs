//! A sequence that grows at both ends.
use vstd::prelude::*;

verus! {

pub struct List<T> {
    items: Vec<T>,
}

impl<T> List<T> {
    pub closed spec fn view(&self) -> Seq<T> {
        self.items@
    }

    pub fn new() -> (r: Self)
        ensures
            r@ == Seq::<T>::empty(),
    {
        List { items: Vec::new() }
    }

    pub fn len(&self) -> (r: usize)
        ensures
            r == self@.len(),
    {
        self.items.len()
    }

    pub fn push_tail(&mut self, data: T)
        ensures
            final(self)@ == old(self)@.push(data),
    {
        self.items.push(data);
    }

    pub fn push_head(&mut self, data: T)
        ensures
            final(self)@ == seq![data] + old(self)@,
    {
        self.items.insert(0, data);
        proof {
            assert(self.items@ =~= seq![data] + old(self)@);
        }
    }
}

} // verus!
