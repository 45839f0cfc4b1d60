use vstd::array::{array_as_slice, array_fill_for_copy_types};
use vstd::prelude::*;
use vstd::slice::slice_subrange;

verus! {

/// A vector with a fixed capacity `N`, stored inline and filled from the front.
pub struct StackVector<T, const N: usize> {
    items: [T; N],
    size: usize,
}

impl<T, const N: usize> View for StackVector<T, N> {
    type V = Seq<T>;

    /// The items pushed so far, in order.
    closed spec fn view(&self) -> Seq<T> {
        self.items@.take(self.size as int)
    }
}

impl<T, const N: usize> StackVector<T, N> {
    /// The size never exceeds the capacity.
    #[verifier::type_invariant]
    spec fn well_formed(&self) -> bool {
        self.size <= N
    }

    /// The capacity `N`.
    pub open spec fn capacity() -> nat {
        N as nat
    }

    /// Whether every slot beyond the pushed items holds `default_value`.
    pub closed spec fn pads_with(&self, default_value: T) -> bool {
        forall|i: int| self.size <= i < N ==> self.items@[i] == default_value
    }

    /// An empty vector; its unused slots hold `default_value`.
    pub fn new(default_value: T) -> (r: Self) where T: Copy
        ensures
            r@ == Seq::<T>::empty(),
            r.pads_with(default_value),
    {
        let items: [T; N] = array_fill_for_copy_types(default_value);
        StackVector { items, size: 0 }
    }

    /// Add an item at the end; the vector must not be full.
    pub fn push(&mut self, new_item: T)
        requires
            old(self)@.len() < N,
        ensures
            final(self)@ == old(self)@.push(new_item),
            forall|d: T| old(self).pads_with(d) ==> final(self).pads_with(d),
    {
        proof {
            use_type_invariant(&*self);
        }
        let s = self.size;
        self.items[s] = new_item;
        self.size = s + 1;
        assert(self@ =~= old(self)@.push(new_item));
    }

    /// The items pushed so far.
    pub fn to_slice(&self) -> (r: &[T])
        ensures
            r@ == self@,
    {
        proof {
            use_type_invariant(self);
        }
        slice_subrange(array_as_slice(&self.items), 0, self.size)
    }

    /// The number of items pushed so far.
    pub fn len(&self) -> (r: usize)
        ensures
            r == self@.len(),
            r <= N,
    {
        proof {
            use_type_invariant(self);
        }
        self.size
    }

    /// The item in slot `index`: a pushed item below the length, the default value above it.
    pub fn get(&self, index: usize) -> (r: &T)
        requires
            index < N,
        ensures
            index < self@.len() ==> *r == self@[index as int],
            forall|d: T| self.pads_with(d) && index >= self@.len() ==> *r == d,
    {
        proof {
            use_type_invariant(self);
        }
        &self.items[index]
    }
}

} // verus!
