use vstd::prelude::*;

verus! {

/// Indexed access whose bounds are checked by the verifier at each call.
pub trait SafeGetters<T>: View<V = Seq<T>> {
    /// The element at `idx`.
    fn get_safely(&self, idx: usize) -> (r: &T)
        requires
            idx < self@.len(),
        ensures
            *r == self@[idx as int],
    ;

    /// A mutable reference to the element at `idx`.
    fn get_mut_safely(&mut self, idx: usize) -> (r: &mut T)
        requires
            idx < old(self)@.len(),
        ensures
            *r == old(self)@[idx as int],
            final(self)@ == old(self)@.update(idx as int, *final(r)),
    ;
}

impl<T, const N: usize> SafeGetters<T> for [T; N] {
    fn get_safely(&self, idx: usize) -> (r: &T) {
        &self[idx]
    }

    fn get_mut_safely(&mut self, idx: usize) -> (r: &mut T) {
        &mut self[idx]
    }
}

impl<T> SafeGetters<T> for [T] {
    fn get_safely(&self, idx: usize) -> (r: &T) {
        &self[idx]
    }

    fn get_mut_safely(&mut self, idx: usize) -> (r: &mut T) {
        &mut self[idx]
    }
}

} // verus!
