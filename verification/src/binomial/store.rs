use vstd::prelude::*;

verus! {

/// A dense, zero-indexed, growable sequence of values addressed by offset:
/// the backing of a pairwise storage. Any implementation exposing these five
/// operations with these contracts can stand in for the default vector
/// backend.
pub trait Store: Sized {
    type Type: Copy;

    /// The values held, slot by slot.
    spec fn contents(&self) -> Seq<Self::Type>;

    /// An empty store with room reserved for `capacity` later appends.
    fn with_capacity(capacity: usize) -> (s: Self)
        ensures
            s.contents().len() == 0,
    ;

    /// A reference to the value in the slot at `position`.
    fn ref_at(&self, position: usize) -> (r: &Self::Type)
        requires
            position < self.contents().len(),
        ensures
            *r == self.contents()[position as int],
    ;

    /// A mutable reference to the slot at `position`: what the caller
    /// leaves in it becomes the slot's value, and every other slot keeps
    /// its value.
    fn mut_ref_at(&mut self, position: usize) -> (r: &mut Self::Type)
        requires
            position < old(self).contents().len(),
        ensures
            *r == old(self).contents()[position as int],
            final(self).contents() == old(self).contents().update(
                position as int,
                *final(r),
            ),
    ;

    /// Appends one value at the end.
    fn push(&mut self, value: Self::Type)
        ensures
            final(self).contents() == old(self).contents().push(value),
    ;

    /// A store of exactly `size` slots, each holding `default`.
    fn new(size: usize, default: Self::Type) -> (s: Self)
        ensures
            s.contents().len() == size,
            forall|i: int| 0 <= i < size ==> s.contents()[i] == default,
    ;
}

impl<V: Copy> Store for Vec<V> {
    type Type = V;

    open spec fn contents(&self) -> Seq<V> {
        self@
    }

    fn with_capacity(capacity: usize) -> (s: Self) {
        Vec::with_capacity(capacity)
    }

    fn ref_at(&self, position: usize) -> (r: &V) {
        &self[position]
    }

    fn mut_ref_at(&mut self, position: usize) -> (r: &mut V) {
        &mut self[position]
    }

    fn push(&mut self, value: V) {
        self.push(value);
    }

    fn new(size: usize, default: V) -> (s: Self) {
        let mut v: Vec<V> = Vec::with_capacity(size);
        let mut i: usize = 0;
        while i < size
            invariant
                i <= size,
                v@.len() == i,
                forall|j: int| 0 <= j < i ==> v@[j] == default,
            decreases size - i,
        {
            v.push(default);
            i = i + 1;
        }
        v
    }
}

} // verus!
