//! A contiguous vector of fixed capacity, backed by storage supplied at
//! construction: pushing never allocates and fails once the capacity is
//! reached.

use vstd::prelude::*;

verus! {

/// A vector whose capacity is fixed by the storage it is built from. Pushing
/// and popping move elements between the live prefix and the unused
/// remainder of that storage, so the capacity never changes.
pub struct StackVec<T> {
    live: Vec<T>,
    spare: Vec<T>,
}

impl<T> View for StackVec<T> {
    type V = Seq<T>;

    /// The live elements, in order.
    closed spec fn view(&self) -> Seq<T> {
        self.live@
    }
}

impl<T> StackVec<T> {
    /// The number of elements this vector can hold.
    pub closed spec fn spec_capacity(&self) -> nat {
        self.live@.len() + self.spare@.len()
    }

    /// Well-formedness: the backing storage is a real allocation, so the
    /// capacity fits in `usize`. Constructors establish it and every method
    /// preserves it.
    pub closed spec fn well_formed(&self) -> bool {
        self.live@.len() + self.spare@.len() <= usize::MAX
    }

    /// Constructs a new, empty vector whose capacity is the length of
    /// `storage`.
    pub fn new(storage: Vec<T>) -> (v: StackVec<T>)
        ensures
            v@ == Seq::<T>::empty(),
            v.spec_capacity() == storage@.len(),
            v.well_formed(),
    {
        proof {
            vstd::std_specs::vec::axiom_spec_len(&storage);
        }
        StackVec { live: Vec::new(), spare: storage }
    }

    /// Constructs a vector over `storage` whose first `len` elements are
    /// treated as already pushed. `len` must not exceed the storage length.
    pub fn with_len(storage: Vec<T>, len: usize) -> (v: StackVec<T>)
        requires
            len <= storage@.len(),
        ensures
            v@ == storage@.take(len as int),
            v.spec_capacity() == storage@.len(),
            v.well_formed(),
    {
        proof {
            vstd::std_specs::vec::axiom_spec_len(&storage);
        }
        let mut live = storage;
        let spare = live.split_off(len);
        StackVec { live, spare }
    }

    /// Returns the number of elements this vector can hold.
    pub fn capacity(&self) -> (c: usize)
        requires
            self.well_formed(),
        ensures
            c == self.spec_capacity(),
    {
        self.live.len() + self.spare.len()
    }

    /// Shortens the vector, keeping the first `len` elements; with `len` at
    /// or above the current length it has no effect. The capacity is kept.
    pub fn truncate(&mut self, len: usize)
        ensures
            final(self)@ == if len >= old(self)@.len() {
                old(self)@
            } else {
                old(self)@.take(len as int)
            },
            final(self).spec_capacity() == old(self).spec_capacity(),
            old(self).well_formed() ==> final(self).well_formed(),
    {
        proof {
            assert(old(self).live@.take(old(self).live@.len() as int) =~= old(self).live@);
        }
        while self.live.len() > len
            invariant
                self.live@.len() <= old(self).live@.len(),
                self.spare@.len() + self.live@.len() == old(self).spec_capacity(),
                self.live@ == old(self).live@.take(self.live@.len() as int),
                self.live@.len() >= len || self.live@.len() == old(self).live@.len(),
            decreases self.live@.len(),
        {
            match self.live.pop() {
                Some(x) => {
                    self.spare.push(x);
                },
                None => {},
            }
            proof {
                assert(old(self).live@.take(self.live@.len() as int) =~= old(self).live@.take(
                    self.live@.len() as int + 1,
                ).drop_last());
            }
        }
        proof {
            if len >= old(self)@.len() {
                assert(self@ =~= old(self)@);
            }
        }
    }

    /// Extracts the live elements, consuming the vector and releasing the
    /// unused remainder of the backing storage.
    pub fn into_slice(self) -> (s: Vec<T>)
        ensures
            s@ == self@,
    {
        let StackVec { live, spare: _ } = self;
        live
    }

    /// Extracts a slice of the live elements.
    pub fn as_slice(&self) -> (s: &[T])
        ensures
            s@ == self@,
    {
        self.live.as_slice()
    }

    /// Extracts a mutable slice of the live elements; writes through it
    /// become the vector's contents.
    pub fn as_mut_slice(&mut self) -> (s: &mut [T])
        ensures
            s@ == old(self)@,
            final(self)@ == final(s)@,
            final(s)@.len() == old(self)@.len() ==> final(self).spec_capacity() == old(
                self,
            ).spec_capacity() && (old(self).well_formed() ==> final(self).well_formed()),
    {
        self.live.as_mut_slice()
    }

    /// Returns the number of elements in the vector.
    pub fn len(&self) -> (n: usize)
        ensures
            n == self@.len(),
    {
        self.live.len()
    }

    /// Returns true if the vector holds no elements.
    pub fn is_empty(&self) -> (b: bool)
        ensures
            b == (self@.len() == 0),
    {
        self.live.is_empty()
    }

    /// Returns true if the vector is at capacity.
    pub fn is_full(&self) -> (b: bool)
        ensures
            b == (self@.len() == self.spec_capacity()),
    {
        self.spare.is_empty()
    }

    /// Appends `value` if the vector is not full, and reports whether it was
    /// appended. The capacity is kept either way.
    pub fn push(&mut self, value: T) -> (r: Result<(), ()>)
        ensures
            final(self).spec_capacity() == old(self).spec_capacity(),
            old(self).well_formed() ==> final(self).well_formed(),
            match r {
                Ok(()) => old(self)@.len() < old(self).spec_capacity() && final(self)@ == old(
                    self,
                )@.push(value),
                Err(()) => old(self)@.len() == old(self).spec_capacity() && final(self)@ == old(
                    self,
                )@,
            },
    {
        if self.is_full() {
            Err(())
        } else {
            let _ = self.spare.pop();
            self.live.push(value);
            Ok(())
        }
    }

    /// A borrowed view of the elements for iteration, oldest first.
    pub fn iter(&self) -> (s: &[T])
        ensures
            s@ == self@,
    {
        self.live.as_slice()
    }

    /// A mutable view of the elements for iteration.
    pub fn iter_mut(&mut self) -> (s: &mut [T])
        ensures
            s@ == old(self)@,
            final(self)@ == final(s)@,
            final(s)@.len() == old(self)@.len() ==> final(self).spec_capacity() == old(
                self,
            ).spec_capacity() && (old(self).well_formed() ==> final(self).well_formed()),
    {
        self.live.as_mut_slice()
    }

    /// Turns the vector into a consuming iterator over its live elements.
    pub fn into_iter(self) -> (it: StackVecIntoIter<T>)
        ensures
            it.remaining() == self@,
    {
        let StackVec { live, spare: _ } = self;
        StackVecIntoIter { items: live }
    }
}

impl<T: Clone> StackVec<T> {
    /// If the vector is not empty, removes the last element and returns it;
    /// otherwise returns `None`. The capacity is kept.
    pub fn pop(&mut self) -> (r: Option<T>)
        ensures
            final(self).spec_capacity() == old(self).spec_capacity(),
            old(self).well_formed() ==> final(self).well_formed(),
            match r {
                Some(x) => old(self)@.len() > 0 && x == old(self)@.last() && final(self)@ == old(
                    self,
                )@.drop_last(),
                None => old(self)@.len() == 0 && final(self)@ == old(self)@,
            },
    {
        match self.live.pop() {
            Some(x) => {
                self.spare.push(x.clone());
                Some(x)
            },
            None => None,
        }
    }
}

/// An iterator that consumes a `StackVec`, yielding its elements by value,
/// oldest first; each element is moved out exactly once and whatever is not
/// taken is released when the iterator is dropped.
pub struct StackVecIntoIter<T> {
    items: Vec<T>,
}

impl<T> StackVecIntoIter<T> {
    /// The elements not yet yielded, in order.
    pub closed spec fn remaining(&self) -> Seq<T> {
        self.items@
    }

    /// Yields the next element, or `None` when all are taken.
    pub fn next(&mut self) -> (r: Option<T>)
        ensures
            match r {
                Some(x) => old(self).remaining().len() > 0 && x == old(self).remaining()[0]
                    && final(self).remaining() == old(self).remaining().skip(1),
                None => old(self).remaining().len() == 0 && final(self).remaining() == old(
                    self,
                ).remaining(),
            },
    {
        if self.items.len() > 0 {
            let x = self.items.remove(0);
            proof {
                assert(old(self).items@.remove(0) =~= old(self).items@.skip(1));
            }
            Some(x)
        } else {
            None
        }
    }
}

} // verus!
