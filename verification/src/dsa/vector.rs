use std::ops::Index;
use vstd::prelude::*;

verus! {

/// A growable array of `i32` that keeps its own count and its own capacity.
/// The capacity grows by the array's own policy: from nothing to 4, then by
/// doubling.
pub struct CustomVector {
    cap: usize,
    len: usize,
    data: Vec<i32>,
}

/// The capacity after one growth.
pub open spec fn grown(cap: nat) -> nat {
    if cap == 0 {
        4
    } else {
        2 * cap
    }
}

/// Whether an array of `cap` elements of four bytes can be allocated at all.
pub open spec fn fits(cap: nat) -> bool {
    cap * 4 <= isize::MAX
}

impl View for CustomVector {
    type V = Seq<i32>;

    /// The elements, first to last.
    closed spec fn view(&self) -> Seq<i32> {
        self.data@
    }
}

impl CustomVector {
    /// The capacity as a number.
    pub closed spec fn capacity(&self) -> nat {
        self.cap as nat
    }

    /// The invariant: the count is the number of elements and does not
    /// exceed the capacity, and the capacity can be allocated.
    pub closed spec fn wf(&self) -> bool {
        &&& self.len == self.data@.len()
        &&& self.len <= self.cap
        &&& fits(self.cap as nat)
    }

    /// In a well-formed array the elements fit into the capacity.
    pub proof fn lemma_within_capacity(&self)
        requires
            self.wf(),
        ensures
            self@.len() <= self.capacity(),
            fits(self.capacity()),
    {
    }

    /// The empty array, with no capacity.
    pub fn new() -> (r: Self)
        ensures
            r.wf(),
            r@ == Seq::<i32>::empty(),
            r.capacity() == 0,
    {
        Self { cap: 0, len: 0, data: Vec::new() }
    }

    /// The empty array with room for `capacity` elements.
    pub fn with_capacity(capacity: usize) -> (r: Self)
        requires
            fits(capacity as nat),
        ensures
            r.wf(),
            r@ == Seq::<i32>::empty(),
            r.capacity() == capacity,
    {
        if capacity == 0 {
            return Self::new();
        }
        Self { cap: capacity, len: 0, data: Vec::with_capacity(capacity) }
    }

    /// The first element, if there is one.
    pub fn first(&self) -> (r: Option<&i32>)
        requires
            self.wf(),
        ensures
            self@.len() == 0 ==> r is None,
            self@.len() > 0 ==> r == Some(&self@[0]),
    {
        if self.len == 0 {
            None
        } else {
            Some(&self.data[0])
        }
    }

    /// The last element, if there is one.
    pub fn last(&self) -> (r: Option<&i32>)
        requires
            self.wf(),
        ensures
            self@.len() == 0 ==> r is None,
            self@.len() > 0 ==> r == Some(&self@[self@.len() - 1]),
    {
        if self.len == 0 {
            None
        } else {
            Some(&self.data[self.len - 1])
        }
    }

    /// Takes the last element off, if there is one. The capacity stays.
    pub fn pop(&mut self) -> (r: Option<i32>)
        requires
            old(self).wf(),
        ensures
            final(self).wf(),
            final(self).capacity() == old(self).capacity(),
            old(self)@.len() == 0 ==> r is None && final(self)@ == old(self)@,
            old(self)@.len() > 0 ==> r == Some(old(self)@.last()) && final(self)@ == old(
                self,
            )@.drop_last(),
    {
        if self.len == 0 {
            None
        } else {
            self.len -= 1;
            self.data.pop()
        }
    }

    /// The element at `index`, if there is one.
    pub fn get(&self, index: usize) -> (r: Option<&i32>)
        requires
            self.wf(),
        ensures
            index >= self@.len() ==> r is None,
            index < self@.len() ==> r == Some(&self@[index as int]),
    {
        if self.len <= index {
            return None;
        }
        Some(&self.data[index])
    }

    /// Appends `data`. A full array grows first: from no capacity to 4,
    /// else to twice its capacity.
    pub fn push_back(&mut self, data: i32)
        requires
            old(self).wf(),
            old(self)@.len() == old(self).capacity() ==> fits(grown(old(self).capacity())),
        ensures
            final(self).wf(),
            final(self)@ == old(self)@.push(data),
            final(self).capacity() == (if old(self)@.len() == old(self).capacity() {
                grown(old(self).capacity())
            } else {
                old(self).capacity()
            }),
    {
        if self.capacity_is_full() {
            self.grow();
        }
        self.data.push(data);
        self.len += 1;
    }

    /// Whether the count has reached the capacity.
    fn capacity_is_full(&self) -> (r: bool)
        requires
            self.wf(),
        ensures
            r == (self@.len() == self.capacity()),
    {
        self.cap == self.len
    }

    /// Makes room: from no capacity to 4, else to twice the capacity.
    fn grow(&mut self)
        requires
            old(self).wf(),
            fits(grown(old(self).capacity())),
        ensures
            final(self).wf(),
            final(self)@ == old(self)@,
            final(self).capacity() == grown(old(self).capacity()),
    {
        let new_cap: usize = if self.cap == 0 {
            4
        } else {
            self.cap * 2
        };
        self.data.reserve(new_cap - self.len);
        self.cap = new_cap;
    }

    /// Number of elements.
    pub fn get_len(&self) -> (r: usize)
        requires
            self.wf(),
        ensures
            r == self@.len(),
    {
        self.len
    }

    /// Number of elements that fit without growth.
    pub fn get_capacity(&self) -> (r: usize)
        ensures
            r == self.capacity(),
    {
        self.cap
    }

    /// Whether there is no element.
    pub fn is_empty(&self) -> (r: bool)
        requires
            self.wf(),
        ensures
            r == (self@.len() == 0),
    {
        self.len == 0
    }
}

impl vstd::std_specs::core::IndexSpecImpl<usize> for CustomVector {
    /// An index is in order where it is below the count.
    open spec fn index_req(&self, index: &usize) -> bool {
        *index < self@.len()
    }
}

impl Index<usize> for CustomVector {
    type Output = i32;

    /// The element at `index`, which is below the count.
    fn index(&self, index: usize) -> (r: &i32)
        ensures
            *r == self@[index as int],
    {
        &self.data[index]
    }
}

} // verus!
