//! The container itself: a vector of optional values and a stack of the
//! indices that are free for reuse.

use crate::model::{lemma_without, lemma_without_at, live, without, Slots};
use vstd::prelude::*;
use vstd::std_specs::cmp::{PartialEqSpec, PartialEqSpecImpl};
use vstd::std_specs::iter::IteratorSpec;

verus! {

/// A contiguous growable array whose indices stay valid when other elements
/// are removed.
///
/// Removing an element empties its slot and remembers the index; the next
/// insertion fills the slot that was emptied last. Nothing is ever shifted,
/// so an index returned by [`OptVec::push`] names the same element until
/// that element is removed.
#[derive(Debug)]
pub struct OptVec<T> {
    inner: Vec<Option<T>>,
    free: Vec<usize>,
}

/// The sum of an allocated capacity and the length of a registry, held at
/// the largest `usize` where it would pass it.
pub open spec fn total_capacity(allocated: int, registered: int) -> int {
    if allocated + registered <= usize::MAX {
        allocated + registered
    } else {
        usize::MAX as int
    }
}

/// Computes [`total_capacity`].
pub fn capacity_of(allocated: usize, registered: usize) -> (total: usize)
    ensures
        total == total_capacity(allocated as int, registered as int),
{
    allocated.saturating_add(registered)
}

/// `Vec::capacity`: the number of elements that the vector has room for
/// before it allocates again. The standard library documents that a vector
/// grows its capacity before its length passes it, so the capacity is never
/// below the length, and that a vector never allocates more than
/// `isize::MAX` bytes, so the capacity of a vector whose elements take up
/// room is never above `isize::MAX`. Where between the two it lies is the
/// allocator's business.
#[verifier::external_body]
fn allocated_capacity<T>(v: &Vec<T>) -> (capacity: usize)
    ensures
        capacity >= v@.len(),
        vstd::layout::size_of::<T>() > 0 ==> capacity <= isize::MAX,
{
    v.capacity()
}

/// Takes the topmost entry `index` out of the registry `free`, if it has
/// one. The search runs from the top, where an index that was registered
/// lately is found first.
fn unregister(free: &mut Vec<usize>, index: usize)
    ensures
        final(free)@ == without(old(free)@, index as int),
{
    let mut j: usize = free.len();
    while j > 0
        invariant
            j <= free.len(),
            free@ == old(free)@,
            forall|k: int| j <= k < free.len() ==> #[trigger] free@[k] != index,
        decreases j,
    {
        j -= 1;
        if free[j] == index {
            proof {
                lemma_without_at(free@, index as int, j as int);
            }
            free.remove(j);
            return ;
        }
    }
    proof {
        lemma_without(free@, index as int);
    }
}

impl<T> View for OptVec<T> {
    type V = Slots<T>;

    closed spec fn view(&self) -> Slots<T> {
        Slots { cells: self.inner@, free: self.free@ }
    }
}

impl<T> OptVec<T> {
    /// An estimate of how many elements the container holds before its store
    /// allocates again: the capacity allocated for the store plus the length
    /// of the registry. The allocated capacity is at least the length of the
    /// store, at most `isize::MAX` where a slot takes up room, and otherwise
    /// up to the allocator.
    pub fn capacity(&self) -> (total: usize)
        ensures
            exists|allocated: int|
                self@.cells.len() <= allocated <= usize::MAX && (vstd::layout::size_of::<
                    Option<T>,
                >() > 0 ==> allocated <= isize::MAX) && total == #[trigger] total_capacity(
                    allocated,
                    self@.free.len() as int,
                ),
    {
        let allocated = allocated_capacity(&self.inner);
        let total = capacity_of(allocated, self.free.len());
        assert(total == total_capacity(allocated as int, self@.free.len() as int));
        total
    }

    /// The slots of the store in order, occupied and empty.
    pub fn as_slice(&self) -> (cells: &[Option<T>])
        ensures
            cells@ == self@.cells,
    {
        self.inner.as_slice()
    }

    /// The registry of free indices, oldest entry first.
    pub fn free_indices(&self) -> (free: &[usize])
        ensures
            free@ == self@.free,
    {
        self.free.as_slice()
    }

    /// The values of the occupied slots, in the order of their slots. The
    /// indices are lost.
    pub fn to_vec(self) -> (values: Vec<T>)
        ensures
            values@ == self@.values(),
    {
        let ghost cells = self.inner@;
        let ghost keep = |c: Option<T>| c;
        let mut values: Vec<T> = Vec::new();
        for slot in it: self.inner
            invariant
                it.seq() == cells,
                keep == (|c: Option<T>| c),
                values@ == cells.take(it.index() as int).filter_map(keep),
        {
            proof {
                cells.lemma_filter_map_take_succ(keep, it.index() as int);
            }
            if let Some(value) = slot {
                values.push(value);
            }
        }
        proof {
            assert(cells.take(cells.len() as int) =~= cells);
        }
        values
    }

    /// Constructs a new, empty container. Nothing is allocated until the
    /// first insertion.
    pub fn new() -> (v: Self)
        ensures
            v@ == Slots::<T>::empty(),
            v@.wf(),
    {
        proof {
            Slots::<T>::lemma_empty_wf();
        }
        Self { inner: Vec::new(), free: Vec::new() }
    }

    /// Constructs a new, empty container with room for at least `capacity`
    /// elements. It behaves as one made by [`OptVec::new`].
    pub fn with_capacity(capacity: usize) -> (v: Self)
        ensures
            v@ == Slots::<T>::empty(),
            v@.wf(),
    {
        proof {
            Slots::<T>::lemma_empty_wf();
        }
        Self { inner: Vec::with_capacity(capacity), free: Vec::with_capacity(capacity) }
    }

    /// The number of elements stored. Every slot is looked at: the time is
    /// linear in [`OptVec::inner_len`].
    pub fn len(&self) -> (n: usize)
        ensures
            n == self@.count(),
    {
        let ghost occupied = |c: Option<T>| c is Some;
        let mut n: usize = 0;
        let mut i: usize = 0;
        proof {
            reveal(Seq::filter);
        }
        while i < self.inner.len()
            invariant
                i <= self.inner.len(),
                n <= i,
                occupied == (|c: Option<T>| c is Some),
                n == self.inner@.take(i as int).filter(occupied).len(),
            decreases self.inner.len() - i,
        {
            proof {
                let before = self.inner@.take(i as int);
                let upto = self.inner@.take(i + 1);
                assert(upto.drop_last() =~= before);
                assert(upto.last() == self.inner@[i as int]);
                reveal(Seq::filter);
            }
            if self.inner[i].is_some() {
                n += 1;
            }
            i += 1;
        }
        proof {
            assert(self.inner@.take(i as int) =~= self.inner@);
        }
        n
    }

    /// The number of slots, occupied and empty.
    pub fn inner_len(&self) -> (n: usize)
        ensures
            n == self@.cells.len(),
    {
        self.inner.len()
    }

    /// Removes the last slot and returns what it held: `None` where the
    /// container has no slot or the last slot was empty. The index of an
    /// empty slot that is dropped leaves the registry with it; no other slot
    /// and no other entry is touched, and nothing is moved into the gap.
    pub fn pop(&mut self) -> (last: Option<T>)
        ensures
            last == old(self)@.last_value(),
            final(self)@ == old(self)@.pop(),
            old(self)@.wf() ==> final(self)@.wf(),
    {
        proof {
            if self@.wf() {
                self@.lemma_pop_wf();
            }
        }
        match self.inner.pop() {
            Some(Some(value)) => Some(value),
            Some(None) => {
                let index = self.inner.len();
                unregister(&mut self.free, index);
                None
            },
            None => None,
        }
    }

    /// Stores `value` and returns the index of its slot: the slot that was
    /// emptied last, or, where no slot is empty, a new one at the end.
    ///
    /// On a well-formed container that is the top of the registry as it
    /// stands. An entry that names no slot of the store, which only writes
    /// through mutable iteration can leave behind, is discarded on the way.
    pub fn push(&mut self, value: T) -> (index: usize)
        ensures
            index == old(self)@.next_index(),
            final(self)@ == old(self)@.push(value),
            old(self)@.wf() ==> final(self)@.wf(),
    {
        proof {
            if self@.wf() {
                self@.lemma_push_wf(value);
            }
        }
        loop
            invariant
                self.inner@ == old(self).inner@,
                live(self.free@, self.inner@.len()) == live(old(self).free@, self.inner@.len()),
                old(self)@.wf() ==> old(self)@.push(value).wf(),
            decreases self.free@.len(),
        {
            let ghost registry = self.free@;
            match self.free.pop() {
                Some(i) => {
                    assert(registry.drop_last() =~= self.free@);
                    if i < self.inner.len() {
                        self.inner[i] = Some(value);
                        return i;
                    }
                },
                None => {
                    self.inner.push(Some(value));
                    return self.inner.len() - 1;
                },
            }
        }
    }

    /// Removes the element at `index` and returns it, or returns `None` and
    /// changes nothing where the slot is already empty.
    ///
    /// The index must name a slot of the store. A caller that is not
    /// verified and passes an index past the end gets a panic, before
    /// anything is changed.
    pub fn remove(&mut self, index: usize) -> (removed: Option<T>)
        requires
            index < old(self)@.cells.len(),
        ensures
            removed == old(self)@.cells[index as int],
            final(self)@ == old(self)@.remove(index),
            old(self)@.wf() ==> final(self)@.wf(),
    {
        proof {
            if self@.wf() {
                self@.lemma_remove_wf(index);
            }
        }
        if self.inner[index].is_some() {
            self.free.push(index);
            self.inner[index].take()
        } else {
            None
        }
    }
}

impl<T> core::ops::Index<usize> for OptVec<T> {
    type Output = T;

    /// The element in the slot `index`, which must be a slot of the store
    /// and occupied. A caller that is not verified and passes another index
    /// gets a panic.
    fn index(&self, index: usize) -> (value: &T)
        ensures
            self@.cells[index as int] == Some(*value),
    {
        self.inner[index].as_ref().unwrap()
    }
}

impl<T> vstd::std_specs::core::IndexSpecImpl<usize> for OptVec<T> {
    open spec fn index_req(&self, index: &usize) -> bool {
        *index < self@.cells.len() && self@.cells[*index as int] is Some
    }
}

impl<T> core::ops::IndexMut<usize> for OptVec<T> {
    /// The element in the slot `index`, for writing. The index must name a
    /// slot of the store and the slot must be occupied. A caller that is not
    /// verified and passes another index gets a panic, before anything is
    /// changed.
    fn index_mut(&mut self, index: usize) -> (value: &mut T)
        requires
            index < old(self)@.cells.len(),
            old(self)@.cells[index as int] is Some,
        ensures
            old(self)@.cells[index as int] == Some(*value),
            final(self)@ == old(self)@.replace(index, *final(value)),
    {
        self.inner[index].as_mut().unwrap()
    }
}

impl<'a, T> IntoIterator for &'a OptVec<T> {
    type Item = &'a Option<T>;

    type IntoIter = core::slice::Iter<'a, Option<T>>;

    /// An iterator over the slots of the store in order, occupied and empty.
    fn into_iter(self) -> (slots: core::slice::Iter<'a, Option<T>>)
        ensures
            IteratorSpec::remaining(&slots) == self@.cells.as_ref(),
            IteratorSpec::decrease(&slots) is Some,
            IteratorSpec::initial_value_relation(&slots, &slots),
    {
        broadcast use vstd::std_specs::slice::axiom_spec_slice_iter;

        self.inner.iter()
    }
}

/// `core::slice::IterMut`, the iterator that hands out each element of a
/// slice for writing.
#[verifier::external_type_specification]
#[verifier::external_body]
#[verifier::reject_recursive_types(E)]
pub struct ExIterMut<'a, E: 'a>(core::slice::IterMut<'a, E>);

/// `<[T]>::iter_mut` on the slots of a vector. The standard library
/// documents that the iterator yields every element from first to last, each
/// once and each for writing, and then ends. So the items still to come are
/// the elements as they stand, in order, and what the vector holds once the
/// iterator is gone is what those items were left holding. No element is
/// added or dropped.
#[verifier::external_body]
fn slots_mut<'a, T>(v: &'a mut Vec<Option<T>>) -> (slots: core::slice::IterMut<'a, Option<T>>)
    ensures
        IteratorSpec::obeys_prophetic_iter_laws(&slots),
        IteratorSpec::remaining(&slots).len() == old(v)@.len(),
        forall|k: int|
            0 <= k < old(v)@.len() ==> *(#[trigger] IteratorSpec::remaining(&slots)[k])
                == old(v)@[k],
        forall|k: int|
            0 <= k < old(v)@.len() ==> *final(#[trigger] IteratorSpec::remaining(&slots)[k])
                == final(v)@[k],
        final(v)@.len() == old(v)@.len(),
{
    v.iter_mut()
}

impl<'a, T> IntoIterator for &'a mut OptVec<T> {
    type Item = &'a mut Option<T>;

    type IntoIter = core::slice::IterMut<'a, Option<T>>;

    /// An iterator over the slots of the store in order that can write to
    /// each of them: its items are the slots as they stand, first to last,
    /// and the store ends up holding what the items were left holding. It
    /// cannot add or drop a slot, and it does not see the registry: a caller
    /// that empties or fills a slot through it puts the registry out of step
    /// with the store.
    fn into_iter(self) -> (slots: core::slice::IterMut<'a, Option<T>>)
        ensures
            IteratorSpec::obeys_prophetic_iter_laws(&slots),
            IteratorSpec::remaining(&slots).len() == old(self)@.cells.len(),
            forall|k: int|
                0 <= k < old(self)@.cells.len() ==> *(#[trigger] IteratorSpec::remaining(&slots)[k])
                    == old(self)@.cells[k],
            forall|k: int|
                0 <= k < old(self)@.cells.len() ==> *final(
                    #[trigger] IteratorSpec::remaining(&slots)[k]
                ) == final(self)@.cells[k],
            final(self)@.cells.len() == old(self)@.cells.len(),
            final(self)@.free == old(self)@.free,
    {
        slots_mut(&mut self.inner)
    }
}

impl<T> Default for OptVec<T> {
    /// The empty container.
    fn default() -> (v: Self)
        ensures
            v@ == Slots::<T>::empty(),
            v@.wf(),
    {
        Self::new()
    }
}

impl<T: Clone> Clone for OptVec<T> {
    /// A container with the same registry and, slot for slot, a clone of
    /// what this one holds.
    fn clone(&self) -> (copy: Self)
        ensures
            copy@.free == self@.free,
            copy@.cells.len() == self@.cells.len(),
            forall|i: int|
                0 <= i < self@.cells.len() ==> match (self@.cells[i], #[trigger] copy@.cells[i]) {
                    (Some(a), Some(b)) => cloned(a, b),
                    (None, None) => true,
                    _ => false,
                },
            self@.wf() ==> copy@.wf(),
    {
        let copy = Self { inner: self.inner.clone(), free: self.free.clone() };
        proof {
            assert(copy.free@ =~= self.free@);
        }
        copy
    }
}

impl<T: PartialEqSpec> PartialEq for OptVec<T> {
    /// Two containers are equal where their registries are equal and their
    /// stores are equal slot for slot.
    fn eq(&self, other: &Self) -> (r: bool) {
        let equal = self.inner == other.inner && self.free == other.free;
        proof {
            if self.free@.len() == other.free@.len() {
                assert((self.free@ == other.free@) <==> forall|i: int|
                    0 <= i < self.free@.len() ==> self.free@[i] == other.free@[i]) by {
                    if forall|i: int| 0 <= i < self.free@.len() ==> self.free@[i] == other.free@[i] {
                        assert(self.free@ =~= other.free@);
                    }
                }
            }
        }
        equal
    }
}

impl<T: PartialEqSpec> PartialEqSpecImpl for OptVec<T> {
    open spec fn obeys_eq_spec() -> bool {
        T::obeys_eq_spec()
    }

    open spec fn eq_spec(&self, other: &Self) -> bool {
        &&& self@.free == other@.free
        &&& self@.cells.len() == other@.cells.len()
        &&& forall|i: int|
            0 <= i < self@.cells.len() ==> match (#[trigger] self@.cells[i], other@.cells[i]) {
                (Some(a), Some(b)) => a.eq_spec(&b),
                (None, None) => true,
                _ => false,
            }
    }
}

impl<T: Eq + PartialEqSpec> Eq for OptVec<T> {

}

} // verus!
