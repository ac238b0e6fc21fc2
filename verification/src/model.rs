//! The mathematical model of a slot container.
//!
//! A container is two sequences: the backing store, one optional value per
//! slot, and the free registry, a stack of slot indices whose top is its last
//! element. Every operation of the container is a function on this pair.

use vstd::prelude::*;

verus! {

/// The abstract state of a slot container.
pub struct Slots<T> {
    /// The backing store: `cells[i]` is `Some(v)` where slot `i` holds `v`,
    /// `None` where it is empty.
    pub cells: Seq<Option<T>>,
    /// The free registry, oldest entry first: a stack whose top is its last
    /// entry.
    pub free: Seq<usize>,
}

/// The registry `free` without the entries at its top that name no slot of a
/// store of length `len`. On a well-formed container that is the registry
/// itself; it differs only where a caller has put the registry out of step
/// with the store.
pub open spec fn live(free: Seq<usize>, len: nat) -> Seq<usize>
    decreases free.len(),
{
    if free.len() > 0 && free.last() >= len {
        live(free.drop_last(), len)
    } else {
        free
    }
}

/// `live(free, len)` is the longest prefix of `free` that is empty or ends in
/// an index below `len`.
pub proof fn lemma_live(free: Seq<usize>, len: nat)
    ensures
        live(free, len).len() <= free.len(),
        live(free, len) == free.take(live(free, len).len() as int),
        live(free, len).len() > 0 ==> live(free, len).last() < len,
        forall|j: int| live(free, len).len() <= j < free.len() ==> #[trigger] free[j] >= len,
    decreases free.len(),
{
    if free.len() > 0 && free.last() >= len {
        lemma_live(free.drop_last(), len);
        let kept = live(free, len);
        assert(kept =~= free.take(kept.len() as int));
        assert forall|j: int| kept.len() <= j < free.len() implies #[trigger] free[j] >= len by {
            if j < free.len() - 1 {
                assert(free.drop_last()[j] == free[j]);
            }
        }
    } else {
        assert(free =~= free.take(free.len() as int));
    }
}

/// The registry `free` without its topmost entry `index`; the registry
/// itself where it has no such entry.
pub open spec fn without(free: Seq<usize>, index: int) -> Seq<usize>
    decreases free.len(),
{
    if free.len() == 0 {
        free
    } else if free.last() == index {
        free.drop_last()
    } else {
        without(free.drop_last(), index).push(free.last())
    }
}

/// Taking an entry out keeps every other entry, in order.
pub proof fn lemma_without(free: Seq<usize>, index: int)
    ensures
        without(free, index).len() <= free.len(),
        forall|x: usize| x != index ==> (#[trigger] without(free, index).contains(x)
            <==> free.contains(x)),
        without(free, index).contains(index as usize) ==> free.contains(index as usize),
        free.no_duplicates() ==> without(free, index).no_duplicates() && (0 <= index
            <= usize::MAX ==> !without(free, index).contains(index as usize)),
        (forall|j: int| 0 <= j < free.len() ==> #[trigger] free[j] != index) ==> without(
            free,
            index,
        ) == free,
        (exists|j: int| 0 <= j < free.len() && #[trigger] free[j] == index) ==> without(
            free,
            index,
        ).len() == free.len() - 1,
    decreases free.len(),
{
    let rest = without(free, index);
    if free.len() == 0 {
    } else if free.last() == index {
        assert forall|x: usize| x != index implies (#[trigger] rest.contains(x)
            <==> free.contains(x)) by {
            if rest.contains(x) {
                let j = choose|j: int| 0 <= j < rest.len() && rest[j] == x;
                assert(free[j] == x);
            }
            if free.contains(x) {
                let j = choose|j: int| 0 <= j < free.len() && free[j] == x;
                assert(rest[j] == x);
            }
        }
        if rest.contains(index as usize) {
            let j = choose|j: int| 0 <= j < rest.len() && rest[j] == index as usize;
            assert(free[j] == index as usize);
        }
        if free.no_duplicates() && rest.contains(index as usize) {
            let j = choose|j: int| 0 <= j < rest.len() && rest[j] == index as usize;
            assert(free[j] == free[free.len() - 1]);
        }
    } else {
        let shorter = free.drop_last();
        let inner = without(shorter, index);
        lemma_without(shorter, index);
        assert(free =~= shorter.push(free.last()));
        assert forall|x: usize| x != index implies (#[trigger] rest.contains(x)
            <==> free.contains(x)) by {
            if rest.contains(x) {
                let j = choose|j: int| 0 <= j < rest.len() && rest[j] == x;
                if j < inner.len() {
                    assert(inner[j] == x);
                    assert(inner.contains(x));
                    assert(shorter.contains(x));
                    let k = choose|k: int| 0 <= k < shorter.len() && shorter[k] == x;
                    assert(free[k] == x);
                } else {
                    assert(free[free.len() - 1] == x);
                }
            }
            if free.contains(x) {
                let j = choose|j: int| 0 <= j < free.len() && free[j] == x;
                if j < shorter.len() {
                    assert(shorter[j] == x);
                    assert(shorter.contains(x));
                    assert(inner.contains(x));
                    let k = choose|k: int| 0 <= k < inner.len() && inner[k] == x;
                    assert(rest[k] == x);
                } else {
                    assert(rest[rest.len() - 1] == x);
                }
            }
        }
        if rest.contains(index as usize) {
            let j = choose|j: int| 0 <= j < rest.len() && rest[j] == index as usize;
            if j < inner.len() {
                assert(inner[j] == index as usize);
                assert(inner.contains(index as usize));
                let k = choose|k: int| 0 <= k < shorter.len() && shorter[k] == index as usize;
                assert(free[k] == index as usize);
            } else {
                assert(free[free.len() - 1] == index as usize);
            }
        }
        if free.no_duplicates() {
            assert(shorter.no_duplicates());
            assert forall|a: int, b: int| 0 <= a < rest.len() && 0 <= b < rest.len() && a
                != b implies rest[a] != rest[b] by {
                if a < inner.len() && b < inner.len() {
                } else {
                    let low = if a < inner.len() {
                        a
                    } else {
                        b
                    };
                    assert(inner.contains(inner[low]));
                    if inner[low] == free.last() {
                        assert(inner[low] != index);
                        assert(shorter.contains(inner[low]));
                        let k = choose|k: int| 0 <= k < shorter.len() && shorter[k] == inner[low];
                        assert(free[k] == free[free.len() - 1]);
                    }
                }
            }
            if 0 <= index <= usize::MAX && rest.contains(index as usize) {
                let j = choose|j: int| 0 <= j < rest.len() && rest[j] == index as usize;
                if j < inner.len() {
                    assert(inner.contains(index as usize));
                }
            }
        }
        if forall|j: int| 0 <= j < free.len() ==> #[trigger] free[j] != index {
            assert forall|j: int| 0 <= j < shorter.len() implies #[trigger] shorter[j]
                != index by {
                assert(shorter[j] == free[j]);
            }
            assert(rest =~= free);
        }
        if exists|j: int| 0 <= j < free.len() && #[trigger] free[j] == index {
            let j = choose|j: int| 0 <= j < free.len() && #[trigger] free[j] == index;
            assert(shorter[j] == index);
        }
    }
}

/// Where the entry at `j` is the topmost entry `index`, taking `index` out
/// removes the entry at `j`.
pub proof fn lemma_without_at(free: Seq<usize>, index: int, j: int)
    requires
        0 <= j < free.len(),
        free[j] == index,
        forall|k: int| j < k < free.len() ==> #[trigger] free[k] != index,
    ensures
        without(free, index) == free.remove(j),
    decreases free.len(),
{
    if j == free.len() - 1 {
        assert(free.drop_last() =~= free.remove(j));
    } else {
        let shorter = free.drop_last();
        assert(free[free.len() - 1] != index);
        assert forall|k: int| j < k < shorter.len() implies #[trigger] shorter[k] != index by {
            assert(shorter[k] == free[k]);
        }
        lemma_without_at(shorter, index, j);
        assert(shorter.remove(j).push(free.last()) =~= free.remove(j));
    }
}

impl<T> Slots<T> {
    /// The container that holds nothing.
    pub open spec fn empty() -> Self {
        Slots { cells: Seq::empty(), free: Seq::empty() }
    }

    /// The registry and the store agree: no index is registered twice, every
    /// registered index names a slot of the store, and a slot of the store is
    /// empty exactly when its index is registered.
    pub open spec fn wf(self) -> bool {
        &&& self.free.no_duplicates()
        &&& forall|j: int| 0 <= j < self.free.len() ==> #[trigger] self.free[j] < self.cells.len()
        &&& forall|i: usize|
            #![trigger self.cells[i as int]]
            #![trigger self.free.contains(i)]
            i < self.cells.len() ==> (self.cells[i as int] is None <==> self.free.contains(i))
    }

    /// The number of occupied slots.
    pub open spec fn count(self) -> nat {
        self.cells.filter(|c: Option<T>| c is Some).len()
    }

    /// The stored values in the order of their slots, the empty slots left out.
    pub open spec fn values(self) -> Seq<T> {
        self.cells.filter_map(|c: Option<T>| c)
    }

    /// The index that the next insertion returns: the topmost entry of the
    /// registry that names a slot of the store, or, where there is none, the
    /// length of the store. On a well-formed container that is the top of
    /// the registry as it stands, or the length where the registry is empty.
    pub open spec fn next_index(self) -> int {
        let reusable = live(self.free, self.cells.len());
        if reusable.len() > 0 {
            reusable.last() as int
        } else {
            self.cells.len() as int
        }
    }

    /// The container after the insertion of `value`. The value goes to the
    /// slot `next_index()`; the registry loses that entry and every entry
    /// above it.
    pub open spec fn push(self, value: T) -> Self {
        let reusable = live(self.free, self.cells.len());
        if reusable.len() > 0 {
            Slots {
                cells: self.cells.update(reusable.last() as int, Some(value)),
                free: reusable.drop_last(),
            }
        } else {
            Slots { cells: self.cells.push(Some(value)), free: reusable }
        }
    }

    /// What the last slot of the store holds; `None` for an empty store.
    pub open spec fn last_value(self) -> Option<T> {
        if self.cells.len() > 0 {
            self.cells.last()
        } else {
            None
        }
    }

    /// The container without the last slot of its store. Where that slot was
    /// empty its index leaves the registry, since it names no slot any more;
    /// the other entries stay, in their order.
    pub open spec fn pop(self) -> Self {
        if self.cells.len() == 0 {
            self
        } else if self.cells.last() is None {
            Slots {
                cells: self.cells.drop_last(),
                free: without(self.free, self.cells.len() - 1),
            }
        } else {
            Slots { cells: self.cells.drop_last(), free: self.free }
        }
    }

    /// The container after the removal at `index`: an occupied slot becomes
    /// empty and its index goes on top of the registry; otherwise nothing
    /// changes.
    pub open spec fn remove(self, index: usize) -> Self {
        if index < self.cells.len() && self.cells[index as int] is Some {
            Slots { cells: self.cells.update(index as int, None), free: self.free.push(index) }
        } else {
            self
        }
    }

    /// The container after the insertion of each of `values`, first to last.
    pub open spec fn push_all(self, values: Seq<T>) -> Self
        decreases values.len(),
    {
        if values.len() == 0 {
            self
        } else {
            self.push_all(values.drop_last()).push(values.last())
        }
    }

    /// The container after the removal at each of `indices`, first to last.
    pub open spec fn remove_all(self, indices: Seq<usize>) -> Self
        decreases indices.len(),
    {
        if indices.len() == 0 {
            self
        } else {
            self.remove_all(indices.drop_last()).remove(indices.last())
        }
    }

    /// The container with `value` in place of what the slot `index` holds.
    pub open spec fn replace(self, index: usize, value: T) -> Self {
        Slots { cells: self.cells.update(index as int, Some(value)), free: self.free }
    }

    /// The empty container is well formed.
    pub proof fn lemma_empty_wf()
        ensures
            Self::empty().wf(),
            Self::empty().count() == 0,
            Self::empty().values() == Seq::<T>::empty(),
    {
        reveal(Seq::filter);
    }

    /// Where an insertion puts its value: in a slot of the store that a
    /// registry entry names, or in a new slot at the end.
    pub proof fn lemma_push_cells(self, value: T)
        ensures
            0 <= self.next_index() <= self.cells.len(),
            self.next_index() < self.cells.len() ==> self.push(value).cells == self.cells.update(
                self.next_index(),
                Some(value),
            ),
            self.next_index() == self.cells.len() ==> self.push(value).cells == self.cells.push(
                Some(value),
            ),
            self.push(value).cells[self.next_index()] == Some(value),
            self.push(value).free.len() <= self.free.len(),
    {
        lemma_live(self.free, self.cells.len());
    }

    /// Insertion into a well-formed container takes the top of the registry
    /// as it stands, or appends where the registry is empty.
    pub proof fn lemma_push_top(self, value: T)
        requires
            self.wf(),
        ensures
            self.free.len() > 0 ==> self.next_index() == self.free.last() && self.push(value)
                == (Slots {
                cells: self.cells.update(self.free.last() as int, Some(value)),
                free: self.free.drop_last(),
            }),
            self.free.len() == 0 ==> self.next_index() == self.cells.len() && self.push(value)
                == (Slots { cells: self.cells.push(Some(value)), free: self.free }),
    {
        if self.free.len() > 0 {
            assert(self.free[self.free.len() - 1] < self.cells.len());
        }
    }

    /// Insertion keeps a well-formed container well formed, and the slot it
    /// fills was empty or is new.
    pub proof fn lemma_push_wf(self, value: T)
        requires
            self.wf(),
        ensures
            self.push(value).wf(),
            self.next_index() < self.cells.len() ==> self.cells[self.next_index()] is None,
    {
        let len = self.cells.len();
        let reusable = live(self.free, len);
        let after = self.push(value);
        lemma_live(self.free, len);
        if reusable.len() > 0 {
            let top = reusable.len() - 1;
            let index = reusable.last();
            assert(index == self.free[top]);
            assert(self.free.contains(index));
            assert(self.cells[index as int] is None);
            assert forall|i: usize| i < after.cells.len() implies (after.cells[i as int] is None
                <==> after.free.contains(i)) by {
                if after.free.contains(i) {
                    let j = choose|j: int| 0 <= j < after.free.len() && after.free[j] == i;
                    assert(self.free[j] == i);
                    assert(self.free.contains(i));
                }
                if after.cells[i as int] is None {
                    assert(self.free.contains(i));
                    let j = choose|j: int| 0 <= j < self.free.len() && self.free[j] == i;
                    assert(after.free[j] == i);
                }
            }
        } else {
            assert forall|i: usize| i < len implies self.cells[i as int] is Some by {
                if self.cells[i as int] is None {
                    assert(self.free.contains(i));
                    let j = choose|j: int| 0 <= j < self.free.len() && self.free[j] == i;
                    assert(self.free[j] >= len);
                }
            }
        }
    }

    /// Dropping the last slot keeps a well-formed container well formed.
    pub proof fn lemma_pop_wf(self)
        requires
            self.wf(),
        ensures
            self.pop().wf(),
    {
        let after = self.pop();
        if self.cells.len() > 0 {
            let last = self.cells.len() - 1;
            lemma_without(self.free, last);
            assert forall|j: int| 0 <= j < after.free.len() implies #[trigger] after.free[j]
                < after.cells.len() by {
                let x = after.free[j];
                assert(after.free.contains(x));
                if x == last {
                    assert(self.free.contains(x));
                    assert(self.cells[x as int] is None);
                } else {
                    assert(self.free.contains(x));
                    let k = choose|k: int| 0 <= k < self.free.len() && self.free[k] == x;
                    assert(self.free[k] < self.cells.len());
                }
            }
            assert forall|i: usize| i < after.cells.len() implies (after.cells[i as int] is None
                <==> after.free.contains(i)) by {
                assert(after.cells[i as int] == self.cells[i as int]);
            }
        }
    }

    /// Removal keeps a well-formed container well formed.
    pub proof fn lemma_remove_wf(self, index: usize)
        requires
            self.wf(),
        ensures
            self.remove(index).wf(),
    {
        let after = self.remove(index);
        if index < self.cells.len() && self.cells[index as int] is Some {
            assert(!self.free.contains(index));
            assert(after.free.last() == index);
            assert forall|i: usize| i < after.cells.len() implies (after.cells[i as int] is None
                <==> after.free.contains(i)) by {
                if after.free.contains(i) && i != index {
                    let j = choose|j: int| 0 <= j < after.free.len() && after.free[j] == i;
                    assert(self.free[j] == i);
                    assert(self.free.contains(i));
                }
                if after.cells[i as int] is None && i != index {
                    assert(self.free.contains(i));
                    let j = choose|j: int| 0 <= j < self.free.len() && self.free[j] == i;
                    assert(after.free[j] == i);
                }
            }
        }
    }

    /// Replacing the value of an occupied slot keeps a well-formed container
    /// well formed.
    pub proof fn lemma_replace_wf(self, index: usize, value: T)
        requires
            self.wf(),
            index < self.cells.len(),
            self.cells[index as int] is Some,
        ensures
            self.replace(index, value).wf(),
    {
        let after = self.replace(index, value);
        assert forall|i: usize| i < after.cells.len() implies (after.cells[i as int] is None
            <==> after.free.contains(i)) by {
            if i != index {
                assert(after.cells[i as int] == self.cells[i as int]);
            } else {
                assert(self.cells[i as int] is Some);
            }
        }
    }
}

} // verus!
