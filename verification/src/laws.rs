//! What holds of every container, stated over the model and proved.

use crate::model::{lemma_without, Slots};
use vstd::prelude::*;

verus! {

/// One step of a history of insertions and removals.
pub enum Op<T> {
    /// The insertion of a value.
    Push(T),
    /// The removal at an index.
    Remove(usize),
}

impl<T> Slots<T> {
    /// The container after the step `op`.
    pub open spec fn apply(self, op: Op<T>) -> Self {
        match op {
            Op::Push(value) => self.push(value),
            Op::Remove(index) => self.remove(index),
        }
    }

    /// The container after the steps `ops`, first to last.
    pub open spec fn run(self, ops: Seq<Op<T>>) -> Self
        decreases ops.len(),
    {
        if ops.len() == 0 {
            self
        } else {
            self.run(ops.drop_last()).apply(ops.last())
        }
    }
}

/// An insertion into a well-formed container never lands on an occupied
/// slot: the slot `i` keeps its value and the new value goes elsewhere.
pub proof fn lemma_push_keeps_occupied<T>(m: Slots<T>, value: T, i: int)
    requires
        m.wf(),
        0 <= i < m.cells.len(),
        m.cells[i] is Some,
    ensures
        m.next_index() != i,
        i < m.push(value).cells.len(),
        m.push(value).cells[i] == m.cells[i],
{
    m.lemma_push_wf(value);
    m.lemma_push_cells(value);
}

/// A removal changes no slot but its own, and never the length of the store.
pub proof fn lemma_remove_keeps_others<T>(m: Slots<T>, index: usize, i: int)
    requires
        0 <= i < m.cells.len(),
        i != index,
    ensures
        m.remove(index).cells.len() == m.cells.len(),
        m.remove(index).cells[i] == m.cells[i],
{
}

/// Index stability. Through any history of insertions and removals that
/// does not remove at `i`, the occupied slot `i` of a well-formed container
/// keeps its value.
pub proof fn lemma_index_stable<T>(m: Slots<T>, ops: Seq<Op<T>>, i: usize)
    requires
        m.wf(),
        i < m.cells.len(),
        m.cells[i as int] is Some,
        forall|k: int| 0 <= k < ops.len() ==> #[trigger] ops[k] != Op::<T>::Remove(i),
    ensures
        m.run(ops).wf(),
        i < m.run(ops).cells.len(),
        m.run(ops).cells[i as int] == m.cells[i as int],
    decreases ops.len(),
{
    if ops.len() > 0 {
        let earlier = ops.drop_last();
        assert forall|k: int| 0 <= k < earlier.len() implies #[trigger] earlier[k] != Op::<
            T,
        >::Remove(i) by {
            assert(earlier[k] == ops[k]);
        }
        lemma_index_stable(m, earlier, i);
        let before = m.run(earlier);
        match ops.last() {
            Op::Push(value) => {
                before.lemma_push_wf(value);
                before.lemma_push_cells(value);
            },
            Op::Remove(index) => {
                before.lemma_remove_wf(index);
                assert(ops[ops.len() - 1] != Op::<T>::Remove(i));
            },
        }
    }
}

/// Index stability of a fresh index. The index that an insertion returns
/// holds the inserted value through any later history of insertions and
/// removals that does not remove at that index.
pub proof fn lemma_pushed_value_stays<T>(m: Slots<T>, value: T, ops: Seq<Op<T>>)
    requires
        m.wf(),
        m.next_index() <= usize::MAX,
        forall|k: int|
            0 <= k < ops.len() ==> #[trigger] ops[k] != Op::<T>::Remove(m.next_index() as usize),
    ensures
        m.next_index() < m.push(value).run(ops).cells.len(),
        m.push(value).run(ops).cells[m.next_index()] == Some(value),
{
    m.lemma_push_wf(value);
    m.lemma_push_cells(value);
    lemma_index_stable(m.push(value), ops, m.next_index() as usize);
}

/// Removals of distinct occupied slots stack their indices on the registry
/// and empty exactly those slots.
pub proof fn lemma_remove_all<T>(m: Slots<T>, indices: Seq<usize>)
    requires
        indices.no_duplicates(),
        forall|j: int|
            0 <= j < indices.len() ==> #[trigger] indices[j] < m.cells.len()
                && m.cells[indices[j] as int] is Some,
    ensures
        m.remove_all(indices).free == m.free + indices,
        m.remove_all(indices).cells.len() == m.cells.len(),
        forall|i: int|
            0 <= i < m.cells.len() ==> #[trigger] m.remove_all(indices).cells[i] == (if exists|
                j: int,
            |
                0 <= j < indices.len() && indices[j] == i {
                None
            } else {
                m.cells[i]
            }),
    decreases indices.len(),
{
    if indices.len() == 0 {
        assert(m.free + indices =~= m.free);
    } else {
        let earlier = indices.drop_last();
        let last = indices.last();
        assert forall|j: int| 0 <= j < earlier.len() implies #[trigger] earlier[j] < m.cells.len()
            && m.cells[earlier[j] as int] is Some by {
            assert(earlier[j] == indices[j]);
        }
        lemma_remove_all(m, earlier);
        let before = m.remove_all(earlier);
        assert(indices[indices.len() - 1] == last);
        assert(!(exists|j: int| 0 <= j < earlier.len() && earlier[j] == last)) by {
            if exists|j: int| 0 <= j < earlier.len() && earlier[j] == last {
                let j = choose|j: int| 0 <= j < earlier.len() && earlier[j] == last;
                assert(indices[j] == indices[indices.len() - 1]);
            }
        }
        assert(before.cells[last as int] == m.cells[last as int]);
        let after = before.remove(last);
        assert(after.free =~= m.free + indices);
        assert forall|i: int| 0 <= i < m.cells.len() implies #[trigger] after.cells[i] == (
        if exists|j: int| 0 <= j < indices.len() && indices[j] == i {
            None
        } else {
            m.cells[i]
        }) by {
            if i == last {
                assert(indices[indices.len() - 1] == i);
            } else if exists|j: int| 0 <= j < earlier.len() && earlier[j] == i {
                let j = choose|j: int| 0 <= j < earlier.len() && earlier[j] == i;
                assert(indices[j] == i);
            } else if exists|j: int| 0 <= j < indices.len() && indices[j] == i {
                let j = choose|j: int| 0 <= j < indices.len() && indices[j] == i;
                assert(earlier[j] == i);
            }
        }
    }
}

/// Insertions take the entries of the registry from its top down, as long
/// as those entries name slots of the store.
pub proof fn lemma_push_all_unstacks<T>(
    m: Slots<T>,
    base: Seq<usize>,
    indices: Seq<usize>,
    values: Seq<T>,
)
    requires
        m.free == base + indices,
        forall|j: int| 0 <= j < indices.len() ==> #[trigger] indices[j] < m.cells.len(),
        values.len() <= indices.len(),
    ensures
        m.push_all(values).cells.len() == m.cells.len(),
        m.push_all(values).free == base + indices.take(indices.len() - values.len()),
        values.len() < indices.len() ==> m.push_all(values).next_index() == indices[indices.len()
            - 1 - values.len()],
    decreases values.len(),
{
    let n = indices.len() as int;
    let k = values.len() as int;
    if k == 0 {
        assert(indices.take(n) =~= indices);
    } else {
        lemma_push_all_unstacks(m, base, indices, values.drop_last());
        let before = m.push_all(values.drop_last());
        let top = indices[n - k];
        assert(before.free.last() == indices.take(n - k + 1)[n - k]);
        assert(before.free.last() == top);
        assert(before.next_index() == top);
        assert(before.free.drop_last() =~= base + indices.take(n - k));
    }
    let after = m.push_all(values);
    if k < n {
        assert(after.free.last() == indices.take(n - k)[n - k - 1]);
    }
}

/// Free-reuse order. After removals of distinct occupied slots, insertions
/// reuse those slots last removed first: once `values` are inserted, fewer
/// than were removed, the next insertion returns the index that was removed
/// `values.len() + 1` removals before the last.
pub proof fn lemma_reuse_order<T>(m: Slots<T>, indices: Seq<usize>, values: Seq<T>)
    requires
        indices.no_duplicates(),
        forall|j: int|
            0 <= j < indices.len() ==> #[trigger] indices[j] < m.cells.len()
                && m.cells[indices[j] as int] is Some,
        values.len() < indices.len(),
    ensures
        m.remove_all(indices).push_all(values).next_index() == indices[indices.len() - 1
            - values.len()],
{
    lemma_remove_all(m, indices);
    lemma_push_all_unstacks(m.remove_all(indices), m.free, indices, values);
}

/// Removal is idempotent. The first removal at `index` returns what the
/// slot holds and leaves it empty; a second one finds nothing and changes
/// nothing.
pub proof fn lemma_remove_twice<T>(m: Slots<T>, index: usize)
    requires
        index < m.cells.len(),
    ensures
        m.remove(index).cells[index as int] is None,
        m.remove(index).remove(index) == m.remove(index),
{
}

/// Boundary of removal. Past the end of the store there is no slot: a
/// removal there would find nothing and change nothing. [`OptVec::remove`]
/// and indexing leave such an index out by their preconditions, so a
/// verified caller never passes one.
///
/// [`OptVec::remove`]: crate::OptVec::remove
pub proof fn lemma_remove_past_end<T>(m: Slots<T>, index: usize)
    requires
        index >= m.cells.len(),
    ensures
        m.remove(index) == m,
{
}

/// Boundary of dropping. A container without slots has no last slot to
/// drop: the result is `None` and the container stays as it is, whatever its
/// registry holds.
pub proof fn lemma_pop_empty<T>(m: Slots<T>)
    requires
        m.cells.len() == 0,
    ensures
        m.last_value() is None,
        m.pop() == m,
{
}

/// Round trip. A container filled by insertions alone holds the inserted
/// values in the order of their insertion, one per slot, and has handed out
/// the indices `0, 1, 2, ...`.
pub proof fn lemma_round_trip<T>(values: Seq<T>)
    ensures
        Slots::<T>::empty().push_all(values).values() == values,
        Slots::<T>::empty().push_all(values).cells == values.map_values(|v: T| Some(v)),
        Slots::<T>::empty().push_all(values).free.len() == 0,
        Slots::<T>::empty().push_all(values).next_index() == values.len(),
        Slots::<T>::empty().push_all(values).wf(),
    decreases values.len(),
{
    let filled = Slots::<T>::empty().push_all(values);
    if values.len() == 0 {
        Slots::<T>::lemma_empty_wf();
        assert(filled.cells =~= values.map_values(|v: T| Some(v)));
        assert(filled.values() =~= values);
    } else {
        lemma_round_trip(values.drop_last());
        let before = Slots::<T>::empty().push_all(values.drop_last());
        before.lemma_push_wf(values.last());
        before.lemma_push_cells(values.last());
        assert(filled.cells =~= values.map_values(|v: T| Some(v)));
        assert(filled.cells.drop_last() =~= before.cells);
        assert(filled.values() =~= values);
    }
}

/// The number of occupied slots after one slot is overwritten.
proof fn lemma_count_update<T>(m: Slots<T>, i: int, cell: Option<T>)
    requires
        0 <= i < m.cells.len(),
    ensures
        (Slots { cells: m.cells.update(i, cell), free: m.free }).count() == m.count() - (if m.cells[i] is Some {
            1int
        } else {
            0int
        }) + (if cell is Some {
            1int
        } else {
            0int
        }),
    decreases m.cells.len(),
{
    reveal(Seq::filter);
    let after = m.cells.update(i, cell);
    let shorter = Slots { cells: m.cells.drop_last(), free: m.free };
    if i == m.cells.len() - 1 {
        assert(after.drop_last() =~= m.cells.drop_last());
    } else {
        lemma_count_update(shorter, i, cell);
        assert(after.drop_last() =~= shorter.cells.update(i, cell));
    }
}

/// Count correctness, step by step. An insertion into a well-formed
/// container raises the number of occupied slots by one.
pub proof fn lemma_count_push<T>(m: Slots<T>, value: T)
    requires
        m.wf(),
    ensures
        m.push(value).count() == m.count() + 1,
{
    m.lemma_push_wf(value);
    m.lemma_push_cells(value);
    if m.next_index() < m.cells.len() {
        lemma_count_update(m, m.next_index(), Some(value));
        assert(m.push(value).cells == m.cells.update(m.next_index(), Some(value)));
    } else {
        reveal(Seq::filter);
        assert(m.push(value).cells.drop_last() =~= m.cells);
    }
}

/// Count correctness, step by step. A removal lowers the number of occupied
/// slots by one where it finds a value, and leaves it where it finds none.
pub proof fn lemma_count_remove<T>(m: Slots<T>, index: usize)
    requires
        index < m.cells.len(),
    ensures
        m.remove(index).count() == m.count() - (if m.cells[index as int] is Some {
            1int
        } else {
            0int
        }),
{
    if m.cells[index as int] is Some {
        lemma_count_update(m, index as int, None);
    }
}

/// Count correctness, step by step. Dropping the last slot lowers the
/// number of occupied slots by one where that slot held a value.
pub proof fn lemma_count_pop<T>(m: Slots<T>)
    ensures
        m.pop().count() == m.count() - (if m.last_value() is Some {
            1int
        } else {
            0int
        }),
{
    reveal(Seq::filter);
}

/// The number of occupied slots is the number of stored values, and never
/// more than the number of slots.
pub proof fn lemma_count_values<T>(m: Slots<T>)
    ensures
        m.count() == m.values().len(),
        m.count() <= m.cells.len(),
    decreases m.cells.len(),
{
    reveal(Seq::filter);
    if m.cells.len() > 0 {
        lemma_count_values(Slots { cells: m.cells.drop_last(), free: m.free });
    }
}

/// What dropping the last slot does to the registry of a well-formed
/// container: where the slot was empty, exactly its index leaves the
/// registry; where it held a value, the registry stays as it is. Either way
/// the index of the dropped slot is registered no more.
pub proof fn lemma_pop_registry<T>(m: Slots<T>)
    requires
        m.wf(),
        0 < m.cells.len() <= usize::MAX,
    ensures
        m.pop().wf(),
        m.last_value() is None ==> m.pop().free.len() == m.free.len() - 1,
        m.last_value() is Some ==> m.pop().free == m.free,
        !m.pop().free.contains((m.cells.len() - 1) as usize),
        forall|x: usize|
            x != m.cells.len() - 1 ==> (#[trigger] m.pop().free.contains(x) <==> m.free.contains(
                x,
            )),
{
    let last = (m.cells.len() - 1) as usize;
    let after = m.pop();
    m.lemma_pop_wf();
    lemma_without(m.free, last as int);
    if m.cells[last as int] is None {
        assert(m.free.contains(last));
        let j = choose|j: int| 0 <= j < m.free.len() && m.free[j] == last;
        assert(m.free[j] == last as int);
    }
    if after.free.contains(last) {
        let j = choose|j: int| 0 <= j < after.free.len() && after.free[j] == last;
        assert(after.free[j] < after.cells.len());
    }
}

} // verus!
