//! A container whose indices stay stable across removals.
//!
//! Removing a value leaves a hole in its place; holes are kept on a stack and
//! the most recently freed one is the first to be reused by `insert`.

use vstd::prelude::*;

verus! {

/// Number of occupied cells in a sequence of optional cells.
pub open spec fn count_some<T>(cells: Seq<Option<T>>) -> nat
    decreases cells.len(),
{
    if cells.len() == 0 {
        0
    } else {
        count_some(cells.drop_last()) + if cells.last() is Some {
            1nat
        } else {
            0nat
        }
    }
}

/// The occupied values of a sequence of optional cells, in ascending index
/// order.
pub open spec fn present<T>(cells: Seq<Option<T>>) -> Seq<T>
    decreases cells.len(),
{
    if cells.len() == 0 {
        Seq::empty()
    } else {
        match cells.last() {
            Some(v) => present(cells.drop_last()).push(v),
            None => present(cells.drop_last()),
        }
    }
}

/// Mathematical model of a slot store: the cells, and the stack of free
/// indices whose top is its last element.
pub struct Slots<T> {
    pub cells: Seq<Option<T>>,
    pub free: Seq<int>,
}

impl<T> Slots<T> {
    /// The store with no cell at all.
    pub open spec fn empty() -> Slots<T> {
        Slots { cells: Seq::empty(), free: Seq::empty() }
    }

    /// Every free index names a hole, no index is free twice, and the holes
    /// are exactly the free indices (by count).
    pub open spec fn wf(self) -> bool {
        &&& self.free.no_duplicates()
        &&& forall|k: int|
            0 <= k < self.free.len() ==> 0 <= (#[trigger] self.free[k]) < self.cells.len()
                && self.cells[self.free[k]] is None
        &&& count_some(self.cells) + self.free.len() == self.cells.len()
    }

    /// The content of cell `i`; `None` for a hole and past the end.
    pub open spec fn lookup(self, i: int) -> Option<T> {
        if 0 <= i < self.cells.len() {
            self.cells[i]
        } else {
            None
        }
    }

    /// Whether `i` names an occupied cell.
    pub open spec fn occupied(self, i: int) -> bool {
        self.lookup(i) is Some
    }

    /// Number of occupied cells.
    pub open spec fn len(self) -> nat {
        count_some(self.cells)
    }

    /// The index that the next insertion fills.
    pub open spec fn next_idx(self) -> int {
        if self.free.len() > 0 {
            self.free.last()
        } else {
            self.cells.len() as int
        }
    }

    /// The store after inserting `value`.
    pub open spec fn insert(self, value: T) -> Slots<T> {
        if self.free.len() > 0 {
            Slots {
                cells: self.cells.update(self.free.last(), Some(value)),
                free: self.free.drop_last(),
            }
        } else {
            Slots { cells: self.cells.push(Some(value)), free: self.free }
        }
    }

    /// The store after freeing cell `i`.
    pub open spec fn remove(self, i: int) -> Slots<T> {
        Slots { cells: self.cells.update(i, None), free: self.free.push(i) }
    }

    /// The store after overwriting the occupied cell `i`.
    pub open spec fn replace(self, i: int, value: T) -> Slots<T> {
        Slots { cells: self.cells.update(i, Some(value)), free: self.free }
    }

    /// The store after freeing the cells `indices`, first to last.
    pub open spec fn remove_all(self, indices: Seq<int>) -> Slots<T>
        decreases indices.len(),
    {
        if indices.len() == 0 {
            self
        } else {
            self.remove_all(indices.drop_last()).remove(indices.last())
        }
    }

    /// The occupied values in ascending index order.
    pub open spec fn values(self) -> Seq<T> {
        present(self.cells)
    }
}

/// Appending a cell adds one to the count exactly when the cell is occupied.
pub proof fn lemma_count_push<T>(cells: Seq<Option<T>>, cell: Option<T>)
    ensures
        count_some(cells.push(cell)) == count_some(cells) + if cell is Some {
            1nat
        } else {
            0nat
        },
{
    assert(cells.push(cell).drop_last() =~= cells);
}

/// Overwriting a cell changes the count by the difference in occupancy.
pub proof fn lemma_count_update<T>(cells: Seq<Option<T>>, i: int, cell: Option<T>)
    requires
        0 <= i < cells.len(),
    ensures
        count_some(cells.update(i, cell)) + (if cells[i] is Some {
            1nat
        } else {
            0nat
        }) == count_some(cells) + if cell is Some {
            1nat
        } else {
            0nat
        },
    decreases cells.len(),
{
    if i == cells.len() - 1 {
        assert(cells.update(i, cell).drop_last() =~= cells.drop_last());
    } else {
        assert(cells.update(i, cell).drop_last() =~= cells.drop_last().update(i, cell));
        lemma_count_update(cells.drop_last(), i, cell);
    }
}

/// There are as many occupied values as the count says.
pub proof fn lemma_present_len<T>(cells: Seq<Option<T>>)
    ensures
        present(cells).len() == count_some(cells),
    decreases cells.len(),
{
    if cells.len() > 0 {
        lemma_present_len(cells.drop_last());
    }
}

/// A list of values that, when removed, leave a hole in their place, so that
/// all other indices remain unperturbed; holes take priority when inserting.
pub struct OptionalVec<T> {
    values: Vec<Option<T>>,
    holes: Vec<usize>,
}

impl<T> View for OptionalVec<T> {
    type V = Slots<T>;

    closed spec fn view(&self) -> Slots<T> {
        Slots { cells: self.values@, free: self.holes@.map_values(|h: usize| h as int) }
    }
}

impl<T> Default for OptionalVec<T> {
    /// The empty store.
    fn default() -> (store: Self)
        ensures
            store@ == Slots::<T>::empty(),
            store@.wf(),
    {
        OptionalVec::with_capacity(0)
    }
}

impl<T> OptionalVec<T> {
    /// An empty store with room for `cap` values.
    pub fn with_capacity(cap: usize) -> (store: Self)
        ensures
            store@ == Slots::<T>::empty(),
            store@.wf(),
    {
        let store = OptionalVec { values: Vec::with_capacity(cap), holes: Vec::new() };
        proof {
            assert(store@.free =~= Slots::<T>::empty().free);
        }
        store
    }

    /// Puts `elem` into the most recently freed hole, or at the end when
    /// there is no hole, and returns the index it now occupies.
    pub fn insert(&mut self, elem: T) -> (idx: usize)
        requires
            old(self)@.wf(),
        ensures
            idx == old(self)@.next_idx(),
            final(self)@ == old(self)@.insert(elem),
            final(self)@.wf(),
            final(self)@.len() == old(self)@.len() + 1,
            final(self)@.lookup(idx as int) == Some(elem),
            !old(self)@.occupied(idx as int),
            forall|i: int| i != idx ==> final(self)@.lookup(i) == old(self)@.lookup(i),
    {
        proof {
            lemma_insert(self@, elem);
        }
        let idx = match self.holes.pop() {
            Some(idx) => {
                self.values[idx] = Some(elem);
                idx
            },
            None => {
                let idx = self.values.len();
                self.values.push(Some(elem));
                idx
            },
        };
        proof {
            assert(self@.free =~= old(self)@.insert(elem).free);
            assert(self@.cells =~= old(self)@.insert(elem).cells);
        }
        idx
    }

    /// The index that the next call of `insert` will return.
    pub fn next_idx(&self) -> (idx: usize)
        requires
            self@.wf(),
        ensures
            idx == self@.next_idx(),
    {
        if self.holes.len() > 0 {
            self.holes[self.holes.len() - 1]
        } else {
            self.values.len()
        }
    }

    /// Takes the value out of the occupied cell `idx`, which becomes the
    /// hole that is reused first.
    pub fn remove(&mut self, idx: usize) -> (val: T)
        requires
            old(self)@.wf(),
            old(self)@.occupied(idx as int),
        ensures
            Some(val) == old(self)@.lookup(idx as int),
            final(self)@ == old(self)@.remove(idx as int),
            final(self)@.wf(),
            final(self)@.next_idx() == idx,
            final(self)@.len() + 1 == old(self)@.len(),
            !final(self)@.occupied(idx as int),
            forall|i: int| i != idx ==> final(self)@.lookup(i) == old(self)@.lookup(i),
    {
        proof {
            lemma_remove(self@, idx as int);
        }
        let val = self.values[idx].take();
        self.holes.push(idx);
        proof {
            assert(self@.free =~= old(self)@.remove(idx as int).free);
        }
        val.unwrap()
    }

    /// References to all occupied values, in ascending index order.
    pub fn iter(&self) -> (items: Vec<&T>)
        ensures
            items@.len() == self@.values().len(),
            forall|k: int| 0 <= k < items@.len() ==> *items@[k] == self@.values()[k],
    {
        let mut items: Vec<&T> = Vec::new();
        let mut i: usize = 0;
        while i < self.values.len()
            invariant
                i <= self.values@.len(),
                items@.len() == present(self.values@.take(i as int)).len(),
                forall|k: int|
                    0 <= k < items@.len() ==> *items@[k] == present(self.values@.take(i as int))[k],
            decreases self.values@.len() - i,
        {
            proof {
                assert(self.values@.take(i + 1).drop_last() =~= self.values@.take(i as int));
            }
            match &self.values[i] {
                Some(v) => {
                    items.push(v);
                },
                None => {},
            }
            i += 1;
        }
        proof {
            assert(self.values@.take(i as int) =~= self.values@);
        }
        items
    }

    /// The number of occupied cells.
    pub fn len(&self) -> (n: usize)
        requires
            self@.wf(),
        ensures
            n == self@.len(),
            n == self@.values().len(),
    {
        proof {
            lemma_present_len(self@.cells);
        }
        self.values.len() - self.holes.len()
    }

    /// The value in the occupied cell `idx`.
    pub fn index(&self, idx: usize) -> (val: &T)
        requires
            self@.occupied(idx as int),
        ensures
            Some(*val) == self@.lookup(idx as int),
    {
        self.values[idx].as_ref().unwrap()
    }

    /// Mutable access to the value in the occupied cell `idx`.
    pub fn index_mut(&mut self, idx: usize) -> (val: &mut T)
        requires
            old(self)@.occupied(idx as int),
        ensures
            Some(*val) == old(self)@.lookup(idx as int),
            final(self)@ =~= old(self)@.replace(idx as int, *final(val)),
            old(self)@.wf() ==> final(self)@.wf() && final(self)@.len() == old(self)@.len(),
    {
        proof {
            assert forall|value: T| old(self)@.wf() implies #[trigger] old(self)@.replace(
                idx as int,
                value,
            ).wf() && old(self)@.replace(idx as int, value).len() == old(self)@.len() by {
                lemma_replace(old(self)@, idx as int, value);
            }
        }
        self.values[idx].as_mut().unwrap()
    }
}

/// Insertion keeps a store well formed, fills the index announced by
/// `next_idx`, which was not occupied, and touches no other cell.
pub proof fn lemma_insert<T>(s: Slots<T>, value: T)
    requires
        s.wf(),
    ensures
        s.insert(value).wf(),
        s.insert(value).len() == s.len() + 1,
        !s.occupied(s.next_idx()),
        s.insert(value).lookup(s.next_idx()) == Some(value),
        forall|i: int| i != s.next_idx() ==> s.insert(value).lookup(i) == s.lookup(i),
{
    let t = s.insert(value);
    if s.free.len() > 0 {
        let idx = s.free.last();
        lemma_count_update(s.cells, idx, Some(value));
        assert forall|k: int| 0 <= k < t.free.len() implies 0 <= (#[trigger] t.free[k])
            < t.cells.len() && t.cells[t.free[k]] is None by {
            assert(t.free[k] == s.free[k]);
            assert(s.free[k] != s.free[s.free.len() - 1]);
        }
    } else {
        lemma_count_push(s.cells, Some(value));
    }
}

/// Freeing an occupied cell keeps a store well formed, makes that cell the
/// next to be filled, and touches no other cell.
pub proof fn lemma_remove<T>(s: Slots<T>, i: int)
    requires
        s.wf(),
        s.occupied(i),
    ensures
        s.remove(i).wf(),
        s.remove(i).len() + 1 == s.len(),
        s.remove(i).next_idx() == i,
        !s.remove(i).occupied(i),
        forall|j: int| j != i ==> s.remove(i).lookup(j) == s.lookup(j),
{
    let t = s.remove(i);
    lemma_count_update(s.cells, i, None);
    assert forall|a: int, b: int| 0 <= a < t.free.len() && 0 <= b < t.free.len() && a != b implies t.free[a] != t.free[b] by {
        if a < s.free.len() {
            assert(s.free[a] != i);
        }
        if b < s.free.len() {
            assert(s.free[b] != i);
        }
    }
}

/// Overwriting an occupied cell keeps a store well formed and its length.
pub proof fn lemma_replace<T>(s: Slots<T>, i: int, value: T)
    requires
        s.wf(),
        s.occupied(i),
    ensures
        s.replace(i, value).wf(),
        s.replace(i, value).len() == s.len(),
        s.replace(i, value).lookup(i) == Some(value),
        forall|j: int| j != i ==> s.replace(i, value).lookup(j) == s.lookup(j),
{
    lemma_count_update(s.cells, i, Some(value));
    let t = s.replace(i, value);
    assert forall|k: int| 0 <= k < t.free.len() implies 0 <= (#[trigger] t.free[k])
        < t.cells.len() && t.cells[t.free[k]] is None by {
        assert(s.cells[s.free[k]] is None);
    }
}

/// Whether `i` is one of `indices`.
pub open spec fn listed(indices: Seq<int>, i: int) -> bool {
    exists|k: int| 0 <= k < indices.len() && indices[k] == i
}

/// Whether `indices` are pairwise distinct and each names an occupied cell
/// of `store`.
pub open spec fn tracks<T>(indices: Seq<int>, store: Slots<T>) -> bool {
    &&& indices.no_duplicates()
    &&& forall|k: int| 0 <= k < indices.len() ==> store.occupied(#[trigger] indices[k])
}

/// Freeing distinct occupied cells keeps a store well formed, pushes them on
/// the free stack in the order given, empties exactly those cells and lowers
/// the length by their number.
pub proof fn lemma_remove_all<T>(s: Slots<T>, indices: Seq<int>)
    requires
        s.wf(),
        tracks(indices, s),
    ensures
        s.remove_all(indices).wf(),
        s.remove_all(indices).free == s.free + indices,
        s.remove_all(indices).cells.len() == s.cells.len(),
        s.remove_all(indices).len() + indices.len() == s.len(),
        forall|i: int|
            #[trigger] s.remove_all(indices).lookup(i) == if listed(indices, i) {
                None
            } else {
                s.lookup(i)
            },
    decreases indices.len(),
{
    if indices.len() > 0 {
        let init = indices.drop_last();
        let last = indices.last();
        lemma_remove_all(s, init);
        let m = s.remove_all(init);
        assert(!listed(init, last)) by {
            if listed(init, last) {
                let k = choose|k: int| 0 <= k < init.len() && init[k] == last;
                assert(indices[k] == indices[indices.len() - 1]);
            }
        }
        assert(s.occupied(indices[indices.len() - 1]));
        assert(m.lookup(last) == s.lookup(last));
        lemma_remove(m, last);
        assert(m.free.push(last) =~= s.free + indices);
        assert forall|i: int|
            #[trigger] s.remove_all(indices).lookup(i) == if listed(indices, i) {
                None
            } else {
                s.lookup(i)
            } by {
            if i == last {
                assert(indices[indices.len() - 1] == i);
            } else if listed(init, i) {
                let k = choose|k: int| 0 <= k < init.len() && init[k] == i;
                assert(indices[k] == i);
                assert(m.lookup(i) is None);
            } else {
                if listed(indices, i) {
                    let k = choose|k: int| 0 <= k < indices.len() && indices[k] == i;
                    assert(init[k] == i);
                }
                assert(m.lookup(i) == s.lookup(i));
            }
        }
    } else {
        assert(s.free + indices =~= s.free);
    }
}

/// Last freed, first reused: after an occupied cell is freed, the next
/// insertion fills that very cell and leaves the free stack as it was before.
pub proof fn lemma_reuse_after_remove<T>(s: Slots<T>, i: int, value: T)
    requires
        s.wf(),
        s.occupied(i),
    ensures
        s.remove(i).next_idx() == i,
        s.remove(i).insert(value) == s.replace(i, value),
        s.remove(i).insert(value).cells.len() == s.cells.len(),
{
    assert(s.free.push(i).drop_last() =~= s.free);
    assert(s.cells.update(i, None).update(i, Some(value)) =~= s.cells.update(i, Some(value)));
}

/// Holes are reused in the reverse of the order in which they were made:
/// once the cells `indices` are freed, the next insertion fills the last of
/// them, and what is left free is what freeing all but that last one leaves.
pub proof fn lemma_lifo_reuse<T>(s: Slots<T>, indices: Seq<int>, value: T)
    requires
        s.wf(),
        tracks(indices, s),
        indices.len() > 0,
    ensures
        s.remove_all(indices).next_idx() == indices.last(),
        s.remove_all(indices).insert(value).free == s.remove_all(indices.drop_last()).free,
        s.remove_all(indices).insert(value).cells.len() == s.cells.len(),
{
    let init = indices.drop_last();
    lemma_remove_all(s, init);
    lemma_remove_all(s, indices);
    let m = s.remove_all(init);
    assert(m.free.push(indices.last()).drop_last() =~= m.free);
}

} // verus!
