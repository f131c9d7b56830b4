//! A vector-backed arena whose indices stay put: a slot keeps its index until
//! it is removed, and removed indices are handed out again, last freed first.

use vstd::prelude::*;

verus! {

/// What an arena holds, as mathematics: its slots in index order and the
/// stack of indices that are free to be reused.
pub struct Slots<T> {
    /// `Some(v)` for a live slot, `None` for a free one.
    pub slots: Seq<Option<T>>,
    /// The free indices, oldest first.
    pub free: Seq<usize>,
}

impl<T> Slots<T> {
    /// The free stack lists exactly the free slots, each once.
    pub open spec fn wf(self) -> bool {
        &&& self.slots.len() <= usize::MAX
        &&& self.free.no_duplicates()
        &&& forall|k: int|
            0 <= k < self.free.len() ==> (#[trigger] self.free[k]) < self.slots.len()
                && self.slots[self.free[k] as int] is None
        &&& forall|i: int|
            0 <= i < self.slots.len() && (#[trigger] self.slots[i]) is None ==> self.free.contains(
                i as usize,
            )
    }

    /// Whether `index` names a slot that currently holds a value.
    pub open spec fn is_live(self, index: int) -> bool {
        0 <= index < self.slots.len() && self.slots[index] is Some
    }

    /// The arena with nothing in it.
    pub open spec fn empty() -> Slots<T> {
        Slots { slots: Seq::empty(), free: Seq::empty() }
    }

    /// The index that the next `push` fills: the last freed one, or a new one
    /// at the end when none is free.
    pub open spec fn next_index(self) -> usize {
        if self.free.len() > 0 {
            self.free.last()
        } else {
            self.slots.len() as usize
        }
    }

    /// The arena after `item` was pushed.
    pub open spec fn push(self, item: T) -> Slots<T> {
        if self.free.len() > 0 {
            Slots {
                slots: self.slots.update(self.free.last() as int, Some(item)),
                free: self.free.drop_last(),
            }
        } else {
            Slots { slots: self.slots.push(Some(item)), free: self.free }
        }
    }

    /// The arena after the slot `index` was freed.
    pub open spec fn remove(self, index: usize) -> Slots<T> {
        Slots { slots: self.slots.update(index as int, None), free: self.free.push(index) }
    }

    /// The arena with the value of the live slot `index` replaced.
    pub open spec fn replace(self, index: int, item: T) -> Slots<T> {
        Slots { slots: self.slots.update(index, Some(item)), free: self.free }
    }
}

/// The slots that a value list and its free flags stand for.
spec fn slots_of<T>(list: Seq<T>, whats_free: Seq<bool>) -> Seq<Option<T>> {
    Seq::new(list.len(), |i: int| if whats_free[i] { None } else { Some(list[i]) })
}

/// A slot arena with stable indices.
#[derive(Debug, Clone, Hash)]
pub struct UnmovingVec<T> {
    list: Vec<T>,
    whats_free: Vec<bool>,
    /// The stack of free indices: `remove` pushes the index it frees, `push`
    /// pops the index it fills.
    free_stack: Vec<usize>,
}

impl<T> View for UnmovingVec<T> {
    type V = Slots<T>;

    closed spec fn view(&self) -> Slots<T> {
        Slots { slots: slots_of(self.list@, self.whats_free@), free: self.free_stack@ }
    }
}

impl<T> Default for UnmovingVec<T> {
    fn default() -> (v: UnmovingVec<T>)
        ensures
            v.wf(),
            v@ == Slots::<T>::empty(),
    {
        UnmovingVec::new()
    }
}

impl<T> UnmovingVec<T> {
    /// Every value has its free flag.
    pub closed spec fn inv(&self) -> bool {
        self.whats_free@.len() == self.list@.len()
    }

    /// The representation invariant. `new` establishes it and every method
    /// keeps it.
    pub open spec fn wf(&self) -> bool {
        &&& self.inv()
        &&& self@.wf()
    }

    /// An arena without slots.
    pub fn new() -> (v: UnmovingVec<T>)
        ensures
            v.wf(),
            v@ == Slots::<T>::empty(),
    {
        let v = UnmovingVec { list: Vec::new(), whats_free: Vec::new(), free_stack: Vec::new() };
        assert(v@.slots =~= Seq::<Option<T>>::empty());
        v
    }

    /// The value in slot `index`, or `None` when the slot is free.
    pub fn get(&self, index: usize) -> (r: Option<&T>)
        requires
            self.wf(),
            index < self@.slots.len(),
        ensures
            r == match self@.slots[index as int] {
                Some(v) => Some(&v),
                None => None,
            },
    {
        if !self.whats_free[index] {
            Some(&self.list[index])
        } else {
            None
        }
    }

    /// Mutable access to the value in slot `index`, or `None` when the slot
    /// is free. What the caller leaves behind the reference is the slot's new
    /// value.
    pub fn get_mut(&mut self, index: usize) -> (r: Option<&mut T>)
        requires
            old(self).wf(),
            index < old(self)@.slots.len(),
        ensures
            final(self).wf(),
            match r {
                Some(slot) => old(self)@.slots[index as int] == Some(*slot) && final(self)@ == old(
                    self,
                )@.replace(index as int, *final(slot)),
                None => old(self)@.slots[index as int] is None && final(self)@ == old(self)@,
            },
    {
        if !self.whats_free[index] {
            proof {
                let list = self.list@;
                let whats_free = self.whats_free@;
                let free = self.free_stack@;
                assert forall|v: T|
                    #[trigger] slots_of(list.update(index as int, v), whats_free) == slots_of(
                        list,
                        whats_free,
                    ).update(index as int, Some(v)) by {
                    assert(slots_of(list.update(index as int, v), whats_free) =~= slots_of(
                        list,
                        whats_free,
                    ).update(index as int, Some(v)));
                }
                assert forall|v: T|
                    (#[trigger] Slots { slots: slots_of(list, whats_free), free }.replace(
                        index as int,
                        v,
                    )).wf() by {
                    let after = Slots { slots: slots_of(list, whats_free), free }.replace(
                        index as int,
                        v,
                    );
                    assert forall|i: int|
                        0 <= i < after.slots.len() && (
                        #[trigger] after.slots[i]) is None implies after.free.contains(
                        i as usize,
                    ) by {
                        assert(slots_of(list, whats_free)[i] is None);
                    }
                }
            }
            Some(&mut self.list[index])
        } else {
            None
        }
    }

    /// Frees the live slot `index` and returns the value that it held. The
    /// index goes on top of the free stack.
    pub fn remove(&mut self, index: usize) -> (removed: &T)
        requires
            old(self).wf(),
            old(self)@.is_live(index as int),
        ensures
            final(self).wf(),
            old(self)@.slots[index as int] == Some(*removed),
            final(self)@ == old(self)@.remove(index),
    {
        self.whats_free.set(index, true);
        self.free_stack.push(index);
        proof {
            let before = old(self).free_stack@;
            assert(self@.slots =~= old(self)@.slots.update(index as int, None));
            assert forall|i: int|
                0 <= i < self@.slots.len() && (#[trigger] self@.slots[i]) is None implies self@.free.contains(
                i as usize,
            ) by {
                if i == index {
                    assert(self.free_stack@[before.len() as int] == index);
                } else {
                    assert(old(self)@.slots[i] is None);
                    let k = choose|k: int| 0 <= k < before.len() && before[k] == i as usize;
                    assert(self.free_stack@[k] == i as usize);
                }
            }
        }
        &self.list[index]
    }

    /// The number of slots, live and free.
    pub fn capacity(&self) -> (n: usize)
        ensures
            n == self@.slots.len(),
    {
        self.list.len()
    }

    /// Stores `item` in the most recently freed slot, or in a new slot at the
    /// end when none is free, and returns the slot's index. No live slot is
    /// touched.
    pub fn push(&mut self, item: T) -> (index: usize)
        requires
            old(self).wf(),
        ensures
            final(self).wf(),
            index == old(self)@.next_index(),
            final(self)@ == old(self)@.push(item),
            !old(self)@.is_live(index as int),
            final(self)@.slots[index as int] == Some(item),
    {
        match self.free_stack.pop() {
            Some(index) => {
                self.whats_free.set(index, false);
                self.list.set(index, item);
                proof {
                    let before = old(self).free_stack@;
                    assert(before[before.len() - 1] == index);
                    assert(self@.slots =~= old(self)@.slots.update(index as int, Some(item)));
                    assert(self.free_stack@ == before.drop_last());
                    assert forall|i: int|
                        0 <= i < self@.slots.len() && (
                        #[trigger] self@.slots[i]) is None implies self@.free.contains(
                        i as usize,
                    ) by {
                        assert(i != index);
                        assert(old(self)@.slots[i] is None);
                        let k = choose|k: int| 0 <= k < before.len() && before[k] == i as usize;
                        assert(k != before.len() - 1);
                        assert(self.free_stack@[k] == i as usize);
                    }
                }
                index
            },
            None => {
                let index = self.list.len();
                self.whats_free.push(false);
                self.list.push(item);
                proof {
                    assert(self.list.len() <= usize::MAX);
                    assert(self@.slots =~= old(self)@.slots.push(Some(item)));
                    assert(self.free_stack@ =~= old(self).free_stack@);
                    assert forall|i: int|
                        0 <= i < self@.slots.len() && (
                        #[trigger] self@.slots[i]) is None implies self@.free.contains(
                        i as usize,
                    ) by {
                        assert(old(self)@.slots[i] is None);
                    }
                }
                index
            },
        }
    }
}

/// A slot that was freed is the next one to be filled: after `remove(index)`,
/// `push(item)` hands `index` out again, the slot then holds `item` and not
/// the removed value, and every other slot is as it was before the removal.
pub proof fn lemma_removed_slot_is_reused<T>(arena: Slots<T>, index: usize, item: T)
    requires
        arena.wf(),
        arena.is_live(index as int),
    ensures
        arena.remove(index).wf(),
        arena.remove(index).next_index() == index,
        arena.remove(index).push(item).slots == arena.slots.update(index as int, Some(item)),
        arena.remove(index).push(item).free == arena.free,
{
    let removed = arena.remove(index);
    assert(removed.free.last() == index);
    assert(removed.free.drop_last() =~= arena.free);
    assert(removed.push(item).slots =~= arena.slots.update(index as int, Some(item)));
    assert forall|i: int|
        0 <= i < removed.slots.len() && (#[trigger] removed.slots[i]) is None implies removed.free.contains(
        i as usize,
    ) by {
        if i == index {
            assert(removed.free[arena.free.len() as int] == index);
        } else {
            assert(arena.slots[i] is None);
            let k = choose|k: int| 0 <= k < arena.free.len() && arena.free[k] == i as usize;
            assert(removed.free[k] == i as usize);
        }
    }
}

/// No two live values share an index: `push` fills a slot that held no value
/// and leaves every live slot with the value it had. The arena stays well
/// formed as long as its indices fit the machine's index type.
pub proof fn lemma_push_takes_a_free_slot<T>(arena: Slots<T>, item: T)
    requires
        arena.wf(),
    ensures
        !arena.is_live(arena.next_index() as int),
        arena.push(item).is_live(arena.next_index() as int),
        arena.push(item).slots[arena.next_index() as int] == Some(item),
        forall|i: int|
            arena.is_live(i) ==> arena.push(item).is_live(i) && arena.push(item).slots[i]
                == arena.slots[i],
        arena.free.len() > 0 || arena.slots.len() < usize::MAX ==> arena.push(item).wf(),
{
    let after = arena.push(item);
    if arena.free.len() > 0 {
        let index = arena.free.last();
        assert(arena.free[arena.free.len() - 1] == index);
        assert forall|i: int|
            0 <= i < after.slots.len() && (#[trigger] after.slots[i]) is None implies after.free.contains(
            i as usize,
        ) by {
            assert(i != index);
            assert(arena.slots[i] is None);
            let k = choose|k: int| 0 <= k < arena.free.len() && arena.free[k] == i as usize;
            assert(k != arena.free.len() - 1);
            assert(after.free[k] == i as usize);
        }
    } else {
        assert forall|i: int|
            0 <= i < after.slots.len() && (#[trigger] after.slots[i]) is None implies after.free.contains(
            i as usize,
        ) by {
            assert(arena.slots[i] is None);
        }
    }
}

} // verus!
