//! The dedup table of one component type: an arena of shelves and an index
//! from a value's content hash to the shelf that shows a value of that
//! hash. A value whose hash is indexed joins that shelf instead of being
//! stored again.

use crate::unmoving_vec::UnmovingVec;
use crate::utils::HashMe;
use std::collections::HashMap;
use vstd::prelude::*;

verus! {

/// The index of a shelf in its cupboard.
pub type ShelfRef = usize;

/// The sharing unit: a value held for one entity, or for several that share it.
#[allow(inconsistent_fields)]
#[derive(Clone)]
pub enum Shelf<T> {
    /// Held for a single entity. `data` is `None` while the value is checked
    /// out.
    One { data: Option<T> },
    /// Shared by `qty` entities. `data_backup` is the value that all of them
    /// read; `data` is a spare copy that the next checkout hands out;
    /// `loaned` says that a copy is checked out. A shelf that all its sharers
    /// left has `qty` 0: it keeps its value for the next entity that brings
    /// an equal one.
    Many { data_backup: T, data: Option<Box<T>>, qty: u32, loaned: bool },
}

impl<T> Shelf<T> {
    /// The number of entities that the shelf is held for.
    pub open spec fn share_count(self) -> nat {
        match self {
            Shelf::One { .. } => 1,
            Shelf::Many { qty, .. } => qty as nat,
        }
    }

    /// The value that a reader sees, or `None` while an exclusive value is
    /// checked out.
    pub open spec fn value(self) -> Option<T> {
        match self {
            Shelf::One { data } => data,
            Shelf::Many { data_backup, .. } => Some(data_backup),
        }
    }

    /// Whether the shelf's value is checked out: the value of an exclusive
    /// shelf is away, or a copy of a shared value is out.
    pub open spec fn on_loan(self) -> bool {
        match self {
            Shelf::One { data } => data is None,
            Shelf::Many { loaned, .. } => loaned,
        }
    }

    /// A shared shelf is shared by at least two, or abandoned.
    pub open spec fn wf(self) -> bool {
        self matches Shelf::Many { qty, .. } ==> qty != 1
    }

    /// The shelf after `n` more entities were folded onto it. An abandoned
    /// shelf that gets a single entity is exclusive again.
    pub open spec fn grown(self, n: u32) -> Shelf<T> {
        if n == 0 {
            self
        } else {
            match self {
                Shelf::One { data } => Shelf::Many {
                    data_backup: data.unwrap(),
                    data: None,
                    qty: (n + 1) as u32,
                    loaned: false,
                },
                Shelf::Many { data_backup, data, qty, loaned } => if qty + n == 1 {
                    Shelf::One { data: Some(data_backup) }
                } else {
                    Shelf::Many { data_backup, data, qty: (qty + n) as u32, loaned }
                },
            }
        }
    }

    /// The shelf after one more entity joined it, bringing `extra` as the
    /// spare copy. An abandoned shelf is exclusive again, and holds `extra`
    /// if there is one.
    pub open spec fn joined(self, extra: Option<T>) -> Shelf<T> {
        let spare = match extra {
            Some(v) => Some(Box::new(v)),
            None => None,
        };
        match self {
            Shelf::One { data } => Shelf::Many {
                data_backup: data.unwrap(),
                data: spare,
                qty: 2,
                loaned: false,
            },
            Shelf::Many { data_backup, qty, loaned, .. } => if qty == 0 {
                Shelf::One {
                    data: Some(
                        match extra {
                            Some(v) => v,
                            None => data_backup,
                        },
                    ),
                }
            } else {
                Shelf::Many { data_backup, data: spare, qty: (qty + 1) as u32, loaned }
            },
        }
    }

    /// Whether a checkout may hand out `value`: the value of an exclusive
    /// shelf, the spare copy of a shared one, or a clone of the shared value
    /// where the shelf has no spare copy.
    pub open spec fn hands_out(self, value: T) -> bool where T: Clone {
        match self {
            Shelf::One { data } => data == Some(value),
            Shelf::Many { data_backup, data, .. } => match data {
                Some(spare) => value == *spare,
                None => cloned(data_backup, value),
            },
        }
    }

    /// The shelf after a checkout: an exclusive value is gone, a shared
    /// shelf has handed out its spare copy and records the loan.
    pub open spec fn checked_out(self) -> Shelf<T> {
        match self {
            Shelf::One { .. } => Shelf::One { data: None },
            Shelf::Many { data_backup, qty, .. } => Shelf::Many {
                data_backup,
                data: None,
                qty,
                loaned: true,
            },
        }
    }

    /// The shelf after `value` came back to it: the exclusive value, or the
    /// spare copy of a shared shelf. The loan is over.
    pub open spec fn given_back(self, value: T) -> Shelf<T> {
        match self {
            Shelf::One { .. } => Shelf::One { data: Some(value) },
            Shelf::Many { data_backup, qty, .. } => Shelf::Many {
                data_backup,
                data: Some(Box::new(value)),
                qty,
                loaned: false,
            },
        }
    }

    /// The shelf after `n` of its sharers left, one of them with the copy
    /// that was checked out, if one was: exclusive when one is left,
    /// abandoned when none is, else shared.
    pub open spec fn released(self, n: u32) -> Shelf<T> {
        match self {
            Shelf::One { data } => if n == 1 {
                Shelf::Many { data_backup: data.unwrap(), data: None, qty: 0, loaned: false }
            } else {
                self
            },
            Shelf::Many { data_backup, data, qty, .. } => if qty - n == 1 {
                Shelf::One { data: Some(data_backup) }
            } else {
                Shelf::Many { data_backup, data, qty: (qty - n) as u32, loaned: false }
            },
        }
    }

    /// The number of entities that the shelf is held for.
    pub fn qty(&self) -> (n: u32)
        ensures
            n == self.share_count(),
    {
        match self {
            Shelf::One { .. } => 1,
            Shelf::Many { qty, .. } => *qty,
        }
    }

    /// Whether the shelf is held for a single entity.
    pub fn is_one(&self) -> (b: bool)
        ensures
            b == (*self is One),
    {
        match self {
            Shelf::One { .. } => true,
            Shelf::Many { .. } => false,
        }
    }

    /// Whether the shelf's value is checked out.
    pub fn is_on_loan(&self) -> (b: bool)
        ensures
            b == self.on_loan(),
    {
        match self {
            Shelf::One { data } => data.is_none(),
            Shelf::Many { loaned, .. } => *loaned,
        }
    }

    /// Read access to the value, without a checkout.
    pub fn peek(&self) -> (r: &T)
        requires
            self.value() is Some,
        ensures
            self.value() == Some(*r),
    {
        match self {
            Shelf::One { data } => data.as_ref().unwrap(),
            Shelf::Many { data_backup, .. } => data_backup,
        }
    }

    /// One more entity joins the shelf. `extra`, if given, becomes the spare
    /// copy.
    pub fn join(&mut self, extra: Option<T>)
        requires
            old(self).value() is Some,
            old(self).share_count() < u32::MAX,
        ensures
            *final(self) == old(self).joined(extra),
    {
        let mut taken = Shelf::One { data: None };
        std::mem::swap(self, &mut taken);
        match taken {
            Shelf::One { data } => {
                let spare = match extra {
                    Some(v) => Some(Box::new(v)),
                    None => None,
                };
                *self = Shelf::Many { data_backup: data.unwrap(), data: spare, qty: 2, loaned: false };
            },
            Shelf::Many { data_backup, data: _, qty, loaned } => {
                if qty == 0 {
                    let value = match extra {
                        Some(v) => v,
                        None => data_backup,
                    };
                    *self = Shelf::One { data: Some(value) };
                } else {
                    let spare = match extra {
                        Some(v) => Some(Box::new(v)),
                        None => None,
                    };
                    *self = Shelf::Many { data_backup, data: spare, qty: qty + 1, loaned };
                }
            },
        }
    }

    /// `n` more entities are folded onto the shelf in one step.
    pub fn grow(&mut self, n: u32)
        requires
            n > 0 ==> old(self).value() is Some,
            old(self).share_count() + n <= u32::MAX,
        ensures
            *final(self) == old(self).grown(n),
    {
        if n == 0 {
            return ;
        }
        let mut taken = Shelf::One { data: None };
        std::mem::swap(self, &mut taken);
        match taken {
            Shelf::One { data } => {
                *self = Shelf::Many { data_backup: data.unwrap(), data: None, qty: n + 1, loaned: false };
            },
            Shelf::Many { data_backup, data, qty, loaned } => {
                if qty == 0 && n == 1 {
                    *self = Shelf::One { data: Some(data_backup) };
                } else {
                    *self = Shelf::Many { data_backup, data, qty: qty + n, loaned };
                }
            },
        }
    }

    /// Takes the value out for mutation. An exclusive shelf gives up its
    /// value until it is given back. A shared shelf hands out its spare copy,
    /// or a clone of the shared value when it has none, keeps the shared
    /// value for the other sharers, and records the loan.
    pub fn checkout(&mut self) -> (r: T) where T: Clone
        requires
            !old(self).on_loan(),
        ensures
            *final(self) == old(self).checked_out(),
            old(self).hands_out(r),
    {
        match self {
            Shelf::One { data } => data.take().unwrap(),
            Shelf::Many { data_backup, data, loaned, .. } => {
                *loaned = true;
                match data.take() {
                    Some(spare) => *spare,
                    None => data_backup.clone(),
                }
            },
        }
    }

    /// Puts `value` back: as the value of an exclusive shelf, as the spare
    /// copy of a shared one. The loan is over.
    pub fn give_back(&mut self, value: T)
        ensures
            *final(self) == old(self).given_back(value),
    {
        match self {
            Shelf::One { data } => {
                *data = Some(value);
            },
            Shelf::Many { data, loaned, .. } => {
                *data = Some(Box::new(value));
                *loaned = false;
            },
        }
    }

    /// `n` sharers leave the shelf, and a loan of it is over. With one
    /// sharer left the shelf is exclusive and holds the shared value; with
    /// none left it is abandoned.
    pub fn release(&mut self, n: u32)
        requires
            old(self).value() is Some,
            n <= old(self).share_count(),
        ensures
            *final(self) == old(self).released(n),
    {
        let mut taken = Shelf::One { data: None };
        std::mem::swap(self, &mut taken);
        match taken {
            Shelf::One { data } => {
                if n == 1 {
                    *self = Shelf::Many { data_backup: data.unwrap(), data: None, qty: 0, loaned: false };
                } else {
                    *self = Shelf::One { data };
                }
            },
            Shelf::Many { data_backup, data, qty, loaned: _ } => {
                if qty - n == 1 {
                    *self = Shelf::One { data: Some(data_backup) };
                } else {
                    *self = Shelf::Many { data_backup, data, qty: qty - n, loaned: false };
                }
            },
        }
    }
}

/// What a cupboard holds, as mathematics: its shelves in index order and the
/// hash index.
pub struct Shelves<T> {
    pub shelves: Seq<Shelf<T>>,
    /// From a content hash to the shelf that holds a value with that hash.
    pub index: Map<u64, ShelfRef>,
}

impl<T> Shelves<T> {
    /// Every indexed hash leads to a shelf that shows a value with that
    /// hash.
    pub open spec fn wf(self) -> bool where T: HashMe {
        &&& self.shelves.len() <= usize::MAX
        &&& forall|h: u64| #[trigger]
            self.index.contains_key(h) ==> self.index[h] < self.shelves.len() && self.shows(
                self.index[h],
                h,
            )
    }

    /// Whether the shelf `shelf_ref` shows a value with content hash `hash`.
    pub open spec fn shows(self, shelf_ref: ShelfRef, hash: u64) -> bool where T: HashMe {
        self.shelves[shelf_ref as int].value() matches Some(v) && v.hash_spec() == hash
    }

    /// The cupboard with nothing in it.
    pub open spec fn empty() -> Shelves<T> {
        Shelves { shelves: Seq::empty(), index: Map::empty() }
    }

    /// The cupboard with one shelf replaced.
    pub open spec fn with_shelf(self, shelf_ref: ShelfRef, shelf: Shelf<T>) -> Shelves<T> {
        Shelves { shelves: self.shelves.update(shelf_ref as int, shelf), index: self.index }
    }

    /// Whether `n` more entities can join the shelf `shelf_ref`: the shelf
    /// exists, shows a value, and its count has room.
    pub open spec fn can_join(self, shelf_ref: ShelfRef, n: nat) -> bool {
        &&& shelf_ref < self.shelves.len()
        &&& self.shelves[shelf_ref as int].value() is Some
        &&& self.shelves[shelf_ref as int].share_count() + n <= u32::MAX
    }

    /// The cupboard after `n` entities were folded onto the shelf `shelf_ref`.
    pub open spec fn add_qty(self, shelf_ref: ShelfRef, n: u32) -> Shelves<T> {
        self.with_shelf(shelf_ref, self.shelves[shelf_ref as int].grown(n))
    }

    /// The cupboard after one more entity joined the shelf `shelf_ref`.
    pub open spec fn join(self, shelf_ref: ShelfRef, extra: Option<T>) -> Shelves<T> {
        self.with_shelf(shelf_ref, self.shelves[shelf_ref as int].joined(extra))
    }

    /// The cupboard after a new exclusive shelf was made for `value` and
    /// indexed under `hash`.
    pub open spec fn create(self, value: T, hash: u64) -> Shelves<T> {
        Shelves {
            shelves: self.shelves.push(Shelf::One { data: Some(value) }),
            index: self.index.insert(hash, self.shelves.len() as usize),
        }
    }

    /// The shelf that a value with content hash `hash` lands on: the indexed
    /// one, or a new one at the end.
    pub open spec fn target(self, hash: u64) -> ShelfRef {
        if self.index.contains_key(hash) {
            self.index[hash]
        } else {
            self.shelves.len() as usize
        }
    }

    /// Whether a value with content hash `hash` can be added: where its hash
    /// is indexed, the count of the indexed shelf has room.
    pub open spec fn can_add(self, hash: u64) -> bool {
        self.index.contains_key(hash) ==> self.shelves[self.index[hash] as int].share_count()
            < u32::MAX
    }

    /// The cupboard after `value`, whose content hash is `hash`, was added
    /// and given up by the caller: it joins the indexed shelf as the spare
    /// copy, or gets a new exclusive shelf.
    pub open spec fn add(self, value: T, hash: u64) -> Shelves<T> {
        if self.index.contains_key(hash) {
            self.join(self.index[hash], Some(value))
        } else {
            self.create(value, hash)
        }
    }

    /// The shelf that a value lands on which the caller keeps. `hash` is the
    /// content hash of the caller's value and `copy` the clone of it that is
    /// made where that hash is not indexed.
    pub open spec fn target_ref(self, copy: T, hash: u64) -> ShelfRef where T: HashMe {
        if self.index.contains_key(hash) {
            self.index[hash]
        } else {
            self.target(copy.hash_spec())
        }
    }

    /// The cupboard after a value with content hash `hash` was added that the
    /// caller keeps: it joins the indexed shelf, which then has no spare
    /// copy; where the hash is not indexed, the clone `copy` is added in its
    /// place.
    pub open spec fn add_ref(self, copy: T, hash: u64) -> Shelves<T> where T: HashMe {
        if self.index.contains_key(hash) {
            self.join(self.index[hash], None)
        } else {
            self.add(copy, copy.hash_spec())
        }
    }

    /// The hash index without the entry that leads to the shelf `shelf_ref`
    /// if that shelf is exclusive: its value is about to leave it.
    pub open spec fn unindexed(self, shelf_ref: ShelfRef) -> Map<u64, ShelfRef> where T: HashMe {
        match self.shelves[shelf_ref as int] {
            Shelf::One { data: Some(v) } => if self.index.contains_key(v.hash_spec())
                && self.index[v.hash_spec()] == shelf_ref {
                self.index.remove(v.hash_spec())
            } else {
                self.index
            },
            _ => self.index,
        }
    }

    /// The cupboard after the value of the shelf `shelf_ref` was checked
    /// out. An exclusive shelf then shows no value and is no longer indexed.
    pub open spec fn checked_out(self, shelf_ref: ShelfRef) -> Shelves<T> where T: HashMe {
        Shelves {
            shelves: self.shelves.update(
                shelf_ref as int,
                self.shelves[shelf_ref as int].checked_out(),
            ),
            index: self.unindexed(shelf_ref),
        }
    }

    /// The cupboard after `value` came back to the shelf `shelf_ref`. An
    /// exclusive shelf shows `value` from then on, and is indexed under the
    /// hash of `value` unless that hash is indexed already.
    pub open spec fn given_back(self, shelf_ref: ShelfRef, value: T) -> Shelves<T> where T: HashMe {
        Shelves {
            shelves: self.shelves.update(
                shelf_ref as int,
                self.shelves[shelf_ref as int].given_back(value),
            ),
            index: if self.shelves[shelf_ref as int] is One && !self.index.contains_key(
                value.hash_spec(),
            ) {
                self.index.insert(value.hash_spec(), shelf_ref)
            } else {
                self.index
            },
        }
    }

    /// The cupboard after `n` sharers left the shelf `shelf_ref`.
    pub open spec fn released(self, shelf_ref: ShelfRef, n: u32) -> Shelves<T> {
        self.with_shelf(shelf_ref, self.shelves[shelf_ref as int].released(n))
    }
}

/// The shelves that an arena of shelves stands for, where every slot is live.
spec fn shelves_of<T>(slots: Seq<Option<Shelf<T>>>) -> Seq<Shelf<T>> {
    Seq::new(slots.len(), |i: int| slots[i].unwrap())
}

/// The dedup table of one component type.
#[derive(Clone)]
pub struct Cupboard<T> {
    vec: UnmovingVec<Shelf<T>>,
    hash_shelf_lookup: HashMap<u64, ShelfRef>,
}

impl<T> View for Cupboard<T> {
    type V = Shelves<T>;

    closed spec fn view(&self) -> Shelves<T> {
        Shelves { shelves: shelves_of(self.vec@.slots), index: self.hash_shelf_lookup@ }
    }
}

impl<T> Cupboard<T> {
    /// Every slot of the arena holds a shelf.
    pub closed spec fn inv(&self) -> bool {
        &&& self.vec.wf()
        &&& self.vec@.free.len() == 0
    }

    /// The invariant of the cupboard. `new` establishes it and every method
    /// but `get_shelf_mut` keeps it.
    pub open spec fn wf(&self) -> bool where T: HashMe {
        &&& self.inv()
        &&& self@.wf()
    }

    proof fn lemma_all_live(&self)
        requires
            self.inv(),
        ensures
            forall|i: int| 0 <= i < self.vec@.slots.len() ==> self.vec@.is_live(i),
            self@.shelves.len() == self.vec@.slots.len(),
            self@.shelves.len() <= usize::MAX,
    {
        assert forall|i: int| 0 <= i < self.vec@.slots.len() implies self.vec@.is_live(i) by {
            if self.vec@.slots[i] is None {
                assert(self.vec@.free.contains(i as usize));
            }
        }
    }
}

impl<T: Clone + HashMe> Cupboard<T> {
    /// A cupboard without shelves.
    pub fn new() -> (c: Cupboard<T>)
        ensures
            c.wf(),
            c@ == Shelves::<T>::empty(),
    {
        let c = Cupboard { vec: UnmovingVec::new(), hash_shelf_lookup: HashMap::new() };
        proof {
            assert(c@.shelves =~= Seq::<Shelf<T>>::empty());
        }
        c
    }

    /// The number of shelves.
    pub fn len(&self) -> (n: usize)
        requires
            self.wf(),
        ensures
            n == self@.shelves.len(),
    {
        self.vec.capacity()
    }

    /// The shelf that the hash index has for `hash`, if any.
    pub fn lookup(&self, hash: u64) -> (r: Option<ShelfRef>)
        requires
            self.wf(),
        ensures
            r == (if self@.index.contains_key(hash) {
                Some(self@.index[hash])
            } else {
                None
            }),
    {
        match self.hash_shelf_lookup.get(&hash) {
            Some(shelf_ref) => Some(*shelf_ref),
            None => None,
        }
    }

    /// Folds `qty` more entities onto the shelf `shelf_ref` in one step.
    pub fn add_qty(&mut self, shelf_ref: ShelfRef, qty: u32)
        requires
            old(self).wf(),
            shelf_ref < old(self)@.shelves.len(),
            qty > 0 ==> old(self)@.can_join(shelf_ref, qty as nat),
        ensures
            final(self).wf(),
            final(self)@ == old(self)@.add_qty(shelf_ref, qty),
    {
        if qty == 0 {
            proof {
                assert(self@.shelves =~= self@.add_qty(shelf_ref, qty).shelves);
            }
            return ;
        }
        let shelf = self.get_shelf_mut(&shelf_ref);
        shelf.grow(qty);
        proof {
            old(self)@.lemma_same_value(shelf_ref, self@.shelves[shelf_ref as int]);
        }
    }

    /// Adds a value that the caller keeps: it joins the shelf that its hash
    /// is indexed to; where the hash is not indexed, a clone of it is added.
    /// Returns the shelf.
    pub fn add_component_ref(&mut self, new_data: &T) -> (shelf_ref: ShelfRef)
        requires
            old(self).wf(),
            forall|h: u64| old(self)@.can_add(h),
        ensures
            final(self).wf(),
            shelf_ref < final(self)@.shelves.len(),
            exists|copy: T|
                cloned(*new_data, copy) && shelf_ref == #[trigger] old(self)@.target_ref(
                    copy,
                    new_data.hash_spec(),
                ) && final(self)@ == old(self)@.add_ref(copy, new_data.hash_spec()),
    {
        let hash = new_data.hash_me();
        match self.lookup(hash) {
            Some(shelf_ref) => {
                assert(self@.can_add(hash) && self@.shows(self@.index[hash], hash));
                let shelf_ref = self.increment_shelf_ref_qty(None, shelf_ref);
                assert(cloned(*new_data, *new_data));
                assert(shelf_ref == old(self)@.target_ref(*new_data, hash));
                shelf_ref
            },
            None => {
                let copy = new_data.clone();
                assert(old(self)@.can_add(copy.hash_spec()));
                let shelf_ref = self.add_component(copy);
                assert(shelf_ref == old(self)@.target_ref(copy, hash));
                shelf_ref
            },
        }
    }

    /// Adds a value and takes it over: it joins the shelf that its hash is
    /// indexed to, as that shelf's spare copy, or gets a new exclusive shelf.
    /// Returns the shelf.
    pub fn add_component(&mut self, new_data: T) -> (shelf_ref: ShelfRef)
        requires
            old(self).wf(),
            old(self)@.can_add(new_data.hash_spec()),
        ensures
            final(self).wf(),
            shelf_ref == old(self)@.target(new_data.hash_spec()),
            shelf_ref < final(self)@.shelves.len(),
            final(self)@ == old(self)@.add(new_data, new_data.hash_spec()),
    {
        let hash = new_data.hash_me();
        match self.lookup(hash) {
            Some(shelf_ref) => {
                assert(self@.shows(self@.index[hash], hash));
                self.increment_shelf_ref_qty(Some(new_data), shelf_ref)
            },
            None => self.create_new_component(new_data, hash),
        }
    }

    fn create_new_component(&mut self, new_data: T, hash: u64) -> (shelf_ref: usize)
        requires
            old(self).wf(),
            hash == new_data.hash_spec(),
        ensures
            final(self).wf(),
            shelf_ref == old(self)@.shelves.len(),
            final(self)@ == old(self)@.create(new_data, hash),
    {
        proof {
            self.lemma_all_live();
        }
        let shelf = Shelf::One { data: Some(new_data) };
        let comp_index = self.vec.push(shelf);
        self.hash_shelf_lookup.insert(hash, comp_index);
        proof {
            assert(self@.shelves =~= old(self)@.create(new_data, hash).shelves);
            assert forall|h: u64| #[trigger] self@.index.contains_key(h) implies self@.index[h]
                < self@.shelves.len() && self@.shows(self@.index[h], h) by {
                if h != hash {
                    assert(old(self)@.index.contains_key(h));
                    assert(old(self)@.shows(old(self)@.index[h], h));
                }
            }
        }
        comp_index
    }

    fn increment_shelf_ref_qty(&mut self, new_data: Option<T>, existing: ShelfRef) -> (shelf_ref:
        ShelfRef)
        requires
            old(self).wf(),
            old(self)@.can_join(existing, 1),
            new_data matches Some(v) ==> old(self)@.shows(existing, v.hash_spec()),
        ensures
            final(self).wf(),
            shelf_ref == existing,
            final(self)@ == old(self)@.join(existing, new_data),
    {
        let shelf = self.get_shelf_mut(&existing);
        shelf.join(new_data);
        proof {
            old(self)@.lemma_same_value(existing, self@.shelves[existing as int]);
        }
        existing
    }

    /// Takes the value of the shelf `shelf_ref` out for mutation. The value
    /// of an exclusive shelf leaves the cupboard, and with it the entry of
    /// the hash index that led to the shelf.
    pub fn checkout(&mut self, shelf_ref: ShelfRef) -> (value: T)
        requires
            old(self).wf(),
            shelf_ref < old(self)@.shelves.len(),
            !old(self)@.shelves[shelf_ref as int].on_loan(),
        ensures
            final(self).wf(),
            final(self)@ == old(self)@.checked_out(shelf_ref),
            old(self)@.shelves[shelf_ref as int].hands_out(value),
    {
        let shelf = self.get_shelf(&shelf_ref);
        if shelf.is_one() {
            let hash = shelf.peek().hash_me();
            if self.lookup(hash) == Some(shelf_ref) {
                self.hash_shelf_lookup.remove(&hash);
            }
        }
        assert(self.hash_shelf_lookup@ == old(self)@.unindexed(shelf_ref));
        let ghost index = self.hash_shelf_lookup@;
        let shelf = self.get_shelf_mut(&shelf_ref);
        let value = shelf.checkout();
        proof {
            assert forall|h: u64| #[trigger] self@.index.contains_key(h) implies self@.index[h]
                < self@.shelves.len() && self@.shows(self@.index[h], h) by {
                assert(old(self)@.index.contains_key(h));
                assert(old(self)@.shows(old(self)@.index[h], h));
            }
        }
        value
    }

    /// Puts `value` back on the shelf `shelf_ref`, whose value is checked
    /// out. An exclusive shelf shows `value` from then on, and is indexed
    /// under its hash unless that hash is indexed already.
    pub fn give_back(&mut self, shelf_ref: ShelfRef, value: T)
        requires
            old(self).wf(),
            shelf_ref < old(self)@.shelves.len(),
            old(self)@.shelves[shelf_ref as int].on_loan(),
        ensures
            final(self).wf(),
            final(self)@ == old(self)@.given_back(shelf_ref, value),
    {
        if self.get_shelf(&shelf_ref).is_one() {
            let hash = value.hash_me();
            if self.lookup(hash).is_none() {
                self.hash_shelf_lookup.insert(hash, shelf_ref);
            }
        }
        let shelf = self.get_shelf_mut(&shelf_ref);
        shelf.give_back(value);
        proof {
            assert forall|h: u64| #[trigger] self@.index.contains_key(h) implies self@.index[h]
                < self@.shelves.len() && self@.shows(self@.index[h], h) by {
                if old(self)@.index.contains_key(h) {
                    assert(old(self)@.shows(old(self)@.index[h], h));
                }
            }
        }
    }

    /// `n` sharers leave the shelf `shelf_ref`.
    pub fn release(&mut self, shelf_ref: ShelfRef, n: u32)
        requires
            old(self).wf(),
            shelf_ref < old(self)@.shelves.len(),
            old(self)@.shelves[shelf_ref as int].value() is Some,
            n <= old(self)@.shelves[shelf_ref as int].share_count(),
        ensures
            final(self).wf(),
            final(self)@ == old(self)@.released(shelf_ref, n),
    {
        let shelf = self.get_shelf_mut(&shelf_ref);
        shelf.release(n);
        proof {
            old(self)@.lemma_same_value(shelf_ref, self@.shelves[shelf_ref as int]);
        }
    }

    /// Mutable access to the shelf `shelf_ref`. What the caller leaves behind
    /// the reference is the shelf's new content; the hash index is not
    /// touched, so it is the caller's to see that the shelf shows a value of
    /// the same hash afterwards.
    pub fn get_shelf_mut(&mut self, shelf_ref: &ShelfRef) -> (shelf: &mut Shelf<T>)
        requires
            old(self).inv(),
            *shelf_ref < old(self)@.shelves.len(),
        ensures
            *shelf == old(self)@.shelves[*shelf_ref as int],
            final(self).inv(),
            final(self)@ == old(self)@.with_shelf(*shelf_ref, *final(shelf)),
    {
        proof {
            self.lemma_all_live();
            let slots = self.vec@;
            assert forall|s: Shelf<T>|
                #[trigger] shelves_of(slots.replace(*shelf_ref as int, s).slots) == shelves_of(
                    slots.slots,
                ).update(*shelf_ref as int, s) by {
                assert(shelves_of(slots.replace(*shelf_ref as int, s).slots) =~= shelves_of(
                    slots.slots,
                ).update(*shelf_ref as int, s));
            }
        }
        self.vec.get_mut(*shelf_ref).unwrap()
    }

    /// The shelf `shelf_ref`.
    pub fn get_shelf(&self, shelf_ref: &ShelfRef) -> (shelf: &Shelf<T>)
        requires
            self.inv(),
            *shelf_ref < self@.shelves.len(),
        ensures
            *shelf == self@.shelves[*shelf_ref as int],
    {
        proof {
            self.lemma_all_live();
        }
        self.vec.get(*shelf_ref).unwrap()
    }
}

impl<T: HashMe> Shelves<T> {
    /// A cupboard stays well formed when a shelf is replaced by one that
    /// shows a value of the same hash.
    pub proof fn lemma_same_value(self, shelf_ref: ShelfRef, shelf: Shelf<T>)
        requires
            self.wf(),
            shelf_ref < self.shelves.len(),
            self.shelves[shelf_ref as int].value() matches Some(v) ==> (shelf.value() matches Some(
                w,
            ) && w.hash_spec() == v.hash_spec()),
        ensures
            self.with_shelf(shelf_ref, shelf).wf(),
    {
        let after = self.with_shelf(shelf_ref, shelf);
        assert forall|h: u64| #[trigger] after.index.contains_key(h) implies after.index[h]
            < after.shelves.len() && after.shows(after.index[h], h) by {
            assert(self.index.contains_key(h));
            assert(self.shows(self.index[h], h));
        }
    }

    /// Adding a value under its own hash keeps a cupboard well formed, as
    /// long as the machine can index the shelves, and the shelf that the
    /// value landed on shows a value of its hash.
    pub proof fn lemma_add_wf(self, value: T)
        requires
            self.wf(),
        ensures
            self.add(value, value.hash_spec()).shelves.len() <= usize::MAX ==> self.add(
                value,
                value.hash_spec(),
            ).wf(),
            self.add(value, value.hash_spec()).shows(
                self.target(value.hash_spec()),
                value.hash_spec(),
            ),
    {
        let hash = value.hash_spec();
        let after = self.add(value, hash);
        if self.index.contains_key(hash) {
            assert(self.shows(self.index[hash], hash));
            self.lemma_same_value(self.index[hash], after.shelves[self.index[hash] as int]);
        } else if after.shelves.len() <= usize::MAX {
            assert forall|h: u64| #[trigger] after.index.contains_key(h) implies after.index[h]
                < after.shelves.len() && after.shows(after.index[h], h) by {
                if h != hash {
                    assert(self.index.contains_key(h));
                    assert(self.shows(self.index[h], h));
                }
            }
        }
    }

    /// Adding a value that the caller keeps does the same.
    pub proof fn lemma_add_ref_wf(self, copy: T, hash: u64)
        requires
            self.wf(),
            self.add_ref(copy, hash).shelves.len() <= usize::MAX,
        ensures
            self.add_ref(copy, hash).wf(),
            self.add_ref(copy, hash).shelves[self.target_ref(copy, hash) as int].value() is Some,
    {
        if self.index.contains_key(hash) {
            assert(self.shows(self.index[hash], hash));
            self.lemma_same_value(
                self.index[hash],
                self.add_ref(copy, hash).shelves[self.index[hash] as int],
            );
        } else {
            self.lemma_add_wf(copy);
        }
    }

    /// A checkout from a shelf whose value is at home keeps a cupboard well
    /// formed, and afterwards no hash leads to a shelf that is exclusive and
    /// on loan.
    pub proof fn lemma_checked_out_wf(self, shelf_ref: ShelfRef)
        requires
            self.wf(),
            shelf_ref < self.shelves.len(),
        ensures
            self.checked_out(shelf_ref).wf(),
    {
        let after = self.checked_out(shelf_ref);
        assert forall|h: u64| #[trigger] after.index.contains_key(h) implies after.index[h]
            < after.shelves.len() && after.shows(after.index[h], h) by {
            assert(self.index.contains_key(h));
            assert(self.shows(self.index[h], h));
        }
    }

    /// Giving a value back to a shelf that is on loan keeps a cupboard well
    /// formed.
    pub proof fn lemma_given_back_wf(self, shelf_ref: ShelfRef, value: T)
        requires
            self.wf(),
            shelf_ref < self.shelves.len(),
            self.shelves[shelf_ref as int].on_loan(),
        ensures
            self.given_back(shelf_ref, value).wf(),
    {
        let after = self.given_back(shelf_ref, value);
        assert forall|h: u64| #[trigger] after.index.contains_key(h) implies after.index[h]
            < after.shelves.len() && after.shows(after.index[h], h) by {
            if self.index.contains_key(h) {
                assert(self.shows(self.index[h], h));
            }
        }
    }
}

} // verus!
