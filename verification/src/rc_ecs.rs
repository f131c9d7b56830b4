//! The entity store: entities, their components in deduplicating cupboards,
//! archetype buckets for queries by type, groups of entities that share
//! their shelves, and secondary indexes.

use crate::com::{Component, TypeIdNum};
use crate::cupboard::{Cupboard, ShelfRef, Shelves};
use crate::int_map::{int_map_get, int_map_get_mut, int_map_insert, int_map_len};
use crate::lentity::{
    grouped_lentity_to_lentity, is_grouped_lentity, lentity_to_grouped_lentity, GroupedLentity,
    Lentity,
};
use crate::world::{
    bucket_for, filed, filed_in, group_by, group_for, group_of, in_bucket, is_bucket_for,
    is_group_for, is_group_of, lemma_refs_at_least, matching, place, refiled, refs, repointed,
    same_key, slot, unfiled, Bucket, KeyIndex, Record, World,
};
use crate::world_groups::partitions;
use nohash_hasher::IntMap;
use std::collections::{HashMap, HashSet};
use vstd::prelude::*;

verus! {

/// The record of one entity: the shelf of each of its components.
#[derive(Clone)]
pub struct InternalEntity {
    shelves: HashMap<TypeIdNum, ShelfRef>,
    /// The component types of the entity, in the order in which they were
    /// added.
    types: Vec<TypeIdNum>,
}

impl View for InternalEntity {
    type V = Record;

    closed spec fn view(&self) -> Record {
        self.shelves@
    }
}

impl InternalEntity {
    /// `types` lists the keys of `shelves`, each once.
    pub closed spec fn wf(&self) -> bool {
        &&& self.types@.no_duplicates()
        &&& self.types@.to_set() == self.shelves@.dom()
    }

    /// The component types of the entity, in the order in which they were
    /// added.
    pub closed spec fn types(&self) -> Seq<TypeIdNum> {
        self.types@
    }

    /// The component types of a well-formed record are those that it has a
    /// shelf for, each once.
    pub proof fn lemma_types(&self)
        requires
            self.wf(),
        ensures
            self.types().to_set() == self@.dom(),
            self.types().no_duplicates(),
    {
    }

    /// The record of an entity without components.
    pub fn new() -> (entity: InternalEntity)
        ensures
            entity.wf(),
            entity@ == Map::<TypeIdNum, ShelfRef>::empty(),
    {
        let entity = InternalEntity { shelves: HashMap::new(), types: Vec::new() };
        assert(entity.types@.to_set() =~= entity.shelves@.dom());
        entity
    }

    /// The shelf of the component of type `t`, if the entity has one.
    pub fn get(&self, t: TypeIdNum) -> (r: Option<ShelfRef>)
        ensures
            r == slot(self@, t),
    {
        match self.shelves.get(&t) {
            Some(shelf_ref) => Some(*shelf_ref),
            None => None,
        }
    }

    /// Records `shelf_ref` as the shelf of the component of type `t`.
    pub fn insert(&mut self, t: TypeIdNum, shelf_ref: ShelfRef)
        requires
            old(self).wf(),
        ensures
            final(self).wf(),
            final(self)@ == old(self)@.insert(t, shelf_ref),
    {
        if !self.shelves.contains_key(&t) {
            self.types.push(t);
            proof {
                let before = old(self).types@;
                assert(!before.to_set().contains(t));
                assert(self.types@ == before.push(t));
                assert(self.types@.no_duplicates()) by {
                    assert forall|i: int, j: int|
                        0 <= i < self.types@.len() && 0 <= j < self.types@.len() && i != j implies self.types@[i]
                        != self.types@[j] by {
                        if i == before.len() {
                            assert(before.contains(before[j]));
                        } else if j == before.len() {
                            assert(before.contains(before[i]));
                        }
                    }
                }
                assert forall|k: TypeIdNum|
                    self.types@.to_set().contains(k) == old(self).shelves@.dom().insert(t).contains(
                        k,
                    ) by {
                    if k == t {
                        assert(self.types@[self.types@.len() - 1] == t);
                    } else if before.to_set().contains(k) {
                        let i = choose|i: int| 0 <= i < before.len() && before[i] == k;
                        assert(self.types@[i] == k);
                    } else if self.types@.contains(k) {
                        let i = choose|i: int| 0 <= i < self.types@.len() && self.types@[i] == k;
                        assert(before[i] == k);
                    }
                }
                assert(self.types@.to_set() =~= old(self).shelves@.dom().insert(t));
            }
        } else {
            proof {
                assert(old(self).shelves@.dom().insert(t) =~= old(self).shelves@.dom());
            }
        }
        self.shelves.insert(t, shelf_ref);
        proof {
            assert(self.shelves@.dom() =~= old(self).shelves@.dom().insert(t));
        }
    }

    /// A copy of the component types of the entity.
    pub fn type_list(&self) -> (list: Vec<TypeIdNum>)
        ensures
            list@ == self.types(),
    {
        self.types.clone()
    }
}

/// An archetype bucket: a set of component types and the entities that were
/// sealed with it.
#[derive(Clone)]
pub struct Archetype {
    sig: Vec<TypeIdNum>,
    lentities: Vec<Lentity>,
}

impl View for Archetype {
    type V = Bucket;

    closed spec fn view(&self) -> Bucket {
        Bucket { sig: self.sig@.to_set(), members: self.lentities@ }
    }
}

/// Whether `list` holds `t`.
fn holds(list: &Vec<TypeIdNum>, t: TypeIdNum) -> (b: bool)
    ensures
        b == list@.to_set().contains(t),
{
    let mut i: usize = 0;
    while i < list.len()
        invariant
            i <= list.len(),
            forall|j: int| 0 <= j < i ==> list@[j] != t,
        decreases list.len() - i,
    {
        if list[i] == t {
            return true;
        }
        i = i + 1;
    }
    false
}

/// Whether every type of `sub` is one of `sup`.
fn subset(sub: &Vec<TypeIdNum>, sup: &Vec<TypeIdNum>) -> (b: bool)
    ensures
        b == sub@.to_set().subset_of(sup@.to_set()),
{
    let mut i: usize = 0;
    while i < sub.len()
        invariant
            i <= sub.len(),
            forall|j: int| 0 <= j < i ==> sup@.to_set().contains(sub@[j]),
        decreases sub.len() - i,
    {
        if !holds(sup, sub[i]) {
            assert(sub@.to_set().contains(sub@[i as int]));
            return false;
        }
        i = i + 1;
    }
    true
}

/// A secondary index as mathematics.
pub open spec fn key_index_of(m: Map<u32, HashSet<Lentity>>) -> KeyIndex {
    Map::new(|k: u32| m.contains_key(k), |k: u32| m[k]@)
}

/// The cupboards as mathematics.
spec fn cupboards_of<T>(lookup: Map<TypeIdNum, usize>, cupboards: Seq<Cupboard<T>>) -> Map<
    TypeIdNum,
    Shelves<T>,
> {
    Map::new(|t: TypeIdNum| lookup.contains_key(t), |t: TypeIdNum| cupboards[lookup[t] as int]@)
}

/// The entity records as mathematics.
spec fn records_of(lentities: Map<Lentity, InternalEntity>) -> Seq<Record> {
    Seq::new(lentities.len(), |e: int| lentities[e as usize]@)
}

/// Whether the table holds a well-formed record for each entity number from
/// zero up to its size, and nothing else.
spec fn is_table(lentities: Map<Lentity, InternalEntity>) -> bool {
    &&& lentities.dom().finite()
    &&& lentities.len() <= usize::MAX
    &&& forall|e: Lentity| #[trigger] lentities.contains_key(e) <==> e < lentities.len()
    &&& forall|e: Lentity| lentities.contains_key(e) ==> (#[trigger] lentities[e]).wf()
}

/// A table with one more record, under the next entity number.
proof fn lemma_table_grows(lentities: Map<Lentity, InternalEntity>, record: InternalEntity)
    requires
        is_table(lentities),
        lentities.len() < usize::MAX,
        record.wf(),
    ensures
        is_table(lentities.insert(lentities.len() as usize, record)),
        records_of(lentities.insert(lentities.len() as usize, record)) == records_of(
            lentities,
        ).push(record@),
{
    let next = lentities.len() as usize;
    let grown = lentities.insert(next, record);
    assert(!lentities.contains_key(next));
    assert(grown.dom() =~= lentities.dom().insert(next));
    assert(grown.len() == lentities.len() + 1);
    assert(records_of(grown) =~= records_of(lentities).push(record@));
}

/// A table with the record of one entity replaced.
proof fn lemma_table_changes(lentities: Map<Lentity, InternalEntity>, e: Lentity, record: InternalEntity)
    requires
        is_table(lentities),
        e < lentities.len(),
        record.wf(),
    ensures
        is_table(lentities.insert(e, record)),
        records_of(lentities.insert(e, record)) == records_of(lentities).update(e as int, record@),
{
    let changed = lentities.insert(e, record);
    assert(lentities.contains_key(e));
    assert(changed.dom() =~= lentities.dom());
    assert(records_of(changed) =~= records_of(lentities).update(e as int, record@));
}

/// The archetype buckets as mathematics.
spec fn buckets_of(archetypes: Seq<Archetype>) -> Seq<Bucket> {
    Seq::new(archetypes.len(), |i: int| archetypes[i]@)
}

/// The groups as mathematics.
spec fn groups_of(groups: Seq<Vec<Lentity>>) -> Seq<Seq<Lentity>> {
    Seq::new(groups.len(), |g: int| groups[g]@)
}

/// The secondary indexes as mathematics.
spec fn indexes_of(lookup: Map<TypeIdNum, usize>, indexes: Seq<HashMap<u32, HashSet<Lentity>>>) -> Map<
    TypeIdNum,
    KeyIndex,
> {
    Map::new(
        |t: TypeIdNum| lookup.contains_key(t),
        |t: TypeIdNum| key_index_of(indexes[lookup[t] as int]@),
    )
}

/// Whether `lookup` leads to distinct places of a list of `n`.
spec fn is_lookup(lookup: Map<TypeIdNum, usize>, n: nat) -> bool {
    &&& forall|t: TypeIdNum| #[trigger] lookup.contains_key(t) ==> lookup[t] < n
    &&& forall|t: TypeIdNum, u: TypeIdNum|
        lookup.contains_key(t) && lookup.contains_key(u) && #[trigger] lookup[t]
            == #[trigger] lookup[u] ==> t == u
}

/// Whether `lookup` leads from the first member of each group to the place
/// of the group, and from nothing else to anywhere.
spec fn is_rep_lookup(lookup: Map<Lentity, usize>, groups: Seq<Seq<Lentity>>) -> bool {
    &&& forall|g: int|
        0 <= g < groups.len() ==> lookup.contains_key((#[trigger] groups[g])[0])
            && lookup[groups[g][0]] == g
    &&& forall|rep: Lentity| #[trigger]
        lookup.contains_key(rep) ==> lookup[rep] < groups.len() && groups[lookup[rep] as int][0]
            == rep
}

/// Files `e` under `key`.
fn file(index: &mut HashMap<u32, HashSet<Lentity>>, key: u32, e: Lentity)
    ensures
        key_index_of(final(index)@) == key_index_of(old(index)@).insert(
            key,
            filed(key_index_of(old(index)@), key).insert(e),
        ),
{
    let mut set = match index.remove(&key) {
        Some(set) => set,
        None => HashSet::new(),
    };
    set.insert(e);
    index.insert(key, set);
    proof {
        assert(key_index_of(index@) =~= key_index_of(old(index)@).insert(
            key,
            filed(key_index_of(old(index)@), key).insert(e),
        ));
    }
}

/// Takes `e` out of what is filed under `key`.
fn unfile(index: &mut HashMap<u32, HashSet<Lentity>>, key: u32, e: Lentity)
    ensures
        key_index_of(final(index)@) == key_index_of(old(index)@).insert(
            key,
            filed(key_index_of(old(index)@), key).remove(e),
        ),
{
    let mut set = match index.remove(&key) {
        Some(set) => set,
        None => HashSet::new(),
    };
    set.remove(&e);
    index.insert(key, set);
    proof {
        assert(key_index_of(index@) =~= key_index_of(old(index)@).insert(
            key,
            filed(key_index_of(old(index)@), key).remove(e),
        ));
    }
}

/// Appends the items of `src` to `dst`.
fn append(dst: &mut Vec<Lentity>, src: &Vec<Lentity>)
    ensures
        final(dst)@ == old(dst)@ + src@,
{
    let mut i: usize = 0;
    while i < src.len()
        invariant
            i <= src.len(),
            dst@ == old(dst)@ + src@.take(i as int),
        decreases src.len() - i,
    {
        dst.push(src[i]);
        proof {
            assert(src@.take(i + 1) =~= src@.take(i as int).push(src@[i as int]));
        }
        i = i + 1;
    }
    proof {
        assert(src@.take(src@.len() as int) =~= src@);
    }
}

/// Points the record of every one of `members` to shelf `target` for type
/// `t`.
fn repoint(
    lentities: &mut IntMap<Lentity, InternalEntity>,
    members: &Vec<Lentity>,
    t: TypeIdNum,
    target: ShelfRef,
)
    requires
        is_table(old(lentities)@),
        forall|k: int| 0 <= k < members@.len() ==> (#[trigger] members@[k]) < old(lentities)@.len(),
    ensures
        is_table(final(lentities)@),
        records_of(final(lentities)@) == repointed(records_of(old(lentities)@), members@, t, target),
{
    let mut i: usize = 0;
    proof {
        assert(records_of(lentities@) =~= repointed(
            records_of(old(lentities)@),
            members@.take(0),
            t,
            target,
        ));
    }
    while i < members.len()
        invariant
            i <= members.len(),
            is_table(lentities@),
            lentities@.len() == old(lentities)@.len(),
            forall|k: int| 0 <= k < members@.len() ==> (#[trigger] members@[k]) < lentities@.len(),
            records_of(lentities@) == repointed(
                records_of(old(lentities)@),
                members@.take(i as int),
                t,
                target,
            ),
        decreases members.len() - i,
    {
        let ghost table = lentities@;
        let ghost before = records_of(lentities@);
        let m = members[i];
        match int_map_get_mut(lentities, m) {
            Some(entity) => {
                entity.insert(t, target);
            },
            None => {},
        }
        proof {
            let start = records_of(old(lentities)@);
            let now = members@.take(i + 1);
            let then = members@.take(i as int);
            assert(now =~= then.push(m));
            lemma_table_changes(table, m, lentities@[m]);
            assert forall|e: int| 0 <= e < start.len() implies records_of(lentities@)[e]
                == repointed(start, now, t, target)[e] by {
                assert(before[e] == repointed(start, then, t, target)[e]);
                if e == m {
                    assert(now[i as int] == m);
                    assert(records_of(lentities@)[e] == before[e].insert(t, target));
                    assert(start[e].insert(t, target).insert(t, target) =~= start[e].insert(
                        t,
                        target,
                    ));
                } else if then.contains(e as usize) {
                    let k = choose|k: int| 0 <= k < then.len() && then[k] == e as usize;
                    assert(now[k] == e as usize);
                } else if now.contains(e as usize) {
                    let k = choose|k: int| 0 <= k < now.len() && now[k] == e as usize;
                    assert(k != i);
                    assert(then[k] == e as usize);
                }
            }
            assert(records_of(lentities@) =~= repointed(start, now, t, target));
        }
        i = i + 1;
    }
    proof {
        assert(members@.take(members@.len() as int) =~= members@);
    }
}

/// Moves every one of `members` from the key `old_key` to the key `new_key`.
fn refile(index: &mut HashMap<u32, HashSet<Lentity>>, old_key: u32, new_key: u32, members: &Vec<Lentity>)
    requires
        members@.len() > 0,
    ensures
        key_index_of(final(index)@) == refiled(
            key_index_of(old(index)@),
            old_key,
            new_key,
            members@.to_set(),
        ),
{
    let ghost start = key_index_of(index@);
    let mut i: usize = 0;
    while i < members.len()
        invariant
            i <= members.len(),
            start == key_index_of(old(index)@),
            i == 0 ==> key_index_of(index@) == start,
            i > 0 ==> key_index_of(index@) == refiled(
                start,
                old_key,
                new_key,
                members@.take(i as int).to_set(),
            ),
        decreases members.len() - i,
    {
        let m = members[i];
        unfile(index, old_key, m);
        file(index, new_key, m);
        proof {
            let seq_then = members@.take(i as int);
            let seq_now = members@.take(i + 1);
            let then = seq_then.to_set();
            let now = seq_now.to_set();
            assert(seq_now =~= seq_then.push(m));
            assert(now =~= then.insert(m)) by {
                assert forall|x: Lentity| now.contains(x) == then.insert(m).contains(x) by {
                    if seq_now.contains(x) {
                        let k = choose|k: int| 0 <= k < seq_now.len() && seq_now[k] == x;
                        if k < i {
                            assert(seq_then[k] == x);
                        }
                    }
                    if x == m {
                        assert(seq_now[i as int] == m);
                    } else if seq_then.contains(x) {
                        let k = choose|k: int| 0 <= k < seq_then.len() && seq_then[k] == x;
                        assert(seq_now[k] == x);
                    }
                }
            }
            if i == 0 {
                assert(then =~= Set::<Lentity>::empty());
            }
            let goal = refiled(start, old_key, new_key, now);
            assert(key_index_of(index@) =~= goal) by {
                assert forall|k: u32| key_index_of(index@).contains_key(k) implies key_index_of(
                    index@,
                )[k] =~= goal[k] by {}
            }
        }
        i = i + 1;
    }
    proof {
        assert(members@.take(members@.len() as int) =~= members@);
    }
}

/// The entities of a set, in the order in which the set hands them out.
fn members_of(set: &HashSet<Lentity>) -> (list: Vec<Lentity>)
    ensures
        list@.to_set() == set@,
        list@.no_duplicates(),
{
    let mut list: Vec<Lentity> = Vec::new();
    for x in it: set.iter()
        invariant
            list@ == it.seq().take(it.index() as int).unref(),
            it.seq().unref().to_set() == set@,
            it.seq().no_duplicates(),
            it.index() == it.seq().len() ==> list@.to_set() == set@ && list@.no_duplicates(),
    {
        list.push(*x);
        proof {
            assert(list@ =~= it.seq().take(it.index() + 1).unref());
            assert(it.index() + 1 == it.seq().len() ==> it.seq().take(it.index() + 1)
                =~= it.seq());
            assert forall|i: int, j: int|
                it.index() + 1 == it.seq().len() && 0 <= i < list@.len() && 0 <= j < list@.len()
                    && i != j implies list@[i] != list@[j] by {
                assert(it.seq()[i] != it.seq()[j]);
            }
        }
    }
    list
}

/// Whether the entities `a` and `b` have the same shelf, or both none, for
/// each of `types`.
fn same_shelves(
    lentities: &IntMap<Lentity, InternalEntity>,
    types: &Vec<TypeIdNum>,
    a: Lentity,
    b: Lentity,
) -> (same: bool)
    requires
        is_table(lentities@),
        a < lentities@.len(),
        b < lentities@.len(),
    ensures
        same == same_key(records_of(lentities@), types@, a, b),
{
    let mut i: usize = 0;
    while i < types.len()
        invariant
            i <= types.len(),
            is_table(lentities@),
            a < lentities@.len(),
            b < lentities@.len(),
            forall|j: int|
                0 <= j < i ==> slot(records_of(lentities@)[a as int], #[trigger] types@[j]) == slot(
                    records_of(lentities@)[b as int],
                    types@[j],
                ),
        decreases types.len() - i,
    {
        let t = types[i];
        let of_a = int_map_get(lentities, a).unwrap().get(t);
        let of_b = int_map_get(lentities, b).unwrap().get(t);
        let same = match of_a {
            Some(x) => match of_b {
                Some(y) => x == y,
                None => false,
            },
            None => of_b.is_none(),
        };
        if !same {
            assert(slot(records_of(lentities@)[a as int], types@[i as int]) != slot(
                records_of(lentities@)[b as int],
                types@[i as int],
            ));
            return false;
        }
        i = i + 1;
    }
    true
}

/// The first group whose representative has the key of `e`, or the number of
/// groups when there is none.
fn find_group(
    lentities: &IntMap<Lentity, InternalEntity>,
    types: &Vec<TypeIdNum>,
    groups: &Vec<Vec<Lentity>>,
    e: Lentity,
) -> (g: usize)
    requires
        is_table(lentities@),
        e < lentities@.len(),
        forall|j: int|
            0 <= j < groups@.len() ==> (#[trigger] groups@[j])@.len() > 0 && groups@[j]@[0]
                < lentities@.len(),
    ensures
        g == group_for(records_of(lentities@), types@, groups_of(groups@), e),
        is_group_for(records_of(lentities@), types@, groups_of(groups@), e, g as int),
        g <= groups@.len(),
{
    let mut g: usize = 0;
    while g < groups.len()
        invariant
            g <= groups@.len(),
            is_table(lentities@),
            e < lentities@.len(),
            forall|j: int|
                0 <= j < groups@.len() ==> (#[trigger] groups@[j])@.len() > 0 && groups@[j]@[0]
                    < lentities@.len(),
            forall|j: int|
                0 <= j < g ==> !same_key(
                    records_of(lentities@),
                    types@,
                    (#[trigger] groups_of(groups@)[j])[0],
                    e,
                ),
        ensures
            g <= groups@.len(),
            is_group_for(records_of(lentities@), types@, groups_of(groups@), e, g as int),
        decreases groups@.len() - g,
    {
        assert(groups_of(groups@)[g as int] == groups@[g as int]@);
        if same_shelves(lentities, types, groups[g][0], e) {
            break ;
        }
        g = g + 1;
    }
    g
}

/// The entity store.
#[derive(Clone)]
pub struct RcEcs<T> {
    /// Where in `cupboards` the cupboard of a type stands.
    cupboard_lookup: HashMap<TypeIdNum, usize>,
    cupboards: Vec<Cupboard<T>>,
    lentities: IntMap<Lentity, InternalEntity>,
    archetypes: Vec<Archetype>,
    /// The groups of the last grouped query.
    uniques_by_type: Vec<Vec<Lentity>>,
    /// Where in `uniques_by_type` the group of a representative stands.
    group_lookup: IntMap<Lentity, usize>,
    /// The types of the last grouped query.
    current_unique_type_ids: Vec<TypeIdNum>,
    /// Where in `indexes` the secondary index of a type stands.
    index_lookup: HashMap<TypeIdNum, usize>,
    indexes: Vec<HashMap<u32, HashSet<Lentity>>>,
}

impl<T: Component> View for RcEcs<T> {
    type V = World<T>;

    closed spec fn view(&self) -> World<T> {
        World {
            cupboards: cupboards_of(self.cupboard_lookup@, self.cupboards@),
            entities: records_of(self.lentities@),
            archetypes: buckets_of(self.archetypes@),
            group_types: self.current_unique_type_ids@,
            groups: groups_of(self.uniques_by_type@),
            indexes: indexes_of(self.index_lookup@, self.indexes@),
        }
    }
}

impl<T: Component> RcEcs<T> {
    /// The invariant of the representation.
    pub closed spec fn inv(&self) -> bool {
        &&& is_lookup(self.cupboard_lookup@, self.cupboards@.len())
        &&& forall|i: int| 0 <= i < self.cupboards@.len() ==> (#[trigger] self.cupboards@[i]).wf()
        &&& is_table(self.lentities@)
        &&& is_rep_lookup(self.group_lookup@, groups_of(self.uniques_by_type@))
        &&& is_lookup(self.index_lookup@, self.indexes@.len())
    }

    /// The invariant of the store. `new` establishes it and every method
    /// keeps it.
    pub open spec fn wf(&self) -> bool {
        &&& self.inv()
        &&& self@.wf()
    }

    /// A store without entities.
    pub fn new() -> (store: RcEcs<T>)
        ensures
            store.wf(),
            store@ == World::<T>::empty(),
            store@.settled(),
            store@.sealed_as_is(),
    {
        let store = RcEcs {
            cupboard_lookup: HashMap::new(),
            cupboards: Vec::new(),
            lentities: IntMap::default(),
            archetypes: Vec::new(),
            uniques_by_type: Vec::new(),
            group_lookup: IntMap::default(),
            current_unique_type_ids: Vec::new(),
            index_lookup: HashMap::new(),
            indexes: Vec::new(),
        };
        proof {
            assert(store@.cupboards =~= Map::<TypeIdNum, Shelves<T>>::empty());
            assert(store@.entities =~= Seq::<Record>::empty());
            assert(store@.archetypes =~= Seq::<Bucket>::empty());
            assert(store@.groups =~= Seq::<Seq<Lentity>>::empty());
            assert(store@.indexes =~= Map::<TypeIdNum, KeyIndex>::empty());
        }
        store
    }

    /// The number of entities.
    pub fn len(&self) -> (n: usize)
        ensures
            n == self@.entities.len(),
    {
        int_map_len(&self.lentities)
    }

    /// Creates an entity without components and returns its handle. Handles
    /// count up from zero and are never reused. Shelves count their sharers
    /// in 32 bits, so a store holds fewer than 2^32 entities.
    pub fn create_entity(&mut self) -> (lentity: Lentity)
        requires
            old(self).wf(),
            old(self)@.entities.len() < u32::MAX,
        ensures
            final(self).wf(),
            lentity == old(self)@.entities.len(),
            final(self)@ == old(self)@.create_entity(),
            !final(self)@.is_sealed(lentity),
            old(self)@.sealed_as_is() ==> final(self)@.sealed_as_is(),
            old(self)@.settled() ==> final(self)@.settled(),
    {
        let lentity = int_map_len(&self.lentities);
        let entity = InternalEntity::new();
        int_map_insert(&mut self.lentities, lentity, entity);
        proof {
            let before = old(self)@;
            lemma_table_grows(old(self).lentities@, entity);
            assert(self@.entities =~= before.entities.push(Map::empty()));
            before.lemma_create_entity_wf();
            if self@.is_sealed(lentity) {
                let i = choose|i: int| in_bucket(before.archetypes, lentity, i);
                let k = choose|k: int|
                    0 <= k < before.archetypes[i].members.len() && before.archetypes[i].members[k]
                        == lentity;
                assert(before.archetypes[i].members[k] < before.entities.len());
            }
            if before.sealed_as_is() {
                assert forall|i: int, k: int|
                    0 <= i < self@.archetypes.len() && 0 <= k
                        < self@.archetypes[i].members.len() implies self@.entities[(
                #[trigger] self@.archetypes[i].members[k]) as int].dom()
                    == self@.archetypes[i].sig by {
                    assert(before.entities[before.archetypes[i].members[k] as int].dom()
                        == before.archetypes[i].sig);
                }
            }
        }
        lentity
    }

    /// The record of entity `lentity`.
    pub fn get_entity(&self, lentity: Lentity) -> (entity: &InternalEntity)
        requires
            self.wf(),
            lentity < self@.entities.len(),
        ensures
            entity@ == self@.entities[lentity as int],
            entity.wf(),
    {
        int_map_get(&self.lentities, lentity).unwrap()
    }

    /// The cupboard of the component type `t`, if a component of that type
    /// was ever added.
    pub fn get_cupboard(&self, t: TypeIdNum) -> (cupboard: Option<&Cupboard<T>>)
        requires
            self.wf(),
        ensures
            cupboard is Some == self@.cupboards.contains_key(t),
            cupboard matches Some(c) ==> c.wf() && c@ == self@.cupboards[t],
    {
        match self.cupboard_slot(t) {
            Some(i) => Some(&self.cupboards[i]),
            None => None,
        }
    }

    /// Where the cupboard of type `t` stands, if there is one.
    fn cupboard_slot(&self, t: TypeIdNum) -> (r: Option<usize>)
        requires
            self.inv(),
        ensures
            match r {
                Some(i) => self.cupboard_lookup@.contains_key(t) && i == self.cupboard_lookup@[t]
                    && i < self.cupboards@.len(),
                None => !self.cupboard_lookup@.contains_key(t),
            },
            r is Some == self@.cupboards.contains_key(t),
            r matches Some(i) ==> self.cupboards@[i as int]@ == self@.cupboards[t],
    {
        match self.cupboard_lookup.get(&t) {
            Some(i) => Some(*i),
            None => None,
        }
    }

    /// Where the secondary index of type `t` stands, if there is one.
    fn index_slot(&self, t: TypeIdNum) -> (r: Option<usize>)
        requires
            self.inv(),
        ensures
            match r {
                Some(i) => self.index_lookup@.contains_key(t) && i == self.index_lookup@[t] && i
                    < self.indexes@.len(),
                None => !self.index_lookup@.contains_key(t),
            },
            r is Some == self@.indexes.contains_key(t),
            r matches Some(i) ==> key_index_of(self.indexes@[i as int]@) == self@.indexes[t],
    {
        match self.index_lookup.get(&t) {
            Some(i) => Some(*i),
            None => None,
        }
    }

    /// Makes the cupboard of type `t` if there is none yet, and says where
    /// it stands.
    fn create_cupboard_if_needed(&mut self, t: TypeIdNum) -> (i: usize)
        requires
            old(self).inv(),
        ensures
            final(self).inv(),
            final(self).cupboard_lookup@.contains_key(t),
            i == final(self).cupboard_lookup@[t],
            i < final(self).cupboards@.len(),
            final(self).cupboards@[i as int]@ == old(self)@.cupboard(t),
            final(self)@ == (World {
                cupboards: old(self)@.cupboards.insert(t, old(self)@.cupboard(t)),
                ..old(self)@
            }),
    {
        match self.cupboard_slot(t) {
            Some(i) => {
                proof {
                    assert(self@.cupboards =~= self@.cupboards.insert(t, self@.cupboard(t)));
                }
                i
            },
            None => {
                let i = self.cupboards.len();
                self.cupboards.push(Cupboard::new());
                self.cupboard_lookup.insert(t, i);
                proof {
                    assert(self@.cupboards =~= old(self)@.cupboards.insert(
                        t,
                        old(self)@.cupboard(t),
                    ));
                }
                i
            },
        }
    }

    /// Gives entity `lentity` the component `component`, which the store
    /// takes over. The value is deduplicated against the cupboard of its
    /// type: if a shelf there shows a value of its content hash, the entity
    /// joins that shelf, else the value gets a new exclusive shelf. A
    /// secondary index of the type files the entity. A component of the same
    /// type that the entity had before is given up; it must not be checked
    /// out.
    pub fn add_component(&mut self, lentity: Lentity, component: T)
        requires
            old(self).wf(),
            lentity < old(self)@.entities.len(),
            !old(self)@.on_loan(lentity, component.type_spec()),
        ensures
            final(self).wf(),
            final(self)@ == old(self)@.add_component(lentity, component),
            old(self)@.sealed_as_is() && (!old(self)@.is_sealed(lentity) || old(self)@.has(
                lentity,
                component.type_spec(),
            )) ==> final(self)@.sealed_as_is(),
            old(self)@.settled() ==> final(self)@.settled(),
    {
        let ghost before = self@;
        let ghost value = component;
        let t = component.type_id();
        let ghost base = before.without(lentity, t);
        self.give_up(lentity, t);
        let ci = self.create_cupboard_if_needed(t);
        proof {
            before.lemma_without_wf(lentity, t);
            base.lemma_add_fits(lentity, t);
            assert(base.cupboard(t).can_add(component.hash_spec()));
        }
        let ghost mid = *self;
        let shelf_ref = self.cupboards[ci].add_component(component);
        proof {
            assert(cupboards_of(self.cupboard_lookup@, self.cupboards@) =~= mid@.cupboards.insert(
                t,
                self.cupboards@[ci as int]@,
            ));
            base.cupboard(t).lemma_add_wf(value);
        }
        self.land(lentity, t, ci, shelf_ref);
        proof {
            let after = before.add_component(lentity, value);
            assert(self@.cupboards =~= after.cupboards);
            assert(self@.entities =~= after.entities) by {
                assert(self@.entities[lentity as int] =~= after.entities[lentity as int]);
            }
            assert(self@.indexes =~= after.indexes);
            before.lemma_add_component_wf(lentity, value);
            if before.sealed_as_is() && (!before.is_sealed(lentity) || before.has(lentity, t)) {
                before.lemma_sealed_as_is(lentity, value, value);
            }
            if before.settled() {
                before.lemma_add_settled(lentity, value, value);
            }
        }
    }

    /// Takes entity `lentity` off the shelf of its component of type `t`, if
    /// it has one, and out of a secondary index of the type. The record
    /// still points to the shelf.
    fn give_up(&mut self, lentity: Lentity, t: TypeIdNum)
        requires
            old(self).wf(),
            lentity < old(self)@.entities.len(),
            !old(self)@.on_loan(lentity, t),
        ensures
            final(self).inv(),
            final(self).lentities == old(self).lentities,
            final(self)@ == (World {
                entities: old(self)@.entities,
                ..old(self)@.without(lentity, t)
            }),
    {
        let ghost before = self@;
        let shelf_ref = match int_map_get(&self.lentities, lentity) {
            Some(entity) => entity.get(t),
            None => None,
        };
        match shelf_ref {
            None => {},
            Some(shelf_ref) => {
                assert(before.entities[lentity as int].contains_key(t));
                assert(before.cupboards.contains_key(t));
                let ci = self.cupboard_slot(t).unwrap();
                proof {
                    assert(before.cupboards[t].shelves[shelf_ref as int].wf());
                    lemma_refs_at_least(before.entities, seq![lentity], t, shelf_ref);
                    assert(before.cupboards[t].shelves[shelf_ref as int].share_count() == refs(
                        before.entities,
                        t,
                        shelf_ref,
                    ));
                }
                let key = self.cupboards[ci].get_shelf(&shelf_ref).peek().index_key();
                self.cupboards[ci].release(shelf_ref, 1);
                proof {
                    assert(cupboards_of(self.cupboard_lookup@, self.cupboards@)
                        =~= before.without(lentity, t).cupboards);
                }
                match self.index_slot(t) {
                    Some(ii) => {
                        unfile(&mut self.indexes[ii], key, lentity);
                        proof {
                            assert(indexes_of(self.index_lookup@, self.indexes@)
                                =~= before.indexes.insert(
                                t,
                                unfiled(before.indexes[t], key, lentity),
                            ));
                        }
                    },
                    None => {},
                }
            },
        }
    }

    /// Points the record of `lentity` for type `t` to the shelf `shelf_ref`
    /// of the cupboard at `ci`, and files the entity in a secondary index of
    /// the type under the key of the value that the shelf shows.
    fn land(&mut self, lentity: Lentity, t: TypeIdNum, ci: usize, shelf_ref: ShelfRef)
        requires
            old(self).inv(),
            lentity < old(self).lentities@.len(),
            ci < old(self).cupboards@.len(),
            shelf_ref < old(self).cupboards@[ci as int]@.shelves.len(),
            old(self).cupboards@[ci as int]@.shelves[shelf_ref as int].value() is Some,
        ensures
            final(self).inv(),
            final(self).lentities@.len() == old(self).lentities@.len(),
            records_of(final(self).lentities@) == records_of(old(self).lentities@).update(
                lentity as int,
                records_of(old(self).lentities@)[lentity as int].insert(t, shelf_ref),
            ),
            final(self).index_lookup == old(self).index_lookup,
            final(self).indexes@.len() == old(self).indexes@.len(),
            indexes_of(final(self).index_lookup@, final(self).indexes@) == ({
                let indexes = indexes_of(old(self).index_lookup@, old(self).indexes@);
                let key = old(self).cupboards@[ci as int]@.shelves[shelf_ref as int].value().unwrap().index_spec();
                if indexes.contains_key(t) {
                    indexes.insert(t, filed_in(indexes[t], key, lentity))
                } else {
                    indexes
                }
            }),
            final(self).cupboard_lookup == old(self).cupboard_lookup,
            final(self).cupboards == old(self).cupboards,
            final(self).archetypes == old(self).archetypes,
            final(self).uniques_by_type == old(self).uniques_by_type,
            final(self).group_lookup == old(self).group_lookup,
            final(self).current_unique_type_ids == old(self).current_unique_type_ids,
    {
        let ghost table = self.lentities@;
        let ghost records = records_of(self.lentities@);
        let ghost indexes = indexes_of(self.index_lookup@, self.indexes@);
        match int_map_get_mut(&mut self.lentities, lentity) {
            Some(entity) => {
                entity.insert(t, shelf_ref);
            },
            None => {},
        }
        proof {
            lemma_table_changes(table, lentity, self.lentities@[lentity]);
            assert(records_of(self.lentities@) =~= records.update(
                lentity as int,
                records[lentity as int].insert(t, shelf_ref),
            ));
        }
        match self.index_slot(t) {
            Some(ii) => {
                let key = self.cupboards[ci].get_shelf(&shelf_ref).peek().index_key();
                file(&mut self.indexes[ii], key, lentity);
                proof {
                    assert(indexes_of(self.index_lookup@, self.indexes@) =~= indexes.insert(
                        t,
                        filed_in(indexes[t], key, lentity),
                    ));
                }
            },
            None => {},
        }
    }

    /// Gives entity `lentity` a component that the caller keeps. The value
    /// is deduplicated like an added one; where no shelf shows a value of
    /// its content hash, a clone of it is added in its place. A secondary
    /// index of the type files the entity. A component of the same type
    /// that the entity had before is given up; it must not be checked out.
    pub fn add_component_ref(&mut self, lentity: Lentity, component: &T)
        requires
            old(self).wf(),
            lentity < old(self)@.entities.len(),
            !old(self)@.on_loan(lentity, component.type_spec()),
        ensures
            final(self).wf(),
            exists|copy: T|
                cloned(*component, copy) && final(self)@ == #[trigger] old(self)@.add_component_ref(
                    lentity,
                    *component,
                    copy,
                ),
            old(self)@.sealed_as_is() && (!old(self)@.is_sealed(lentity) || old(self)@.has(
                lentity,
                component.type_spec(),
            )) ==> final(self)@.sealed_as_is(),
            old(self)@.settled() ==> final(self)@.settled(),
    {
        let ghost before = self@;
        let t = component.type_id();
        let ghost base = before.without(lentity, t);
        self.give_up(lentity, t);
        let ci = self.create_cupboard_if_needed(t);
        proof {
            before.lemma_without_wf(lentity, t);
            base.lemma_add_fits(lentity, t);
        }
        let ghost mid = *self;
        let shelf_ref = self.cupboards[ci].add_component_ref(component);
        let ghost hash = component.hash_spec();
        let ghost copy = choose|copy: T|
            cloned(*component, copy) && shelf_ref == #[trigger] base.cupboard(t).target_ref(
                copy,
                hash,
            ) && self.cupboards@[ci as int]@ == base.cupboard(t).add_ref(copy, hash);
        proof {
            assert(cupboards_of(self.cupboard_lookup@, self.cupboards@) =~= mid@.cupboards.insert(
                t,
                self.cupboards@[ci as int]@,
            ));
            base.cupboard(t).lemma_add_ref_wf(copy, hash);
        }
        self.land(lentity, t, ci, shelf_ref);
        proof {
            let after = before.add_component_ref(lentity, *component, copy);
            assert(self@.cupboards =~= after.cupboards);
            assert(self@.entities =~= after.entities) by {
                assert(self@.entities[lentity as int] =~= after.entities[lentity as int]);
            }
            assert(self@.indexes =~= after.indexes);
            before.lemma_add_component_ref_wf(lentity, *component, copy);
            assert(cloned(*component, copy) && self@ == before.add_component_ref(
                lentity,
                *component,
                copy,
            ));
            if before.sealed_as_is() && (!before.is_sealed(lentity) || before.has(lentity, t)) {
                before.lemma_sealed_as_is(lentity, *component, copy);
            }
            if before.settled() {
                before.lemma_add_settled(lentity, *component, copy);
            }
        }
    }

    /// Seals entity `lentity`: appends it to the archetype bucket of the
    /// component types that it has now. Has to be called once for each
    /// entity, after its components were added and before queries.
    pub fn complete_entity(&mut self, lentity: Lentity)
        requires
            old(self).wf(),
            lentity < old(self)@.entities.len(),
            !old(self)@.is_sealed(lentity),
        ensures
            final(self).wf(),
            final(self)@ == old(self)@.complete_entity(lentity),
            forall|e: Lentity|
                final(self)@.is_sealed(e) == (e == lentity || old(self)@.is_sealed(e)),
            old(self)@.sealed_as_is() ==> final(self)@.sealed_as_is(),
            old(self)@.settled() ==> final(self)@.settled(),
    {
        let ghost before = self@;
        let ghost sig = before.entities[lentity as int].dom();
        let type_sig = int_map_get(&self.lentities, lentity).unwrap().type_list();
        proof {
            self.lentities@[lentity].lemma_types();
        }
        let mut i: usize = 0;
        while i < self.archetypes.len()
            invariant
                i <= self.archetypes@.len(),
                *self == *old(self),
                before.archetypes == buckets_of(self.archetypes@),
                type_sig@.to_set() == sig,
                forall|j: int| 0 <= j < i ==> (#[trigger] before.archetypes[j]).sig != sig,
            ensures
                i <= self.archetypes@.len(),
                *self == *old(self),
                is_bucket_for(before.archetypes, sig, i as int),
            decreases self.archetypes@.len() - i,
        {
            assert(before.archetypes[i as int] == self.archetypes@[i as int]@);
            if subset(&self.archetypes[i].sig, &type_sig) && subset(
                &type_sig,
                &self.archetypes[i].sig,
            ) {
                proof {
                    assert(before.archetypes[i as int].sig =~= sig);
                }
                break ;
            }
            i = i + 1;
        }
        proof {
            assert(bucket_for(before.archetypes, sig) == i);
        }
        if i < self.archetypes.len() {
            self.archetypes[i].lentities.push(lentity);
            proof {
                assert(buckets_of(self.archetypes@) =~= before.archetypes.update(
                    i as int,
                    Bucket { sig, members: before.archetypes[i as int].members.push(lentity) },
                ));
            }
        } else {
            let mut lentities: Vec<Lentity> = Vec::new();
            lentities.push(lentity);
            self.archetypes.push(Archetype { sig: type_sig, lentities });
            proof {
                assert(lentities@ =~= seq![lentity]);
                assert(buckets_of(self.archetypes@) =~= before.archetypes.push(
                    Bucket { sig, members: seq![lentity] },
                ));
            }
        }
        proof {
            before.lemma_complete_entity_wf(lentity);
            before.lemma_sealing_seals(lentity);
            if before.sealed_as_is() {
                assert(buckets_of(self.archetypes@) == before.complete_entity(lentity).archetypes);
                before.lemma_sealed_as_is_after_sealing(lentity);
            }
        }
    }

    /// The sealed entities that have every one of the types `type_sig`: the
    /// members of every bucket whose type set holds them all, bucket after
    /// bucket. A type that no entity has gives an empty result.
    pub fn query(&self, type_sig: Vec<TypeIdNum>) -> (lentities: Vec<Lentity>)
        requires
            self.wf(),
        ensures
            lentities@ == self@.query(type_sig@),
            lentities@.no_duplicates(),
            self@.sealed_as_is() ==> forall|e: Lentity|
                lentities@.contains(e) <==> self@.is_sealed(e) && type_sig@.to_set().subset_of(
                    self@.entities[e as int].dom(),
                ),
    {
        proof {
            self@.lemma_query(type_sig@);
            if self@.sealed_as_is() {
                self@.lemma_query_finds_supersets(type_sig@);
            }
        }
        let mut lentities: Vec<Lentity> = Vec::new();
        let mut i: usize = 0;
        proof {
            assert(self@.archetypes.take(0) =~= Seq::<Bucket>::empty());
        }
        while i < self.archetypes.len()
            invariant
                i <= self.archetypes@.len(),
                lentities@ == matching(self@.archetypes.take(i as int), type_sig@.to_set()),
            decreases self.archetypes@.len() - i,
        {
            let ghost found = lentities@;
            if subset(&type_sig, &self.archetypes[i].sig) {
                append(&mut lentities, &self.archetypes[i].lentities);
            }
            proof {
                assert(self@.archetypes.take(i + 1).drop_last() =~= self@.archetypes.take(i as int));
                assert(self@.archetypes.take(i + 1).last() == self@.archetypes[i as int]);
                assert(found + Seq::<Lentity>::empty() =~= found);
            }
            i = i + 1;
        }
        proof {
            assert(self@.archetypes.take(self@.archetypes.len() as int) =~= self@.archetypes);
        }
        lentities
    }

    /// Read access to the component of type `t` behind `lentity`, without a
    /// checkout: `None` where the entity does not exist or has no component
    /// of that type. A shared shelf is read also while a copy of its value
    /// is checked out; the value of an exclusive shelf must be at home.
    pub fn get_component_ref(&self, lentity: GroupedLentity, t: TypeIdNum) -> (r: Option<&T>)
        requires
            self.wf(),
            !self@.away(lentity.lentity(), t),
        ensures
            r == match self@.peek(lentity.lentity(), t) {
                Some(v) => Some(&v),
                None => None,
            },
            r is Some == self@.has(lentity.lentity(), t),
    {
        let e = grouped_lentity_to_lentity(lentity);
        let shelf_ref = match int_map_get(&self.lentities, e) {
            Some(entity) => entity.get(t),
            None => None,
        };
        match shelf_ref {
            None => None,
            Some(shelf_ref) => {
                assert(self@.entities[e as int].contains_key(t));
                match self.cupboard_slot(t) {
                    None => None,
                    Some(ci) => Some(self.cupboards[ci].get_shelf(&shelf_ref).peek()),
                }
            },
        }
    }

    /// Checks the component of type `t` behind `lentity` out for mutation:
    /// `None` where the entity does not exist or has no component of that
    /// type. An exclusive shelf gives up its value until the commit: it
    /// leaves the hash index, and the entity leaves a secondary index of the
    /// type. A shared shelf hands out its spare copy, or a clone of the
    /// shared value, and keeps its value for the other sharers. Either way
    /// the shelf is on loan until the commit, and must not be on loan
    /// before.
    pub fn get_component(&mut self, lentity: GroupedLentity, t: TypeIdNum) -> (r: Option<T>)
        requires
            old(self).wf(),
            !old(self)@.on_loan(lentity.lentity(), t),
        ensures
            final(self).wf(),
            final(self)@ == old(self)@.checkout(lentity.lentity(), t),
            r is Some == old(self)@.has(lentity.lentity(), t),
            r matches Some(value) ==> old(self)@.shelf(lentity.lentity(), t).hands_out(value),
            r is Some ==> final(self)@.on_loan(lentity.lentity(), t),
            old(self)@.settled() && r is Some ==> final(self)@.loaned_only(lentity.lentity(), t),
            old(self)@.settled() && r is None ==> final(self)@.settled(),
            final(self)@.entities == old(self)@.entities,
            final(self)@.groups == old(self)@.groups,
            forall|rep: Lentity, u: TypeIdNum| #[trigger]
                old(self)@.coherent(rep, u) ==> final(self)@.coherent(rep, u),
    {
        let ghost before = self@;
        let e = grouped_lentity_to_lentity(lentity);
        let shelf_ref = match int_map_get(&self.lentities, e) {
            Some(entity) => entity.get(t),
            None => None,
        };
        match shelf_ref {
            None => None,
            Some(shelf_ref) => {
                assert(self@.entities[e as int].contains_key(t));
                match self.cupboard_slot(t) {
                    None => None,
                    Some(ci) => {
                        let exclusive = self.cupboards[ci].get_shelf(&shelf_ref).is_one();
                        let value = self.cupboards[ci].checkout(shelf_ref);
                        proof {
                            assert(cupboards_of(self.cupboard_lookup@, self.cupboards@)
                                =~= before.checkout(e, t).cupboards);
                        }
                        if exclusive {
                            match self.index_slot(t) {
                                Some(ii) => {
                                    let key = value.index_key();
                                    unfile(&mut self.indexes[ii], key, e);
                                    proof {
                                        assert(indexes_of(self.index_lookup@, self.indexes@)
                                            =~= before.indexes.insert(
                                            t,
                                            unfiled(before.indexes[t], key, e),
                                        ));
                                    }
                                },
                                None => {},
                            }
                        }
                        proof {
                            before.lemma_checkout_wf(e, t);
                            if before.settled() {
                                before.lemma_checkout_loans_one(e, t);
                            }
                        }
                        Some(value)
                    },
                }
            },
        }
    }

    /// The first group that `rep` represents, or the number of groups when
    /// there is none.
    fn group_slot(&self, rep: Lentity) -> (g: usize)
        requires
            self.wf(),
        ensures
            g == group_of(self@.groups, rep),
            g <= self.uniques_by_type@.len(),
            g < self.uniques_by_type@.len() ==> self.uniques_by_type@[g as int]@
                == self@.members(rep),
    {
        let g = match int_map_get(&self.group_lookup, rep) {
            Some(g) => *g,
            None => self.uniques_by_type.len(),
        };
        proof {
            assert forall|j: int| 0 <= j < g implies (#[trigger] self@.groups[j])[0] != rep by {
                assert(self.group_lookup@[self@.groups[j][0]] == j);
            }
            assert(is_group_of(self@.groups, rep, g as int));
        }
        g
    }

    /// The sharers `members` leave the shared shelf `shelf_ref` of the
    /// cupboard at `ci` together for `component`.
    fn diverge(
        &mut self,
        e: Lentity,
        ci: usize,
        shelf_ref: ShelfRef,
        members: &Vec<Lentity>,
        component: T,
    )
        requires
            old(self).wf(),
            old(self)@.has(e, component.type_spec()),
            !old(self)@.stays(e, component),
            ci == old(self).cupboard_lookup@[component.type_spec()],
            shelf_ref == old(self)@.entities[e as int][component.type_spec()],
            members@.no_duplicates(),
            members@.len() > 0,
            forall|k: int|
                0 <= k < members@.len() ==> (#[trigger] members@[k]) < old(self)@.entities.len()
                    && slot(old(self)@.entities[members@[k] as int], component.type_spec()) == slot(
                    old(self)@.entities[e as int],
                    component.type_spec(),
                ),
        ensures
            final(self).wf(),
            final(self)@ == old(self)@.diverge(e, members@, component),
    {
        let ghost before = self@;
        let ghost value = component;
        let t = component.type_id();
        proof {
            before.lemma_diverge_fits(e, members@, value);
            assert(before.cupboards.contains_key(t));
        }
        let n = members.len() as u32;
        let old_key = self.cupboards[ci].get_shelf(&shelf_ref).peek().index_key();
        let new_key = component.index_key();
        self.cupboards[ci].release(shelf_ref, n);
        let target = self.cupboards[ci].add_component(component);
        self.cupboards[ci].add_qty(target, n - 1);
        proof {
            assert(cupboards_of(self.cupboard_lookup@, self.cupboards@) =~= before.diverge(
                e,
                members@,
                value,
            ).cupboards);
        }
        repoint(&mut self.lentities, members, t, target);
        match self.index_slot(t) {
            Some(ii) => {
                refile(&mut self.indexes[ii], old_key, new_key, members);
                proof {
                    assert(indexes_of(self.index_lookup@, self.indexes@) =~= before.diverge(
                        e,
                        members@,
                        value,
                    ).indexes);
                }
            },
            None => {},
        }
        proof {
            before.lemma_diverge_wf(e, members@, value);
        }
    }

    /// Commits `component` as the value of its type behind `lentity`, which
    /// was checked out before.
    ///
    /// On an exclusive shelf the value goes back to the shelf, which shows
    /// it from then on: the hash index leads to the shelf from the value's
    /// hash unless it leads elsewhere already, and a secondary index of the
    /// type files the entity under the value's key. On a shared shelf that
    /// shows a value of the same hash, the value becomes the shelf's spare
    /// copy. Else the value has diverged: a single entity leaves the shelf,
    /// a group leaves it together, and they land where an added value would
    /// land. The shelf that they left is exclusive again when one sharer is
    /// left, and abandoned when none is. A secondary index of the type files
    /// those that left under the new value's key.
    ///
    /// A value that changes in place on an exclusive shelf is not merged
    /// with an equal value on another shelf.
    ///
    /// A handle of a group is one of the last grouped query, and the members
    /// of its group still share their shelf of the value's type. Afterwards
    /// every member reads a value of the committed value's hash, and every
    /// other entity reads what it read before.
    pub fn return_component(&mut self, lentity: GroupedLentity, component: T)
        requires
            old(self).wf(),
            old(self)@.on_loan(lentity.lentity(), component.type_spec()),
            lentity is Group ==> old(self)@.represents(lentity.lentity()) && old(self)@.coherent(
                lentity.lentity(),
                component.type_spec(),
            ),
        ensures
            final(self).wf(),
            final(self)@ == old(self)@.return_component(lentity, component),
            final(self)@.reads(lentity.lentity(), component),
            lentity is Group ==> forall|k: int|
                0 <= k < old(self)@.members(lentity.lentity()).len() ==> final(self)@.reads(
                    #[trigger] old(self)@.members(lentity.lentity())[k],
                    component,
                ),
            forall|x: Lentity, u: TypeIdNum|
                x < old(self)@.entities.len() && (lentity is Single ==> x != lentity.lentity()) && (
                lentity is Group ==> !old(self)@.members(lentity.lentity()).contains(x))
                    ==> #[trigger] final(self)@.peek(x, u) == old(self)@.peek(x, u),
            old(self)@.loaned_only(lentity.lentity(), component.type_spec()) ==> final(self)@.settled(),
            final(self)@.groups == old(self)@.groups,
            forall|rep: Lentity, t: TypeIdNum|
                old(self)@.represents(rep) && #[trigger] old(self)@.coherent(rep, t) && (lentity is Single
                    ==> t != component.type_spec() || !old(self)@.members(rep).contains(
                    lentity.lentity(),
                )) ==> final(self)@.coherent(rep, t),
    {
        let ghost before = self@;
        let ghost value = component;
        proof {
            assert forall|rep: Lentity, t: TypeIdNum|
                before.represents(rep) && #[trigger] before.coherent(rep, t) && (lentity is Single
                    ==> t != value.type_spec() || !before.members(rep).contains(
                    lentity.lentity(),
                )) implies before.return_component(lentity, value).coherent(rep, t) by {
                before.lemma_commit_keeps_groups(lentity, value, rep, t);
            }
            if before.loaned_only(lentity.lentity(), value.type_spec()) {
                before.lemma_commit_settles(lentity, value);
            }
            before.lemma_commit_is_read(lentity, value);
            assert forall|x: Lentity, u: TypeIdNum|
                x < before.entities.len() && (lentity is Single ==> x != lentity.lentity()) && (
                lentity is Group ==> !before.members(lentity.lentity()).contains(
                    x,
                )) implies #[trigger] before.return_component(lentity, value).peek(x, u)
                == before.peek(x, u) by {
                before.lemma_commit_spares_others(lentity, value, x, u);
            }
        }
        let e = grouped_lentity_to_lentity(lentity);
        let grouped = is_grouped_lentity(lentity);
        let t = component.type_id();
        assert(before.entities[e as int].contains_key(t));
        assert(before.cupboards.contains_key(t));
        let ci = self.cupboard_slot(t).unwrap();
        let shelf_ref = int_map_get(&self.lentities, e).unwrap().get(t).unwrap();
        let hash = component.hash_me();
        let found = self.cupboards[ci].lookup(hash);
        let exclusive = self.cupboards[ci].get_shelf(&shelf_ref).is_one();
        let unchanged = match found {
            Some(indexed) => indexed == shelf_ref,
            None => false,
        };
        if exclusive || unchanged {
            let key = component.index_key();
            self.cupboards[ci].give_back(shelf_ref, component);
            proof {
                assert(cupboards_of(self.cupboard_lookup@, self.cupboards@) =~= before.give_back(
                    e,
                    value,
                ).cupboards);
            }
            if exclusive {
                match self.index_slot(t) {
                    Some(ii) => {
                        file(&mut self.indexes[ii], key, e);
                        proof {
                            assert(indexes_of(self.index_lookup@, self.indexes@)
                                =~= before.indexes.insert(t, filed_in(before.indexes[t], key, e)));
                        }
                    },
                    None => {},
                }
            }
            proof {
                before.lemma_give_back_wf(e, value);
            }
            return ;
        }
        if grouped {
            let g = self.group_slot(e);
            assert(self@.groups[g as int] == self.uniques_by_type@[g as int]@);
            let members = self.uniques_by_type[g].clone();
            assert(members@ == before.members(e));
            self.diverge(e, ci, shelf_ref, &members, component);
        } else {
            let mut members: Vec<Lentity> = Vec::new();
            members.push(e);
            proof {
                assert(members@ =~= seq![e]);
            }
            self.diverge(e, ci, shelf_ref, &members, component);
        }
    }

    /// Queries for the sealed entities that have every one of the types
    /// `type_sig_vec`, and groups them by the shelves that they have for
    /// these types: two entities are in one group exactly if they share the
    /// shelf of each of the types. Returns one handle per group, for the
    /// group's first entity, the groups in the order in which the query finds
    /// their first entities. A value committed through such a handle is
    /// committed for the whole group.
    pub fn query_uniques(&mut self, type_sig_vec: Vec<TypeIdNum>) -> (handles: Vec<GroupedLentity>)
        requires
            old(self).wf(),
        ensures
            final(self).wf(),
            final(self)@ == old(self)@.query_uniques(type_sig_vec@),
            handles@ == final(self)@.handles(),
            handles@.len() == final(self)@.groups.len(),
            old(self)@.settled() ==> final(self)@.settled(),
            old(self)@.sealed_as_is() ==> final(self)@.sealed_as_is(),
            partitions(
                old(self)@.entities,
                type_sig_vec@,
                final(self)@.groups,
                old(self)@.query(type_sig_vec@),
            ),
            forall|g: int|
                0 <= g < final(self)@.groups.len() ==> final(self)@.represents(
                    (#[trigger] final(self)@.groups[g])[0],
                ),
            forall|g: int, i: int|
                0 <= g < final(self)@.groups.len() && 0 <= i < type_sig_vec@.len()
                    ==> final(self)@.coherent(
                    (#[trigger] final(self)@.groups[g])[0],
                    #[trigger] type_sig_vec@[i],
                ),
    {
        let ghost before = self@;
        let results = self.query(type_sig_vec.clone());
        proof {
            before.lemma_query(type_sig_vec@);
            assert(results@.take(0) =~= Seq::<Lentity>::empty());
            assert(groups_of(Seq::<Vec<Lentity>>::empty()) =~= Seq::<Seq<Lentity>>::empty());
        }
        let mut groups: Vec<Vec<Lentity>> = Vec::new();
        let mut lookup: IntMap<Lentity, usize> = IntMap::default();
        let mut i: usize = 0;
        while i < results.len()
            invariant
                i <= results@.len(),
                *self == *old(self),
                is_rep_lookup(lookup@, groups_of(groups@)),
                before == self@,
                is_table(self.lentities@),
                before.entities == records_of(self.lentities@),
                forall|k: int|
                    0 <= k < results@.len() ==> (#[trigger] results@[k]) < self.lentities@.len(),
                groups_of(groups@) == group_by(
                    before.entities,
                    type_sig_vec@,
                    results@.take(i as int),
                ),
                forall|j: int|
                    0 <= j < groups@.len() ==> (#[trigger] groups@[j])@.len() > 0
                        && groups@[j]@[0] < self.lentities@.len(),
            decreases results@.len() - i,
        {
            let e = results[i];
            let ghost then = groups_of(groups@);
            let g = find_group(&self.lentities, &type_sig_vec, &groups, e);
            if g < groups.len() {
                groups[g].push(e);
                proof {
                    let now = groups_of(groups@);
                    assert(now =~= then.update(g as int, then[g as int].push(e)));
                    assert forall|j: int| 0 <= j < now.len() implies (#[trigger] now[j])[0]
                        == then[j][0] by {}
                    assert forall|j: int| 0 <= j < now.len() implies lookup@.contains_key(
                        (#[trigger] now[j])[0],
                    ) && lookup@[now[j][0]] == j by {
                        assert(lookup@[then[j][0]] == j);
                    }
                }
            } else {
                int_map_insert(&mut lookup, e, g);
                let mut members: Vec<Lentity> = Vec::new();
                members.push(e);
                groups.push(members);
                proof {
                    let now = groups_of(groups@);
                    assert(members@ =~= seq![e]);
                    assert(now =~= then.push(seq![e]));
                    assert forall|j: int| 0 <= j < now.len() implies lookup@.contains_key(
                        (#[trigger] now[j])[0],
                    ) && lookup@[now[j][0]] == j by {
                        if j < then.len() {
                            assert(now[j] == then[j]);
                            assert(!same_key(before.entities, type_sig_vec@, then[j][0], e));
                            assert(same_key(before.entities, type_sig_vec@, e, e));
                        }
                    }
                    assert forall|rep: Lentity| #[trigger]
                        lookup@.contains_key(rep) implies lookup@[rep] < now.len()
                        && now[lookup@[rep] as int][0] == rep by {
                        if rep != e {
                            assert(now[lookup@[rep] as int] == then[lookup@[rep] as int]);
                        }
                    }
                }
            }
            proof {
                assert(results@.take(i + 1).drop_last() =~= results@.take(i as int));
                assert(results@.take(i + 1).last() == e);
            }
            i = i + 1;
        }
        proof {
            assert(results@.take(results@.len() as int) =~= results@);
        }
        let mut handles: Vec<GroupedLentity> = Vec::new();
        let mut g: usize = 0;
        while g < groups.len()
            invariant
                g <= groups@.len(),
                handles@.len() == g,
                forall|j: int| 0 <= j < groups@.len() ==> (#[trigger] groups@[j])@.len() > 0,
                forall|j: int|
                    0 <= j < g ==> handles@[j] == GroupedLentity::Group(
                        (#[trigger] groups_of(groups@)[j])[0],
                    ),
            decreases groups@.len() - g,
        {
            assert(groups_of(groups@)[g as int] == groups@[g as int]@);
            handles.push(lentity_to_grouped_lentity(groups[g][0]));
            g = g + 1;
        }
        self.uniques_by_type = groups;
        self.group_lookup = lookup;
        self.current_unique_type_ids = type_sig_vec;
        proof {
            assert(handles@ =~= self@.handles());
            before.lemma_query_uniques_wf(type_sig_vec@);
            before.lemma_one_group_per_key(type_sig_vec@);
        }
        handles
    }

    /// Makes a secondary index for the component type `t`: an empty one,
    /// also where the type had one before. From then on, adding a component
    /// of the type files the entity under the value's key.
    pub fn create_index(&mut self, t: TypeIdNum)
        requires
            old(self).wf(),
        ensures
            final(self).wf(),
            final(self)@ == old(self)@.create_index(t),
            old(self)@.settled() ==> final(self)@.settled(),
            old(self)@.sealed_as_is() ==> final(self)@.sealed_as_is(),
    {
        let ghost before = self@;
        match self.index_slot(t) {
            Some(ii) => {
                self.indexes.set(ii, HashMap::new());
            },
            None => {
                let ii = self.indexes.len();
                self.indexes.push(HashMap::new());
                self.index_lookup.insert(t, ii);
            },
        }
        proof {
            assert(key_index_of(Map::<u32, HashSet<Lentity>>::empty()) =~= Map::<
                u32,
                Set<Lentity>,
            >::empty());
            assert(indexes_of(self.index_lookup@, self.indexes@) =~= before.indexes.insert(
                t,
                Map::empty(),
            ));
            assert(self.inv());
            assert(self@ == before.create_index(t));
            assert(self@.wf());
        }
    }

    /// The entities that the secondary index of type `t` has filed under the
    /// key `desired_index`, each once, in no particular order.
    pub fn query_index(&self, t: TypeIdNum, desired_index: u32) -> (lentities: Vec<Lentity>)
        requires
            self.wf(),
            self@.indexes.contains_key(t),
            self@.indexes[t].contains_key(desired_index),
        ensures
            lentities@.to_set() == self@.indexes[t][desired_index],
            lentities@.no_duplicates(),
    {
        let ii = self.index_slot(t).unwrap();
        assert(self.indexes@[ii as int]@.contains_key(desired_index));
        let set = self.indexes[ii].get(&desired_index).unwrap();
        members_of(set)
    }
}

} // verus!
