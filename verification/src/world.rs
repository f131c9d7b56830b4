//! The store as mathematics: what it holds and what each operation makes of
//! it. The executable store states its contracts over this model.

use crate::com::{Component, TypeIdNum};
use crate::cupboard::{Shelf, ShelfRef, Shelves};
use crate::lentity::{GroupedLentity, Lentity};
use crate::utils::collision_free;
use vstd::prelude::*;

verus! {

/// An entity's record: for each component type that it has, the shelf of
/// that type's cupboard that backs it.
pub type Record = Map<TypeIdNum, ShelfRef>;

/// An archetype bucket: the entities that were sealed with the type set
/// `sig`, in the order of sealing.
pub struct Bucket {
    pub sig: Set<TypeIdNum>,
    pub members: Seq<Lentity>,
}

/// A secondary index: from a key to the entities filed under it.
pub type KeyIndex = Map<u32, Set<Lentity>>;

/// What a store holds.
pub struct World<T> {
    /// The dedup table of each component type in use.
    pub cupboards: Map<TypeIdNum, Shelves<T>>,
    /// The record of each entity, by entity number.
    pub entities: Seq<Record>,
    /// The archetype buckets, in the order in which their type sets were
    /// first sealed.
    pub archetypes: Seq<Bucket>,
    /// The types of the last grouped query.
    pub group_types: Seq<TypeIdNum>,
    /// The groups of the last grouped query. The first member of a group is
    /// its representative.
    pub groups: Seq<Seq<Lentity>>,
    /// The secondary index of each type that has one.
    pub indexes: Map<TypeIdNum, KeyIndex>,
}

/// Whether the record points to shelf `s` for type `t`.
pub open spec fn points_to(record: Record, t: TypeIdNum, s: ShelfRef) -> bool {
    record.contains_key(t) && record[t] == s
}

/// The number of records that point to shelf `s` for type `t`.
pub open spec fn refs(entities: Seq<Record>, t: TypeIdNum, s: ShelfRef) -> nat
    decreases entities.len(),
{
    if entities.len() == 0 {
        0
    } else {
        refs(entities.drop_last(), t, s) + if points_to(entities.last(), t, s) {
            1nat
        } else {
            0nat
        }
    }
}

/// The shelf that a record has for type `t`, if any.
pub open spec fn slot(record: Record, t: TypeIdNum) -> Option<ShelfRef> {
    if record.contains_key(t) {
        Some(record[t])
    } else {
        None
    }
}

/// Whether the entities `a` and `b` have the same shelf, or both none, for
/// each of `types`.
pub open spec fn same_key(entities: Seq<Record>, types: Seq<TypeIdNum>, a: Lentity, b: Lentity) -> bool {
    forall|i: int|
        0 <= i < types.len() ==> slot(entities[a as int], #[trigger] types[i]) == slot(
            entities[b as int],
            types[i],
        )
}

/// Whether `g` is the first group whose representative has the key of `e`,
/// or the number of groups when there is none.
pub open spec fn is_group_for(
    entities: Seq<Record>,
    types: Seq<TypeIdNum>,
    groups: Seq<Seq<Lentity>>,
    e: Lentity,
    g: int,
) -> bool {
    &&& 0 <= g <= groups.len()
    &&& forall|j: int| 0 <= j < g ==> !same_key(entities, types, (#[trigger] groups[j])[0], e)
    &&& g < groups.len() ==> same_key(entities, types, groups[g][0], e)
}

/// The first group whose representative has the key of `e`, or the number of
/// groups when there is none.
pub open spec fn group_for(
    entities: Seq<Record>,
    types: Seq<TypeIdNum>,
    groups: Seq<Seq<Lentity>>,
    e: Lentity,
) -> int {
    choose|g: int| is_group_for(entities, types, groups, e, g)
}

/// The groups after `e` was placed: in the group of its key, or in a new
/// group of its own.
pub open spec fn place(
    entities: Seq<Record>,
    types: Seq<TypeIdNum>,
    groups: Seq<Seq<Lentity>>,
    e: Lentity,
) -> Seq<Seq<Lentity>> {
    let g = group_for(entities, types, groups, e);
    if g < groups.len() {
        groups.update(g, groups[g].push(e))
    } else {
        groups.push(seq![e])
    }
}

/// The groups that `list` falls into, each entity placed in turn.
pub open spec fn group_by(entities: Seq<Record>, types: Seq<TypeIdNum>, list: Seq<Lentity>) -> Seq<
    Seq<Lentity>,
>
    decreases list.len(),
{
    if list.len() == 0 {
        Seq::empty()
    } else {
        place(entities, types, group_by(entities, types, list.drop_last()), list.last())
    }
}

/// The members of the buckets whose type set holds all of `types`, bucket
/// after bucket.
pub open spec fn matching(archetypes: Seq<Bucket>, types: Set<TypeIdNum>) -> Seq<Lentity>
    decreases archetypes.len(),
{
    if archetypes.len() == 0 {
        Seq::empty()
    } else {
        matching(archetypes.drop_last(), types) + if types.subset_of(archetypes.last().sig) {
            archetypes.last().members
        } else {
            Seq::empty()
        }
    }
}

/// Whether the bucket `i` has entity `e`.
pub open spec fn in_bucket(archetypes: Seq<Bucket>, e: Lentity, i: int) -> bool {
    0 <= i < archetypes.len() && archetypes[i].members.contains(e)
}

/// Whether `i` is the first bucket with the type set `sig`, or the number of
/// buckets when there is none.
pub open spec fn is_bucket_for(archetypes: Seq<Bucket>, sig: Set<TypeIdNum>, i: int) -> bool {
    &&& 0 <= i <= archetypes.len()
    &&& forall|j: int| 0 <= j < i ==> (#[trigger] archetypes[j]).sig != sig
    &&& i < archetypes.len() ==> archetypes[i].sig == sig
}

/// The first bucket with the type set `sig`, or the number of buckets when
/// there is none.
pub open spec fn bucket_for(archetypes: Seq<Bucket>, sig: Set<TypeIdNum>) -> int {
    choose|i: int| is_bucket_for(archetypes, sig, i)
}

/// Whether `g` is the first group that `rep` represents, or the number of
/// groups when there is none.
pub open spec fn is_group_of(groups: Seq<Seq<Lentity>>, rep: Lentity, g: int) -> bool {
    &&& 0 <= g <= groups.len()
    &&& forall|j: int| 0 <= j < g ==> (#[trigger] groups[j])[0] != rep
    &&& g < groups.len() ==> groups[g][0] == rep
}

/// The first group that `rep` represents, or the number of groups when there
/// is none.
pub open spec fn group_of(groups: Seq<Seq<Lentity>>, rep: Lentity) -> int {
    choose|g: int| is_group_of(groups, rep, g)
}

/// Whether no entity occurs twice in the groups, in one group or in two.
pub open spec fn disjoint(groups: Seq<Seq<Lentity>>) -> bool {
    forall|g: int, k: int, h: int, l: int|
        0 <= g < groups.len() && 0 <= k < groups[g].len() && 0 <= h < groups.len() && 0 <= l
            < groups[h].len() && (g != h || k != l) ==> (#[trigger] groups[g][k]) != (
        #[trigger] groups[h][l])
}

/// The entities filed under `key`: none where the key is unknown.
pub open spec fn filed(index: KeyIndex, key: u32) -> Set<Lentity> {
    if index.contains_key(key) {
        index[key]
    } else {
        Set::empty()
    }
}

/// The index after `e` was filed under `key`.
pub open spec fn filed_in(index: KeyIndex, key: u32, e: Lentity) -> KeyIndex {
    index.insert(key, filed(index, key).insert(e))
}

/// The index after `e` was taken out of what is filed under `key`.
pub open spec fn unfiled(index: KeyIndex, key: u32, e: Lentity) -> KeyIndex {
    index.insert(key, filed(index, key).remove(e))
}

/// The index after `members` moved from the key `old_key` to the key
/// `new_key`.
pub open spec fn refiled(index: KeyIndex, old_key: u32, new_key: u32, members: Set<Lentity>) -> KeyIndex {
    let without = index.insert(old_key, filed(index, old_key).difference(members));
    without.insert(new_key, filed(without, new_key).union(members))
}

/// The records with every one of `members` pointed to shelf `s` for type `t`.
pub open spec fn repointed(entities: Seq<Record>, members: Seq<Lentity>, t: TypeIdNum, s: ShelfRef) -> Seq<
    Record,
> {
    Seq::new(
        entities.len(),
        |e: int|
            if members.contains(e as usize) {
                entities[e].insert(t, s)
            } else {
                entities[e]
            },
    )
}

impl<T: Component> World<T> {
    /// The store with nothing in it.
    pub open spec fn empty() -> World<T> {
        World {
            cupboards: Map::empty(),
            entities: Seq::empty(),
            archetypes: Seq::empty(),
            group_types: Seq::empty(),
            groups: Seq::empty(),
            indexes: Map::empty(),
        }
    }

    /// The dedup table of type `t`: empty where none was made yet.
    pub open spec fn cupboard(self, t: TypeIdNum) -> Shelves<T> {
        if self.cupboards.contains_key(t) {
            self.cupboards[t]
        } else {
            Shelves::empty()
        }
    }

    /// Whether the entity exists and has a component of type `t`.
    pub open spec fn has(self, e: Lentity, t: TypeIdNum) -> bool {
        e < self.entities.len() && self.entities[e as int].contains_key(t)
    }

    /// The shelf that backs the component of type `t` of entity `e`.
    pub open spec fn shelf(self, e: Lentity, t: TypeIdNum) -> Shelf<T> {
        self.cupboards[t].shelves[self.entities[e as int][t] as int]
    }

    /// Whether the component of type `t` of entity `e` is checked out: the
    /// value of its exclusive shelf is away, or a copy of its shared shelf is
    /// out.
    pub open spec fn on_loan(self, e: Lentity, t: TypeIdNum) -> bool {
        self.has(e, t) && self.shelf(e, t).on_loan()
    }

    /// Whether the value of the component of type `t` of entity `e` is away:
    /// its shelf is exclusive and checked out, so that it shows no value.
    pub open spec fn away(self, e: Lentity, t: TypeIdNum) -> bool {
        self.has(e, t) && self.shelf(e, t).value() is None
    }

    /// The value that entity `e` has for type `t`, as a reader sees it.
    pub open spec fn peek(self, e: Lentity, t: TypeIdNum) -> Option<T> {
        if self.has(e, t) {
            self.shelf(e, t).value()
        } else {
            None
        }
    }

    /// Whether entity `e` reads `value` for the type of `value`: it reads a
    /// value of the same content hash, which is `value` itself where no two
    /// values have one hash.
    pub open spec fn reads(self, e: Lentity, value: T) -> bool {
        self.peek(e, value.type_spec()) matches Some(shown) && shown.hash_spec()
            == value.hash_spec() && (collision_free::<T>() ==> shown == value)
    }

    /// Whether entity `e` was sealed: some bucket has it.
    pub open spec fn is_sealed(self, e: Lentity) -> bool {
        exists|i: int| in_bucket(self.archetypes, e, i)
    }

    /// The entities that a query for `types` finds: the members of every
    /// bucket whose type set holds all of `types`.
    pub open spec fn query(self, types: Seq<TypeIdNum>) -> Seq<Lentity> {
        matching(self.archetypes, types.to_set())
    }

    /// The members of the group that `rep` represents.
    pub open spec fn members(self, rep: Lentity) -> Seq<Lentity> {
        self.groups[group_of(self.groups, rep)]
    }

    /// Whether `rep` is the representative of a group of the last grouped
    /// query.
    pub open spec fn represents(self, rep: Lentity) -> bool {
        group_of(self.groups, rep) < self.groups.len()
    }

    /// Whether every member of the group of `rep` has the shelf of `rep` for
    /// type `t`.
    pub open spec fn coherent(self, rep: Lentity, t: TypeIdNum) -> bool {
        forall|k: int|
            0 <= k < self.members(rep).len() ==> slot(
                self.entities[(#[trigger] self.members(rep)[k]) as int],
                t,
            ) == slot(self.entities[rep as int], t)
    }

    /// The handles of the groups, one per group.
    pub open spec fn handles(self) -> Seq<GroupedLentity> {
        Seq::new(self.groups.len(), |g: int| GroupedLentity::Group(self.groups[g][0]))
    }

    /// The invariant of the store.
    pub open spec fn wf(self) -> bool {
        &&& self.entities.len() <= u32::MAX
        &&& self.cupboards.dom().finite()
        &&& forall|t: TypeIdNum| #[trigger]
            self.cupboards.contains_key(t) ==> self.cupboards[t].wf()
        &&& forall|t: TypeIdNum, s: int|
            self.cupboards.contains_key(t) && 0 <= s < self.cupboards[t].shelves.len() ==> (
            #[trigger] self.cupboards[t].shelves[s]).wf()
        &&& forall|e: int, t: TypeIdNum|
            0 <= e < self.entities.len() && (#[trigger] self.entities[e].contains_key(t))
                ==> self.cupboards.contains_key(t) && self.entities[e][t]
                < self.cupboards[t].shelves.len()
        &&& forall|t: TypeIdNum, s: ShelfRef|
            self.cupboards.contains_key(t) && s < self.cupboards[t].shelves.len()
                ==> self.cupboards[t].shelves[s as int].share_count() == #[trigger] refs(
                self.entities,
                t,
                s,
            )
        &&& forall|i: int, k: int|
            0 <= i < self.archetypes.len() && 0 <= k < self.archetypes[i].members.len() ==> (
            #[trigger] self.archetypes[i].members[k]) < self.entities.len()
        &&& forall|i: int, k: int, j: int, l: int|
            0 <= i < self.archetypes.len() && 0 <= k < self.archetypes[i].members.len() && 0 <= j
                < self.archetypes.len() && 0 <= l < self.archetypes[j].members.len() && (i != j
                || k != l) ==> (#[trigger] self.archetypes[i].members[k]) != (
            #[trigger] self.archetypes[j].members[l])
        &&& forall|g: int|
            0 <= g < self.groups.len() ==> (#[trigger] self.groups[g]).len() > 0
                && self.groups[g].no_duplicates()
        &&& disjoint(self.groups)
        &&& forall|g: int, k: int|
            0 <= g < self.groups.len() && 0 <= k < self.groups[g].len() ==> (
            #[trigger] self.groups[g][k]) < self.entities.len()
    }

    /// The store after an entity was created.
    pub open spec fn create_entity(self) -> World<T> {
        World { entities: self.entities.push(Map::empty()), ..self }
    }

    /// Whether nothing is checked out.
    pub open spec fn settled(self) -> bool {
        forall|t: TypeIdNum, s: int|
            self.cupboards.contains_key(t) && 0 <= s < self.cupboards[t].shelves.len() ==> !(
            #[trigger] self.cupboards[t].shelves[s]).on_loan()
    }

    /// Whether nothing is checked out, but perhaps the component of type `t`
    /// of entity `e`.
    pub open spec fn loaned_only(self, e: Lentity, t: TypeIdNum) -> bool {
        &&& self.has(e, t)
        &&& forall|u: TypeIdNum, s: int|
            self.cupboards.contains_key(u) && 0 <= s < self.cupboards[u].shelves.len() && !(u == t
                && s == self.entities[e as int][t]) ==> !(
            #[trigger] self.cupboards[u].shelves[s]).on_loan()
    }

    /// The store after entity `e` was counted in on the shelf `target` of
    /// `cupboard`, the new cupboard of type `t`: the entity's record points
    /// to the shelf, and a secondary index of the type files the entity
    /// under the key of the value that the shelf shows.
    pub open spec fn lands(self, e: Lentity, t: TypeIdNum, cupboard: Shelves<T>, target: ShelfRef) -> World<
        T,
    > {
        let key = cupboard.shelves[target as int].value().unwrap().index_spec();
        World {
            cupboards: self.cupboards.insert(t, cupboard),
            entities: self.entities.update(e as int, self.entities[e as int].insert(t, target)),
            indexes: if self.indexes.contains_key(t) {
                self.indexes.insert(t, filed_in(self.indexes[t], key, e))
            } else {
                self.indexes
            },
            ..self
        }
    }

    /// The store after entity `e` gave up its component of type `t`, if it
    /// has one: the shelf loses a sharer, the record forgets the type, and a
    /// secondary index of the type no longer files the entity under the key
    /// of the value that the shelf shows.
    pub open spec fn without(self, e: Lentity, t: TypeIdNum) -> World<T> {
        if self.has(e, t) {
            World {
                cupboards: self.cupboards.insert(
                    t,
                    self.cupboards[t].released(self.entities[e as int][t], 1),
                ),
                entities: self.entities.update(e as int, self.entities[e as int].remove(t)),
                indexes: if self.indexes.contains_key(t) {
                    self.indexes.insert(
                        t,
                        unfiled(self.indexes[t], self.shelf(e, t).value().unwrap().index_spec(), e),
                    )
                } else {
                    self.indexes
                },
                ..self
            }
        } else {
            self
        }
    }

    /// The store after entity `e` was given `value`, which the store takes
    /// over. A component of the same type that the entity had before is
    /// given up first. The value is deduplicated in the cupboard of its
    /// type: it joins the shelf that shows a value of its hash, or gets a
    /// new shelf.
    pub open spec fn add_component(self, e: Lentity, value: T) -> World<T> {
        let t = value.type_spec();
        let hash = value.hash_spec();
        let base = self.without(e, t);
        base.lands(e, t, base.cupboard(t).add(value, hash), base.cupboard(t).target(hash))
    }

    /// The store after entity `e` was given a value that the caller keeps,
    /// in place of a component of the same type that it had before. `value`
    /// is the caller's value and `copy` the clone of it that is added where
    /// no shelf shows a value of the hash of `value`.
    pub open spec fn add_component_ref(self, e: Lentity, value: T, copy: T) -> World<T> {
        let t = value.type_spec();
        let hash = value.hash_spec();
        let base = self.without(e, t);
        base.lands(
            e,
            t,
            base.cupboard(t).add_ref(copy, hash),
            base.cupboard(t).target_ref(copy, hash),
        )
    }

    /// The store after entity `e` was sealed: it is the last member of the
    /// bucket of its type set, which is a new bucket if the type set is new.
    pub open spec fn complete_entity(self, e: Lentity) -> World<T> {
        let sig = self.entities[e as int].dom();
        let i = bucket_for(self.archetypes, sig);
        World {
            archetypes: if i < self.archetypes.len() {
                self.archetypes.update(
                    i,
                    Bucket { sig, members: self.archetypes[i].members.push(e) },
                )
            } else {
                self.archetypes.push(Bucket { sig, members: seq![e] })
            },
            ..self
        }
    }

    /// The store after a grouped query for `types`: its results are grouped
    /// by the shelves that they have for `types`.
    pub open spec fn query_uniques(self, types: Seq<TypeIdNum>) -> World<T> {
        World {
            group_types: types,
            groups: group_by(self.entities, types, self.query(types)),
            ..self
        }
    }

    /// The store after the component of type `t` of entity `e` was checked
    /// out. An exclusive value leaves the store: until it comes back, its
    /// shelf is not in the hash index and the entity is not in a secondary
    /// index of the type.
    pub open spec fn checkout(self, e: Lentity, t: TypeIdNum) -> World<T> {
        if self.has(e, t) {
            World {
                cupboards: self.cupboards.insert(
                    t,
                    self.cupboards[t].checked_out(self.entities[e as int][t]),
                ),
                indexes: match self.shelf(e, t) {
                    Shelf::One { data: Some(v) } => if self.indexes.contains_key(t) {
                        self.indexes.insert(t, unfiled(self.indexes[t], v.index_spec(), e))
                    } else {
                        self.indexes
                    },
                    _ => self.indexes,
                },
                ..self
            }
        } else {
            self
        }
    }

    /// The store after `value` went back to the shelf of entity `e`. An
    /// exclusive shelf shows `value` from then on: the hash index leads to
    /// it from the hash of `value` unless that hash is indexed already, and a
    /// secondary index of the type files the entity under the key of
    /// `value`.
    pub open spec fn give_back(self, e: Lentity, value: T) -> World<T> {
        let t = value.type_spec();
        World {
            cupboards: self.cupboards.insert(
                t,
                self.cupboards[t].given_back(self.entities[e as int][t], value),
            ),
            indexes: if self.shelf(e, t) is One && self.indexes.contains_key(t) {
                self.indexes.insert(t, filed_in(self.indexes[t], value.index_spec(), e))
            } else {
                self.indexes
            },
            ..self
        }
    }

    /// Whether the hash index leads from the hash of `value` to the shelf
    /// of entity `e`: the shelf shows a value of that hash.
    pub open spec fn unchanged(self, e: Lentity, value: T) -> bool {
        let t = value.type_spec();
        let hash = value.hash_spec();
        self.cupboards[t].index.contains_key(hash) && self.cupboards[t].index[hash]
            == self.entities[e as int][t]
    }

    /// Whether a commit of `value` for entity `e` stays on the entity's
    /// shelf: the shelf is exclusive, or shared and shows a value of the
    /// hash of `value`.
    pub open spec fn stays(self, e: Lentity, value: T) -> bool {
        self.shelf(e, value.type_spec()) is One || self.unchanged(e, value)
    }

    /// The store after the sharers `members` left the shelf of entity `e`
    /// for `value`: the shelf loses them, the value is deduplicated like an
    /// added one, the members' records point to the shelf it landed on, and a
    /// secondary index of the type files them under the value's key in place
    /// of the key of the value they left.
    pub open spec fn diverge(self, e: Lentity, members: Seq<Lentity>, value: T) -> World<T> {
        let t = value.type_spec();
        let hash = value.hash_spec();
        let n = members.len() as u32;
        let shelf = self.shelf(e, t);
        let left = self.cupboards[t].released(self.entities[e as int][t], n);
        let target = left.target(hash);
        let landed = left.add(value, hash).add_qty(target, (n - 1) as u32);
        World {
            cupboards: self.cupboards.insert(t, landed),
            entities: repointed(self.entities, members, t, target),
            indexes: if self.indexes.contains_key(t) {
                self.indexes.insert(
                    t,
                    refiled(
                        self.indexes[t],
                        shelf.value().unwrap().index_spec(),
                        value.index_spec(),
                        members.to_set(),
                    ),
                )
            } else {
                self.indexes
            },
            ..self
        }
    }

    /// The store after `value` was committed for the single entity `e`. On an
    /// exclusive shelf, and on a shared shelf that shows a value of the hash
    /// of `value`, the value goes back to the shelf. Else the entity leaves
    /// the shelf for the shelf of `value`.
    pub open spec fn commit_single(self, e: Lentity, value: T) -> World<T> {
        if self.stays(e, value) {
            self.give_back(e, value)
        } else {
            self.diverge(e, seq![e], value)
        }
    }

    /// The store after `value` was committed for the group that `rep`
    /// represents. Where a single entity's commit would leave the shelf, the
    /// whole group leaves it together.
    pub open spec fn commit_group(self, rep: Lentity, value: T) -> World<T> {
        if self.stays(rep, value) {
            self.give_back(rep, value)
        } else {
            self.diverge(rep, self.members(rep), value)
        }
    }

    /// The store after `value` was committed through `handle`.
    pub open spec fn return_component(self, handle: GroupedLentity, value: T) -> World<T> {
        match handle {
            GroupedLentity::Single(e) => self.commit_single(e, value),
            GroupedLentity::Group(rep) => self.commit_group(rep, value),
        }
    }

    /// The store after a secondary index was made for type `t`: an empty
    /// one, also where the type had one before.
    pub open spec fn create_index(self, t: TypeIdNum) -> World<T> {
        World { indexes: self.indexes.insert(t, Map::empty()), ..self }
    }
}

/// The number of records that point to a shelf, after one more record.
pub proof fn lemma_refs_push(entities: Seq<Record>, record: Record, t: TypeIdNum, s: ShelfRef)
    ensures
        refs(entities.push(record), t, s) == refs(entities, t, s) + if points_to(record, t, s) {
            1nat
        } else {
            0nat
        },
{
    assert(entities.push(record).drop_last() =~= entities);
}

/// The number of records that point to a shelf, after one record changed.
pub proof fn lemma_refs_update(
    entities: Seq<Record>,
    e: int,
    record: Record,
    t: TypeIdNum,
    s: ShelfRef,
)
    requires
        0 <= e < entities.len(),
    ensures
        refs(entities.update(e, record), t, s) + (if points_to(entities[e], t, s) {
            1nat
        } else {
            0nat
        }) == refs(entities, t, s) + if points_to(record, t, s) {
            1nat
        } else {
            0nat
        },
    decreases entities.len(),
{
    let after = entities.update(e, record);
    if e == entities.len() - 1 {
        assert(after.drop_last() =~= entities.drop_last());
    } else {
        assert(after.drop_last() =~= entities.drop_last().update(e, record));
        lemma_refs_update(entities.drop_last(), e, record, t, s);
    }
}

/// No shelf has more records pointing to it than there are records, and
/// fewer if some record does not point to it.
pub proof fn lemma_refs_bound(entities: Seq<Record>, t: TypeIdNum, s: ShelfRef)
    ensures
        refs(entities, t, s) <= entities.len(),
        (exists|e: int| 0 <= e < entities.len() && !points_to(entities[e], t, s)) ==> refs(
            entities,
            t,
            s,
        ) < entities.len(),
    decreases entities.len(),
{
    if entities.len() > 0 {
        lemma_refs_bound(entities.drop_last(), t, s);
        if exists|e: int| 0 <= e < entities.len() && !points_to(entities[e], t, s) {
            let e = choose|e: int| 0 <= e < entities.len() && !points_to(entities[e], t, s);
            if e < entities.len() - 1 {
                assert(!points_to(entities.drop_last()[e], t, s));
            }
        }
    }
}

/// A shelf that each of some distinct entities points to has at least as
/// many records pointing to it.
pub proof fn lemma_refs_at_least(
    entities: Seq<Record>,
    members: Seq<Lentity>,
    t: TypeIdNum,
    s: ShelfRef,
)
    requires
        members.no_duplicates(),
        forall|k: int|
            0 <= k < members.len() ==> (#[trigger] members[k]) < entities.len() && points_to(
                entities[members[k] as int],
                t,
                s,
            ),
    ensures
        refs(entities, t, s) >= members.len(),
    decreases members.len(),
{
    if members.len() > 0 {
        let last = members.last();
        let rest = members.drop_last();
        let without = entities.update(last as int, Map::empty());
        lemma_refs_update(entities, last as int, Map::empty(), t, s);
        assert forall|k: int| 0 <= k < rest.len() implies (#[trigger] rest[k]) < without.len()
            && points_to(without[rest[k] as int], t, s) by {
            assert(rest[k] == members[k]);
            assert(members[k] != members[members.len() - 1]);
        }
        lemma_refs_at_least(without, rest, t, s);
    }
}

/// A shelf that no record points to has no record pointing to it.
pub proof fn lemma_refs_none(entities: Seq<Record>, t: TypeIdNum, s: ShelfRef)
    requires
        forall|e: int| 0 <= e < entities.len() ==> !points_to(#[trigger] entities[e], t, s),
    ensures
        refs(entities, t, s) == 0,
    decreases entities.len(),
{
    if entities.len() > 0 {
        assert forall|e: int| 0 <= e < entities.drop_last().len() implies !points_to(
            #[trigger] entities.drop_last()[e],
            t,
            s,
        ) by {
            assert(entities.drop_last()[e] == entities[e]);
        }
        lemma_refs_none(entities.drop_last(), t, s);
        assert(!points_to(entities[entities.len() - 1], t, s));
    }
}

/// Two lists of records that agree, record by record, on whether they point
/// to a shelf have as many records pointing to it.
pub proof fn lemma_refs_agree(a: Seq<Record>, b: Seq<Record>, t: TypeIdNum, s: ShelfRef)
    requires
        a.len() == b.len(),
        forall|e: int| 0 <= e < a.len() ==> points_to(#[trigger] a[e], t, s) == points_to(b[e], t, s),
    ensures
        refs(a, t, s) == refs(b, t, s),
    decreases a.len(),
{
    if a.len() > 0 {
        assert forall|e: int| 0 <= e < a.drop_last().len() implies points_to(
            #[trigger] a.drop_last()[e],
            t,
            s,
        ) == points_to(b.drop_last()[e], t, s) by {
            assert(a.drop_last()[e] == a[e]);
            assert(b.drop_last()[e] == b[e]);
        }
        lemma_refs_agree(a.drop_last(), b.drop_last(), t, s);
        assert(points_to(a[a.len() - 1], t, s) == points_to(b[a.len() - 1], t, s));
    }
}

/// A shelf that none of some distinct entities points to has at most as many
/// records pointing to it as there are other entities.
pub proof fn lemma_refs_at_most(
    entities: Seq<Record>,
    members: Seq<Lentity>,
    t: TypeIdNum,
    s: ShelfRef,
)
    requires
        members.no_duplicates(),
        forall|k: int|
            0 <= k < members.len() ==> (#[trigger] members[k]) < entities.len() && !points_to(
                entities[members[k] as int],
                t,
                s,
            ),
    ensures
        refs(entities, t, s) + members.len() <= entities.len(),
    decreases members.len(),
{
    if members.len() == 0 {
        lemma_refs_bound(entities, t, s);
    } else {
        let last = members.last();
        let rest = members.drop_last();
        let pointing = entities[last as int].insert(t, s);
        let with = entities.update(last as int, pointing);
        lemma_refs_update(entities, last as int, pointing, t, s);
        assert forall|k: int| 0 <= k < rest.len() implies (#[trigger] rest[k]) < with.len()
            && !points_to(with[rest[k] as int], t, s) by {
            assert(rest[k] == members[k]);
            assert(members[k] != members[members.len() - 1]);
        }
        lemma_refs_at_most(with, rest, t, s);
    }
}

/// What moving some distinct entities from one shelf of a type to another
/// does to the number of records that point to a shelf: the shelf they left
/// loses them, the shelf they moved to gains them, and every other shelf of
/// every type keeps what it had.
pub proof fn lemma_refs_repointed(
    entities: Seq<Record>,
    members: Seq<Lentity>,
    t: TypeIdNum,
    from: ShelfRef,
    to: ShelfRef,
)
    requires
        entities.len() <= usize::MAX,
        members.no_duplicates(),
        from != to,
        forall|k: int|
            0 <= k < members.len() ==> (#[trigger] members[k]) < entities.len() && points_to(
                entities[members[k] as int],
                t,
                from,
            ),
    ensures
        refs(repointed(entities, members, t, to), t, from) + members.len() == refs(
            entities,
            t,
            from,
        ),
        refs(repointed(entities, members, t, to), t, to) == refs(entities, t, to) + members.len(),
        forall|s: ShelfRef|
            s != from && s != to ==> #[trigger] refs(repointed(entities, members, t, to), t, s)
                == refs(entities, t, s),
    decreases members.len(),
{
    let after = repointed(entities, members, t, to);
    if members.len() == 0 {
        assert(after =~= entities);
    } else {
        let last = members.last();
        let rest = members.drop_last();
        let before = repointed(entities, rest, t, to);
        assert forall|k: int| 0 <= k < rest.len() implies (#[trigger] rest[k]) < entities.len()
            && points_to(entities[rest[k] as int], t, from) by {
            assert(rest[k] == members[k]);
        }
        lemma_refs_repointed(entities, rest, t, from, to);
        assert(!rest.contains(last)) by {
            if rest.contains(last) {
                let k = choose|k: int| 0 <= k < rest.len() && rest[k] == last;
                assert(members[k] == members[members.len() - 1]);
            }
        }
        assert(before[last as int] == entities[last as int]);
        assert(after =~= before.update(last as int, entities[last as int].insert(t, to))) by {
            assert forall|e: int| 0 <= e < entities.len() implies after[e] == before.update(
                last as int,
                entities[last as int].insert(t, to),
            )[e] by {
                if e == last {
                    assert(members[members.len() - 1] == last);
                } else if members.contains(e as usize) {
                    let k = choose|k: int| 0 <= k < members.len() && members[k] == e as usize;
                    assert(k != members.len() - 1);
                    assert(rest[k] == e as usize);
                } else if rest.contains(e as usize) {
                    let k = choose|k: int| 0 <= k < rest.len() && rest[k] == e as usize;
                    assert(members[k] == e as usize);
                }
            }
        }
        assert(points_to(entities[members[members.len() - 1] as int], t, from));
        lemma_refs_update(before, last as int, entities[last as int].insert(t, to), t, from);
        lemma_refs_update(before, last as int, entities[last as int].insert(t, to), t, to);
        assert forall|s: ShelfRef| s != from && s != to implies #[trigger] refs(after, t, s)
            == refs(entities, t, s) by {
            lemma_refs_update(before, last as int, entities[last as int].insert(t, to), t, s);
        }
    }
}

} // verus!
