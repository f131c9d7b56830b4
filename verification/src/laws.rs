//! What holds of the store across its operations.

use crate::com::{Component, TypeIdNum};
use crate::cupboard::{Shelf, ShelfRef};
use crate::lentity::{GroupedLentity, Lentity};
use crate::utils::collision_free;
use crate::world::{
    bucket_for, disjoint, group_by, group_of, in_bucket, is_group_of, lemma_refs_at_least, refs,
    repointed, slot, World,
};
use crate::world_groups::{
    lemma_bucket_for, lemma_group_by, lemma_group_of, lemma_matching_contains,
    lemma_matching_no_duplicates, partitions,
};
use vstd::prelude::*;

verus! {

impl<T: Component> World<T> {
    /// Round trip: a component that was just added is checked out as the
    /// value that was added, and committing that value again leaves the
    /// store as it was after the component was added, whichever kind of
    /// handle the commit goes through. The component can be added unless
    /// one that it replaces is checked out, and it can be checked out unless
    /// it joined a shared shelf that is on loan.
    pub proof fn lemma_round_trip(self, handle: GroupedLentity, value: T)
        requires
            self.wf(),
            handle.lentity() < self.entities.len(),
            !self.on_loan(handle.lentity(), value.type_spec()),
            !self.add_component(handle.lentity(), value).on_loan(
                handle.lentity(),
                value.type_spec(),
            ),
        ensures
            ({
                let added = self.add_component(handle.lentity(), value);
                let out = added.checkout(handle.lentity(), value.type_spec());
                &&& added.shelf(handle.lentity(), value.type_spec()).hands_out(value)
                &&& out.on_loan(handle.lentity(), value.type_spec())
                &&& out.return_component(handle, value) == added
            }),
    {
        let e = handle.lentity();
        let t = value.type_spec();
        let hash = value.hash_spec();
        let added = self.add_component(e, value);
        let out = added.checkout(e, t);
        let back = out.return_component(handle, value);
        let base = self.without(e, t);
        self.lemma_without_wf(e, t);
        let at = base.cupboard(t).target(hash);
        let cupboard = base.cupboard(t);
        if cupboard.index.contains_key(hash) {
            assert(base.cupboards.contains_key(t));
            assert(cupboard.shows(at, hash));
        }
        assert(added.entities[e as int][t] == at);
        assert(added.cupboards[t].index.contains_key(hash) && added.cupboards[t].index[hash] == at);
        assert(out.cupboards[t].shelves[at as int] == added.shelf(e, t).checked_out());
        assert(out.stays(e, value));
        assert(back == out.give_back(e, value));
        assert(back.cupboards[t].shelves =~= added.cupboards[t].shelves);
        assert(back.cupboards[t].index =~= added.cupboards[t].index);
        assert(back.cupboards =~= added.cupboards);
        if added.indexes.contains_key(t) && added.shelf(e, t) is One {
            let key = value.index_spec();
            assert(back.indexes[t][key] =~= added.indexes[t][key]);
            assert(back.indexes[t] =~= added.indexes[t]);
        }
        assert(back.indexes =~= added.indexes);
    }

    /// Whether every sealed entity has the component types that it was
    /// sealed with: no entity got a component after it was sealed.
    pub open spec fn sealed_as_is(self) -> bool {
        forall|i: int, k: int|
            0 <= i < self.archetypes.len() && 0 <= k < self.archetypes[i].members.len()
                ==> self.entities[(#[trigger] self.archetypes[i].members[k]) as int].dom()
                == self.archetypes[i].sig
    }

    /// Archetype correctness: where no entity got a component after it was
    /// sealed, a query finds exactly the sealed entities whose component
    /// types include all the queried ones, each once.
    pub proof fn lemma_query_finds_supersets(self, types: Seq<TypeIdNum>)
        requires
            self.wf(),
            self.sealed_as_is(),
        ensures
            self.query(types).no_duplicates(),
            forall|e: Lentity|
                self.query(types).contains(e) <==> self.is_sealed(e) && types.to_set().subset_of(
                    self.entities[e as int].dom(),
                ),
    {
        lemma_matching_no_duplicates(self.archetypes, types.to_set());
        assert forall|e: Lentity|
            self.query(types).contains(e) <==> self.is_sealed(e) && types.to_set().subset_of(
                self.entities[e as int].dom(),
            ) by {
            lemma_matching_contains(self.archetypes, types.to_set(), e);
            if self.is_sealed(e) {
                let i = choose|i: int| in_bucket(self.archetypes, e, i);
                let k = choose|k: int|
                    0 <= k < self.archetypes[i].members.len() && self.archetypes[i].members[k]
                        == e;
                assert(self.entities[self.archetypes[i].members[k] as int].dom()
                    == self.archetypes[i].sig);
                if types.to_set().subset_of(self.entities[e as int].dom()) {
                    assert(in_bucket(self.archetypes, e, i) && types.to_set().subset_of(
                        self.archetypes[i].sig,
                    ));
                }
            }
            if self.query(types).contains(e) {
                let i = choose|i: int|
                    #[trigger] in_bucket(self.archetypes, e, i) && types.to_set().subset_of(
                        self.archetypes[i].sig,
                    );
                let k = choose|k: int|
                    0 <= k < self.archetypes[i].members.len() && self.archetypes[i].members[k]
                        == e;
                assert(self.entities[self.archetypes[i].members[k] as int].dom()
                    == self.archetypes[i].sig);
            }
        }
    }

    /// After an entity was sealed it is sealed, and the others are or are not
    /// as before.
    pub proof fn lemma_sealing_seals(self, e: Lentity)
        requires
            self.wf(),
            e < self.entities.len(),
            !self.is_sealed(e),
        ensures
            forall|x: Lentity| self.complete_entity(e).is_sealed(x) == (x == e || self.is_sealed(x)),
    {
        let sealed = self.complete_entity(e);
        let sig = self.entities[e as int].dom();
        let at = bucket_for(self.archetypes, sig);
        lemma_bucket_for(self.archetypes, sig);
        assert forall|i: int, k: int|
            0 <= i < self.archetypes.len() && 0 <= k
                < self.archetypes[i].members.len() implies self.archetypes[i].members[k] != e by {
            if self.archetypes[i].members[k] == e {
                assert(in_bucket(self.archetypes, e, i));
            }
        }
        assert forall|x: Lentity| sealed.is_sealed(x) == (x == e || self.is_sealed(x)) by {
            if x == e {
                if at < self.archetypes.len() {
                    assert(sealed.archetypes[at].members[self.archetypes[at].members.len() as int]
                        == e);
                } else {
                    assert(sealed.archetypes[at].members[0] == e);
                }
                assert(in_bucket(sealed.archetypes, e, at));
            } else {
                if self.is_sealed(x) {
                    let i = choose|i: int| in_bucket(self.archetypes, x, i);
                    let k = choose|k: int|
                        0 <= k < self.archetypes[i].members.len() && self.archetypes[i].members[k]
                            == x;
                    assert(sealed.archetypes[i].members[k] == x);
                    assert(in_bucket(sealed.archetypes, x, i));
                }
                if sealed.is_sealed(x) {
                    let i = choose|i: int| in_bucket(sealed.archetypes, x, i);
                    let k = choose|k: int|
                        0 <= k < sealed.archetypes[i].members.len()
                            && sealed.archetypes[i].members[k] == x;
                    if i != at {
                        assert(sealed.archetypes[i] == self.archetypes[i]);
                        assert(in_bucket(self.archetypes, x, i));
                    } else {
                        assert(at < self.archetypes.len() && k < self.archetypes[at].members.len());
                        assert(self.archetypes[at].members[k] == x);
                        assert(in_bucket(self.archetypes, x, i));
                    }
                }
            }
        }
    }

    /// Sealing an entity keeps every sealed entity as it was sealed.
    pub proof fn lemma_sealed_as_is_after_sealing(self, e: Lentity)
        requires
            self.wf(),
            self.sealed_as_is(),
            e < self.entities.len(),
            !self.is_sealed(e),
        ensures
            self.complete_entity(e).sealed_as_is(),
    {
        let sealed = self.complete_entity(e);
        let sig = self.entities[e as int].dom();
        let at = bucket_for(self.archetypes, sig);
        lemma_bucket_for(self.archetypes, sig);
        assert forall|i: int, k: int|
            0 <= i < self.archetypes.len() && 0 <= k
                < self.archetypes[i].members.len() implies self.archetypes[i].members[k] != e by {
            if self.archetypes[i].members[k] == e {
                assert(in_bucket(self.archetypes, e, i));
            }
        }
        assert forall|i: int, k: int|
            0 <= i < sealed.archetypes.len() && 0 <= k
                < sealed.archetypes[i].members.len() implies sealed.entities[(
        #[trigger] sealed.archetypes[i].members[k]) as int].dom() == sealed.archetypes[i].sig by {
            if i != at {
                assert(sealed.archetypes[i] == self.archetypes[i]);
                assert(self.entities[self.archetypes[i].members[k] as int].dom()
                    == self.archetypes[i].sig);
            } else if at < self.archetypes.len() && k < self.archetypes[at].members.len() {
                assert(sealed.archetypes[i].members[k] == self.archetypes[at].members[k]);
                assert(self.entities[self.archetypes[at].members[k] as int].dom()
                    == self.archetypes[at].sig);
            }
        }
    }

    /// Giving a component to an entity that is not sealed, or that has one
    /// of the same type already, keeps every sealed entity as it was sealed,
    /// and so does creating an entity.
    pub proof fn lemma_sealed_as_is(self, e: Lentity, value: T, copy: T)
        requires
            self.wf(),
            self.sealed_as_is(),
            e < self.entities.len(),
            !self.is_sealed(e) || self.has(e, value.type_spec()),
        ensures
            self.create_entity().sealed_as_is(),
            self.add_component(e, value).sealed_as_is(),
            self.add_component_ref(e, value, copy).sealed_as_is(),
    {
        let added = self.add_component(e, value);
        let lent = self.add_component_ref(e, value, copy);
        assert forall|i: int, k: int|
            0 <= i < self.archetypes.len() && 0 <= k < self.archetypes[i].members.len()
                && !self.has(e, value.type_spec()) implies self.archetypes[i].members[k] != e by {
            if self.archetypes[i].members[k] == e {
                assert(in_bucket(self.archetypes, e, i));
            }
        }
        if self.has(e, value.type_spec()) {
            assert(added.entities[e as int].dom() =~= self.entities[e as int].dom());
            assert(lent.entities[e as int].dom() =~= self.entities[e as int].dom());
        }
        assert forall|i: int, k: int|
            0 <= i < added.archetypes.len() && 0 <= k
                < added.archetypes[i].members.len() implies added.entities[(
        #[trigger] added.archetypes[i].members[k]) as int].dom() == added.archetypes[i].sig by {
            assert(self.entities[self.archetypes[i].members[k] as int].dom()
                == self.archetypes[i].sig);
        }
        assert forall|i: int, k: int|
            0 <= i < lent.archetypes.len() && 0 <= k
                < lent.archetypes[i].members.len() implies lent.entities[(
        #[trigger] lent.archetypes[i].members[k]) as int].dom() == lent.archetypes[i].sig by {
            assert(self.entities[self.archetypes[i].members[k] as int].dom()
                == self.archetypes[i].sig);
        }
        let created = self.create_entity();
        assert forall|i: int, k: int|
            0 <= i < created.archetypes.len() && 0 <= k
                < created.archetypes[i].members.len() implies created.entities[(
        #[trigger] created.archetypes[i].members[k]) as int].dom()
            == created.archetypes[i].sig by {
            assert(self.entities[self.archetypes[i].members[k] as int].dom()
                == self.archetypes[i].sig);
        }
    }

    /// Grouping: a grouped query partitions what the query finds by the
    /// shelves that the entities have for the queried types. There is one
    /// handle per group, no two groups have the same shelves, every entity
    /// that the query finds is in one group, once, and every member of a
    /// group has the shelves of the group's representative.
    pub proof fn lemma_one_group_per_key(self, types: Seq<TypeIdNum>)
        requires
            self.wf(),
        ensures
            self.query_uniques(types).handles().len() == self.query_uniques(types).groups.len(),
            partitions(
                self.entities,
                types,
                self.query_uniques(types).groups,
                self.query(types),
            ),
            disjoint(self.query_uniques(types).groups),
            forall|g: int|
                0 <= g < self.query_uniques(types).groups.len() ==> self.query_uniques(
                    types,
                ).represents((#[trigger] self.query_uniques(types).groups[g])[0]),
            forall|g: int, i: int|
                0 <= g < self.query_uniques(types).groups.len() && 0 <= i < types.len()
                    ==> self.query_uniques(types).coherent(
                    (#[trigger] self.query_uniques(types).groups[g])[0],
                    #[trigger] types[i],
                ),
    {
        let grouped = self.query_uniques(types);
        let groups = grouped.groups;
        lemma_matching_no_duplicates(self.archetypes, types.to_set());
        lemma_group_by(self.entities, types, self.query(types));
        self.lemma_query_uniques_wf(types);
        assert(groups == group_by(self.entities, types, self.query(types)));
        assert forall|g: int| 0 <= g < groups.len() implies grouped.represents(
            (#[trigger] groups[g])[0],
        ) by {
            lemma_represents(groups, g);
        }
        assert forall|g: int, i: int|
            0 <= g < groups.len() && 0 <= i < types.len() implies grouped.coherent(
            (#[trigger] groups[g])[0],
            #[trigger] types[i],
        ) by {
            let rep = groups[g][0];
            lemma_represents(groups, g);
            assert(grouped.members(rep) == groups[g]);
            assert forall|k: int| 0 <= k < grouped.members(rep).len() implies slot(
                grouped.entities[(#[trigger] grouped.members(rep)[k]) as int],
                types[i],
            ) == slot(grouped.entities[rep as int], types[i]) by {
                assert(crate::world::same_key(self.entities, types, groups[g][0], groups[g][k]));
            }
        }
    }
}

impl<T: Component> World<T> {
    /// A commit keeps the groups together. After a commit through the handle
    /// of a group, every group whose members had one shelf of a type still
    /// has one shelf of that type. After a commit for a single entity, this
    /// holds of the types other than the committed one, and of the groups
    /// that the entity is not in.
    pub proof fn lemma_commit_keeps_groups(
        self,
        handle: GroupedLentity,
        value: T,
        rep: Lentity,
        t: TypeIdNum,
    )
        requires
            self.wf(),
            self.has(handle.lentity(), value.type_spec()),
            !self.stays(handle.lentity(), value) && handle is Group ==> self.represents(
                handle.lentity(),
            ) && self.coherent(handle.lentity(), value.type_spec()),
            self.represents(rep),
            self.coherent(rep, t),
            handle is Single ==> t != value.type_spec() || !self.members(rep).contains(
                handle.lentity(),
            ),
        ensures
            self.return_component(handle, value).groups == self.groups,
            self.return_component(handle, value).coherent(rep, t),
    {
        let e = handle.lentity();
        let after = self.return_component(handle, value);
        let members = self.members(rep);
        lemma_group_of(self.groups, rep);
        lemma_group_of(self.groups, e);
        let g = group_of(self.groups, rep);
        assert(members[0] == rep);
        assert forall|k: int| 0 <= k < after.members(rep).len() implies slot(
            after.entities[(#[trigger] after.members(rep)[k]) as int],
            t,
        ) == slot(after.entities[rep as int], t) by {
            let m = members[k];
            assert(slot(self.entities[m as int], t) == slot(self.entities[rep as int], t));
            assert(self.groups[g][k] < self.entities.len());
            assert(self.groups[g][0] < self.entities.len());
            assert(members.contains(m));
            assert(members.contains(rep));
            if after.entities != self.entities {
                let moved = if handle is Group {
                    self.members(e)
                } else {
                    seq![e]
                };
                assert(after.entities == repointed(
                    self.entities,
                    moved,
                    value.type_spec(),
                    after.entities[e as int][value.type_spec()],
                ));
                if handle is Group {
                    let h = group_of(self.groups, e);
                    if g != h {
                        assert forall|x: Lentity| members.contains(x) implies !moved.contains(
                            x,
                        ) by {
                            if moved.contains(x) {
                                let i = choose|i: int| 0 <= i < members.len() && members[i] == x;
                                let j = choose|j: int| 0 <= j < moved.len() && moved[j] == x;
                                assert(self.groups[g][i] == self.groups[h][j]);
                            }
                        }
                    }
                } else {
                    assert forall|x: Lentity| moved.contains(x) implies x == e by {
                        let j = choose|j: int| 0 <= j < moved.len() && moved[j] == x;
                        assert(moved[j] == e);
                    }
                }
            }
        }
    }

    /// The store after `n` more entities were created, one after the other,
    /// each with `value` as its one component.
    pub open spec fn with_entities(self, value: T, n: nat) -> World<T>
        decreases n,
    {
        if n == 0 {
            self
        } else {
            let before = self.with_entities(value, (n - 1) as nat);
            before.create_entity().add_component(before.entities.len() as usize, value)
        }
    }

    /// Dedup: `n` new entities that are given the same value, of a hash
    /// that no shelf of the store shows yet, share one shelf. The cupboard
    /// of the value's type gets that one shelf and no other, the shelf shows
    /// the value and counts `n` sharers, it is a shared shelf as soon as
    /// there are two of them, and the hash index leads to it from the
    /// value's hash. What the store held before is as it was.
    pub proof fn lemma_same_value_one_shelf(self, value: T, n: nat)
        requires
            self.wf(),
            !self.cupboard(value.type_spec()).index.contains_key(value.hash_spec()),
            n >= 1,
            self.entities.len() + n <= u32::MAX,
            self.cupboard(value.type_spec()).shelves.len() < usize::MAX,
        ensures
            ({
                let filled = self.with_entities(value, n);
                let t = value.type_spec();
                let first = self.entities.len();
                let at = self.cupboard(t).shelves.len();
                &&& filled.wf()
                &&& filled.entities.len() == first + n
                &&& filled.cupboards.contains_key(t)
                &&& filled.cupboards[t].shelves.len() == at + 1
                &&& filled.cupboards[t].shelves.take(at as int) == self.cupboard(t).shelves
                &&& filled.cupboards[t].shelves[at as int].share_count() == n
                &&& filled.cupboards[t].shelves[at as int].value() == Some(value)
                &&& filled.cupboards[t].shelves[at as int] is Many == (n >= 2)
                &&& !filled.cupboards[t].shelves[at as int].on_loan()
                &&& filled.cupboards[t].index == self.cupboard(t).index.insert(
                    value.hash_spec(),
                    at as usize,
                )
                &&& filled.entities.take(first as int) == self.entities
                &&& forall|e: int|
                    first <= e < first + n ==> #[trigger] filled.entities[e] == Map::<
                        TypeIdNum,
                        ShelfRef,
                    >::empty().insert(t, at as usize)
            }),
        decreases n,
    {
        let t = value.type_spec();
        let hash = value.hash_spec();
        let first = self.entities.len();
        let at = self.cupboard(t).shelves.len();
        let filled = self.with_entities(value, n);
        if n == 1 {
            assert(self.with_entities(value, 0) == self);
            let made = self.create_entity();
            self.lemma_create_entity_wf();
            assert(made.without(first as usize, t) == made);
            made.lemma_add_component_wf(first as usize, value);
            assert(filled == made.add_component(first as usize, value));
            assert(filled.cupboards[t].shelves.take(at as int) =~= self.cupboard(t).shelves);
            assert(filled.entities.take(first as int) =~= self.entities);
            assert(filled.entities[first as int] =~= Map::<TypeIdNum, ShelfRef>::empty().insert(
                t,
                at as usize,
            ));
        } else {
            self.lemma_same_value_one_shelf(value, (n - 1) as nat);
            let before = self.with_entities(value, (n - 1) as nat);
            let made = before.create_entity();
            let e = before.entities.len() as usize;
            before.lemma_create_entity_wf();
            assert(made.cupboards[t].index.contains_key(hash));
            assert(made.without(e, t) == made);
            made.lemma_add_component_wf(e, value);
            assert(filled == made.add_component(e, value));
            assert(filled.cupboards[t].shelves.len() == at + 1);
            assert(filled.cupboards[t].shelves.take(at as int) =~= self.cupboard(t).shelves) by {
                assert forall|s: int| 0 <= s < at implies filled.cupboards[t].shelves[s]
                    == self.cupboard(t).shelves[s] by {
                    assert(before.cupboards[t].shelves.take(at as int)[s]
                        == before.cupboards[t].shelves[s]);
                }
            }
            assert(filled.cupboards[t].index =~= self.cupboard(t).index.insert(hash, at as usize));
            assert(filled.entities.take(first as int) =~= self.entities) by {
                assert forall|x: int| 0 <= x < first implies filled.entities[x]
                    == self.entities[x] by {
                    assert(before.entities.take(first as int)[x] == before.entities[x]);
                }
            }
            assert forall|x: int| first <= x < first + n implies #[trigger] filled.entities[x]
                == Map::<TypeIdNum, ShelfRef>::empty().insert(t, at as usize) by {
                if x < first + n - 1 {
                    assert(filled.entities[x] == before.entities[x]);
                } else {
                    assert(filled.entities[x] =~= Map::<TypeIdNum, ShelfRef>::empty().insert(
                        t,
                        at as usize,
                    ));
                }
            }
        }
    }

    /// Divergence: when one of `n` entities that share a value commits a
    /// value of the same type with another hash, which no shelf shows yet,
    /// there is one shelf more. The shelf that was shared still shows the
    /// shared value, counts `n - 1` sharers, and is exclusive if one is
    /// left. The new shelf is exclusive, holds the committed value, and
    /// backs the entity that committed it; the other entities stay where
    /// they were.
    pub proof fn lemma_divergence_splits_shelf(self, value: T, n: nat, e: Lentity, other: T)
        requires
            self.wf(),
            !self.cupboard(value.type_spec()).index.contains_key(value.hash_spec()),
            !self.cupboard(value.type_spec()).index.contains_key(other.hash_spec()),
            n >= 2,
            self.entities.len() + n <= u32::MAX,
            self.cupboard(value.type_spec()).shelves.len() + 1 < usize::MAX,
            self.entities.len() <= e < self.entities.len() + n,
            other.type_spec() == value.type_spec(),
            other.hash_spec() != value.hash_spec(),
        ensures
            ({
                let t = value.type_spec();
                let at = self.cupboard(t).shelves.len();
                let split = self.with_entities(value, n).checkout(e, t).return_component(
                    GroupedLentity::Single(e),
                    other,
                );
                &&& split.wf()
                &&& split.cupboards[t].shelves.len() == at + 2
                &&& split.cupboards[t].shelves[at as int].share_count() == n - 1
                &&& split.cupboards[t].shelves[at as int].value() == Some(value)
                &&& split.cupboards[t].shelves[at as int] is One == (n == 2)
                &&& split.cupboards[t].shelves[at as int + 1] == Shelf::One { data: Some(other) }
                &&& forall|x: int|
                    self.entities.len() <= x < self.entities.len() + n ==> (
                    #[trigger] split.entities[x])[t] == if x == e {
                        (at + 1) as usize
                    } else {
                        at as usize
                    }
            }),
    {
        let t = value.type_spec();
        let at = self.cupboard(t).shelves.len() as usize;
        let first = self.entities.len();
        let filled = self.with_entities(value, n);
        self.lemma_same_value_one_shelf(value, n);
        assert(filled.entities[e as int] == Map::<TypeIdNum, ShelfRef>::empty().insert(t, at));
        assert(filled.has(e, t));
        let out = filled.checkout(e, t);
        filled.lemma_checkout_wf(e, t);
        assert(out.cupboards[t].shelves[at as int] == filled.shelf(e, t).checked_out());
        assert(!out.stays(e, other));
        let members = seq![e];
        let split = out.diverge(e, members, other);
        assert(split == out.return_component(GroupedLentity::Single(e), other));
        assert(split.cupboards[t].shelves.len() == at + 2);
        out.lemma_diverge_wf(e, members, other);
        assert forall|x: int| first <= x < first + n implies (#[trigger] split.entities[x])[t]
            == if x == e {
            (at + 1) as usize
        } else {
            at
        } by {
            assert(filled.entities[x] == Map::<TypeIdNum, ShelfRef>::empty().insert(t, at));
            if x != e {
                assert(!members.contains(x as usize)) by {
                    if members.contains(x as usize) {
                        let k = choose|k: int| 0 <= k < members.len() && members[k] == x as usize;
                        assert(members[k] == e);
                    }
                }
            } else {
                assert(members[0] == e);
            }
        }
    }

    /// After a commit, the entity that the value was committed for reads it,
    /// and so does every member of the group, where the commit went through
    /// the handle of a group: they read a value of the committed value's
    /// hash, which is the committed value itself where no two values have one
    /// hash.
    pub proof fn lemma_commit_is_read(self, handle: GroupedLentity, value: T)
        requires
            self.wf(),
            self.on_loan(handle.lentity(), value.type_spec()),
            handle is Group ==> self.represents(handle.lentity()) && self.coherent(
                handle.lentity(),
                value.type_spec(),
            ),
        ensures
            self.return_component(handle, value).reads(handle.lentity(), value),
            handle is Group ==> forall|k: int|
                0 <= k < self.members(handle.lentity()).len() ==> self.return_component(
                    handle,
                    value,
                ).reads(#[trigger] self.members(handle.lentity())[k], value),
    {
        let e = handle.lentity();
        let t = value.type_spec();
        let hash = value.hash_spec();
        let after = self.return_component(handle, value);
        let at = self.entities[e as int][t];
        let cupboard = self.cupboards[t];
        assert(self.cupboards.contains_key(t));
        let moved = if handle is Group {
            self.members(e)
        } else {
            seq![e]
        };
        if handle is Group {
            lemma_group_of(self.groups, e);
            assert(moved[0] == e);
            assert forall|k: int| 0 <= k < moved.len() implies (#[trigger] moved[k])
                < self.entities.len() && slot(self.entities[moved[k] as int], t) == slot(
                self.entities[e as int],
                t,
            ) by {
                assert(self.groups[group_of(self.groups, e)][k] < self.entities.len());
            }
        }
        assert(moved.contains(e)) by {
            assert(moved[0] == e);
        }
        if self.stays(e, value) {
            if self.shelf(e, t) is Many {
                assert(cupboard.shows(at, hash));
            }
            assert forall|k: int| 0 <= k < moved.len() implies after.reads(
                #[trigger] moved[k],
                value,
            ) by {
                assert(after.entities[moved[k] as int][t] == at);
                Self::lemma_hash_tells(after.peek(moved[k], t).unwrap(), value);
            }
        } else {
            let n = moved.len() as u32;
            let left = cupboard.released(at, n);
            let target = left.target(hash);
            self.lemma_diverge_fits(e, moved, value);
            left.lemma_add_wf(value);
            assert(left.add(value, hash).shows(target, hash));
            assert forall|k: int| 0 <= k < moved.len() implies after.reads(
                #[trigger] moved[k],
                value,
            ) by {
                assert(moved.contains(moved[k]));
                assert(after.entities[moved[k] as int][t] == target);
                Self::lemma_hash_tells(after.peek(moved[k], t).unwrap(), value);
            }
        }
        assert(after.reads(moved[0], value));
    }

    /// A commit changes what no other entity reads. An entity that the value
    /// was not committed for, which is any but the entity of a single
    /// handle and any but the members of the group of a group handle, reads
    /// after the commit what it read before, of every type, also where it
    /// shared the shelf that the commit was made on.
    pub proof fn lemma_commit_spares_others(
        self,
        handle: GroupedLentity,
        value: T,
        x: Lentity,
        u: TypeIdNum,
    )
        requires
            self.wf(),
            self.on_loan(handle.lentity(), value.type_spec()),
            handle is Group ==> self.represents(handle.lentity()) && self.coherent(
                handle.lentity(),
                value.type_spec(),
            ),
            x < self.entities.len(),
            handle is Single ==> x != handle.lentity(),
            handle is Group ==> !self.members(handle.lentity()).contains(x),
        ensures
            self.return_component(handle, value).peek(x, u) == self.peek(x, u),
    {
        let e = handle.lentity();
        let t = value.type_spec();
        let hash = value.hash_spec();
        let after = self.return_component(handle, value);
        let at = self.entities[e as int][t];
        let cupboard = self.cupboards[t];
        assert(self.cupboards.contains_key(t));
        let moved = if handle is Group {
            self.members(e)
        } else {
            seq![e]
        };
        if handle is Group {
            lemma_group_of(self.groups, e);
            assert(moved[0] == e);
            assert(moved.contains(e));
            assert forall|k: int| 0 <= k < moved.len() implies (#[trigger] moved[k])
                < self.entities.len() && slot(self.entities[moved[k] as int], t) == slot(
                self.entities[e as int],
                t,
            ) by {
                assert(self.groups[group_of(self.groups, e)][k] < self.entities.len());
            }
        }
        assert(x != e);
        assert(!moved.contains(x)) by {
            if moved.contains(x) {
                let k = choose|k: int| 0 <= k < moved.len() && moved[k] == x;
                assert(moved[k] == e);
            }
        }
        assert(after.entities[x as int] == self.entities[x as int]);
        if self.has(x, u) {
            assert(self.cupboards.contains_key(u));
            let s = self.entities[x as int][u];
            assert(self.cupboards[u].shelves[s as int].share_count() == refs(self.entities, u, s));
            lemma_refs_at_least(self.entities, seq![x], u, s);
            if u == t {
                if s == at {
                    lemma_refs_at_least(self.entities, seq![e, x], t, at);
                    assert(self.shelf(e, t) is Many);
                }
                if !self.stays(e, value) {
                    self.lemma_diverge_fits(e, moved, value);
                }
            }
        }
    }

    /// Where no two values have one hash, a value is known by its hash.
    pub proof fn lemma_hash_tells(a: T, b: T)
        requires
            a.hash_spec() == b.hash_spec(),
        ensures
            collision_free::<T>() ==> a == b,
    {
    }

    /// Grouped update: after a checkout and a commit through the handle of a
    /// group, every member of the group reads the committed value.
    pub proof fn lemma_group_reads_commit(self, rep: Lentity, value: T)
        requires
            self.wf(),
            self.represents(rep),
            self.has(rep, value.type_spec()),
            self.coherent(rep, value.type_spec()),
            !self.on_loan(rep, value.type_spec()),
        ensures
            forall|k: int|
                0 <= k < self.members(rep).len() ==> self.checkout(
                    rep,
                    value.type_spec(),
                ).return_component(GroupedLentity::Group(rep), value).reads(
                    #[trigger] self.members(rep)[k],
                    value,
                ),
    {
        let t = value.type_spec();
        let out = self.checkout(rep, t);
        self.lemma_checkout_wf(rep, t);
        assert(self.cupboards.contains_key(t));
        assert(out.members(rep) == self.members(rep));
        assert(out.coherent(rep, t));
        out.lemma_commit_is_read(GroupedLentity::Group(rep), value);
    }
}

/// Where no entity is in two groups, the first member of a group represents
/// that group and no other.
pub proof fn lemma_represents(groups: Seq<Seq<Lentity>>, g: int)
    requires
        disjoint(groups),
        forall|h: int| 0 <= h < groups.len() ==> (#[trigger] groups[h]).len() > 0,
        0 <= g < groups.len(),
    ensures
        group_of(groups, groups[g][0]) == g,
{
    let rep = groups[g][0];
    assert forall|j: int| 0 <= j < g implies (#[trigger] groups[j])[0] != rep by {
        assert(groups[j][0] != groups[g][0]);
    }
    assert(is_group_of(groups, rep, g));
}

} // verus!
