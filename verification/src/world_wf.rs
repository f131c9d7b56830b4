//! Why every operation keeps the store well formed.

use crate::com::{Component, TypeIdNum};
use crate::cupboard::ShelfRef;
use crate::lentity::{GroupedLentity, Lentity};
use crate::world::{
    bucket_for, disjoint, group_by, in_bucket, lemma_refs_agree, lemma_refs_at_least,
    lemma_refs_at_most, lemma_refs_bound, lemma_refs_none, lemma_refs_push, lemma_refs_repointed,
    lemma_refs_update, points_to, refs, slot, World,
};
use crate::world_groups::{
    lemma_bucket_for, lemma_group_by, lemma_matching_contains, lemma_matching_no_duplicates,
};
use vstd::prelude::*;

verus! {

impl<T: Component> World<T> {
    /// A store is well formed if it comes from a well-formed one by a change
    /// to the cupboard of one type `t` and to what the records hold for `t`,
    /// such that the new cupboard is well formed, the records point into it,
    /// and every shelf of it counts the records that point to it.
    pub proof fn lemma_wf_after(self, after: World<T>, t: TypeIdNum)
        requires
            self.wf(),
            after.cupboards.contains_key(t),
            after.cupboards == self.cupboards.insert(t, after.cupboards[t]),
            after.cupboards[t].wf(),
            forall|s: int|
                0 <= s < after.cupboards[t].shelves.len() ==> (
                #[trigger] after.cupboards[t].shelves[s]).wf(),
            after.entities.len() == self.entities.len(),
            forall|e: int, u: TypeIdNum|
                0 <= e < self.entities.len() && u != t ==> #[trigger] slot(after.entities[e], u)
                    == slot(self.entities[e], u),
            forall|e: int|
                0 <= e < after.entities.len() && (#[trigger] after.entities[e]).contains_key(t)
                    ==> after.entities[e][t] < after.cupboards[t].shelves.len(),
            forall|s: ShelfRef|
                s < after.cupboards[t].shelves.len() ==> after.cupboards[t].shelves[s as int].share_count()
                    == #[trigger] refs(after.entities, t, s),
            after.archetypes == self.archetypes,
            after.groups == self.groups,
        ensures
            after.wf(),
    {
        assert(after.cupboards.dom() =~= self.cupboards.dom().insert(t));
        assert forall|e: int, u: TypeIdNum|
            0 <= e < after.entities.len() && (#[trigger] after.entities[e].contains_key(
                u,
            )) implies after.cupboards.contains_key(u) && after.entities[e][u]
            < after.cupboards[u].shelves.len() by {
            if u != t {
                assert(slot(after.entities[e], u) == slot(self.entities[e], u));
                assert(self.entities[e].contains_key(u));
            }
        }
        assert forall|u: TypeIdNum, s: ShelfRef|
            after.cupboards.contains_key(u) && s < after.cupboards[u].shelves.len()
                implies after.cupboards[u].shelves[s as int].share_count() == #[trigger] refs(
                after.entities,
                u,
                s,
            ) by {
            if u != t {
                assert forall|e: int| 0 <= e < after.entities.len() implies points_to(
                    #[trigger] after.entities[e],
                    u,
                    s,
                ) == points_to(self.entities[e], u, s) by {
                    assert(slot(after.entities[e], u) == slot(self.entities[e], u));
                }
                lemma_refs_agree(after.entities, self.entities, u, s);
            }
        }
    }

    /// Creating an entity keeps the store well formed.
    pub proof fn lemma_create_entity_wf(self)
        requires
            self.wf(),
            self.entities.len() < u32::MAX,
        ensures
            self.create_entity().wf(),
    {
        let after = self.create_entity();
        assert forall|t: TypeIdNum, s: ShelfRef|
            after.cupboards.contains_key(t) && s < after.cupboards[t].shelves.len()
                implies after.cupboards[t].shelves[s as int].share_count() == #[trigger] refs(
                after.entities,
                t,
                s,
            ) by {
            lemma_refs_push(self.entities, Map::empty(), t, s);
        }
    }

    /// In a well-formed store, every shelf of a type has room for an entity
    /// without a component of that type.
    pub proof fn lemma_add_fits(self, e: Lentity, t: TypeIdNum)
        requires
            self.wf(),
            e < self.entities.len(),
            !self.has(e, t),
        ensures
            self.cupboard(t).wf(),
            forall|h: u64| self.cupboard(t).can_add(h),
    {
        let cupboard = self.cupboard(t);
        assert forall|h: u64| cupboard.can_add(h) by {
            if cupboard.index.contains_key(h) {
                let s = cupboard.index[h];
                assert(self.cupboards.contains_key(t));
                assert(!points_to(self.entities[e as int], t, s));
                lemma_refs_bound(self.entities, t, s);
                assert(cupboard.shelves[s as int].share_count() == refs(self.entities, t, s));
            }
        }
    }

    /// The store stays well formed when an entity without a component of type
    /// `t` is counted in on a shelf of that type, an old one or a new one at
    /// the end, and its record is pointed there.
    pub proof fn lemma_landed_wf(self, after: World<T>, e: Lentity, t: TypeIdNum, target: ShelfRef)
        requires
            self.wf(),
            e < self.entities.len(),
            !self.has(e, t),
            after.cupboards.contains_key(t),
            after.cupboards == self.cupboards.insert(t, after.cupboards[t]),
            after.cupboards[t].wf(),
            target < after.cupboards[t].shelves.len(),
            after.cupboards[t].shelves[target as int].wf(),
            target < self.cupboard(t).shelves.len() ==> after.cupboards[t].shelves == self.cupboard(
                t,
            ).shelves.update(target as int, after.cupboards[t].shelves[target as int])
                && after.cupboards[t].shelves[target as int].share_count() == self.cupboard(
                t,
            ).shelves[target as int].share_count() + 1,
            target >= self.cupboard(t).shelves.len() ==> after.cupboards[t].shelves
                == self.cupboard(t).shelves.push(after.cupboards[t].shelves[target as int])
                && after.cupboards[t].shelves[target as int].share_count() == 1,
            after.entities == self.entities.update(
                e as int,
                self.entities[e as int].insert(t, target),
            ),
            after.archetypes == self.archetypes,
            after.groups == self.groups,
        ensures
            after.wf(),
    {
        let before = self.cupboard(t);
        let record = self.entities[e as int].insert(t, target);
        assert forall|s: int| 0 <= s < after.cupboards[t].shelves.len() implies (
        #[trigger] after.cupboards[t].shelves[s]).wf() by {
            if s != target {
                assert(after.cupboards[t].shelves[s] == before.shelves[s]);
                assert(self.cupboards.contains_key(t));
            }
        }
        assert forall|s: ShelfRef|
            s < after.cupboards[t].shelves.len() implies after.cupboards[t].shelves[s as int].share_count()
            == #[trigger] refs(after.entities, t, s) by {
            lemma_refs_update(self.entities, e as int, record, t, s);
            if s < before.shelves.len() {
                assert(self.cupboards.contains_key(t));
                assert(before.shelves[s as int].share_count() == refs(self.entities, t, s));
            } else {
                assert forall|x: int| 0 <= x < self.entities.len() implies !points_to(
                    #[trigger] self.entities[x],
                    t,
                    s,
                ) by {
                    if self.entities[x].contains_key(t) {
                        assert(self.cupboards.contains_key(t));
                    }
                }
                lemma_refs_none(self.entities, t, s);
            }
        }
        self.lemma_wf_after(after, t);
    }

    /// Giving up a component that is not checked out keeps the store well
    /// formed.
    pub proof fn lemma_without_wf(self, e: Lentity, t: TypeIdNum)
        requires
            self.wf(),
            !self.on_loan(e, t),
        ensures
            self.without(e, t).wf(),
            !self.without(e, t).has(e, t),
            self.without(e, t).entities.len() == self.entities.len(),
            self.settled() ==> self.without(e, t).settled(),
    {
        if self.has(e, t) {
            let after = self.without(e, t);
            let at = self.entities[e as int][t];
            let record = self.entities[e as int].remove(t);
            assert(self.cupboards.contains_key(t));
            assert(self.shelf(e, t).wf());
            assert(points_to(self.entities[e as int], t, at));
            lemma_refs_update(self.entities, e as int, record, t, at);
            assert(self.cupboards[t].shelves[at as int].share_count() == refs(self.entities, t, at));
            self.cupboards[t].lemma_same_value(at, self.shelf(e, t).released(1));
            assert forall|s: int| 0 <= s < after.cupboards[t].shelves.len() implies (
            #[trigger] after.cupboards[t].shelves[s]).wf() by {
                if s != at {
                    assert(after.cupboards[t].shelves[s] == self.cupboards[t].shelves[s]);
                }
            }
            assert forall|x: int, u: TypeIdNum|
                0 <= x < self.entities.len() && u != t implies #[trigger] slot(
                after.entities[x],
                u,
            ) == slot(self.entities[x], u) by {}
            assert forall|x: int|
                0 <= x < after.entities.len() && (#[trigger] after.entities[x]).contains_key(
                    t,
                ) implies after.entities[x][t] < after.cupboards[t].shelves.len() by {
                assert(self.entities[x].contains_key(t));
            }
            assert forall|s: ShelfRef|
                s < after.cupboards[t].shelves.len() implies after.cupboards[t].shelves[s as int].share_count()
                == #[trigger] refs(after.entities, t, s) by {
                lemma_refs_update(self.entities, e as int, record, t, s);
                assert(self.cupboards[t].shelves[s as int].share_count() == refs(
                    self.entities,
                    t,
                    s,
                ));
            }
            self.lemma_wf_after(after, t);
            if self.settled() {
                assert forall|u: TypeIdNum, s: int|
                    after.cupboards.contains_key(u) && 0 <= s
                        < after.cupboards[u].shelves.len() implies !(
                #[trigger] after.cupboards[u].shelves[s]).on_loan() by {
                    assert(!self.cupboards[u].shelves[s].on_loan());
                }
            }
        }
    }

    /// Adding a component keeps the store well formed, as long as the
    /// machine can index the shelves.
    pub proof fn lemma_add_component_wf(self, e: Lentity, value: T)
        requires
            self.wf(),
            e < self.entities.len(),
            !self.on_loan(e, value.type_spec()),
            self.without(e, value.type_spec()).cupboard(value.type_spec()).add(
                value,
                value.hash_spec(),
            ).shelves.len() <= usize::MAX,
        ensures
            self.add_component(e, value).wf(),
    {
        let t = value.type_spec();
        let hash = value.hash_spec();
        let after = self.add_component(e, value);
        let base = self.without(e, t);
        self.lemma_without_wf(e, t);
        base.lemma_add_fits(e, t);
        base.cupboard(t).lemma_add_wf(value);
        assert(base.cupboard(t).can_add(hash));
        if base.cupboard(t).index.contains_key(hash) {
            assert(base.cupboards[t].shelves[base.cupboard(t).index[hash] as int].wf());
        }
        base.lemma_landed_wf(after, e, t, base.cupboard(t).target(hash));
    }

    /// Adding a component that the caller keeps keeps the store well formed,
    /// as long as the machine can index the shelves.
    pub proof fn lemma_add_component_ref_wf(self, e: Lentity, value: T, copy: T)
        requires
            self.wf(),
            e < self.entities.len(),
            !self.on_loan(e, value.type_spec()),
            self.without(e, value.type_spec()).cupboard(value.type_spec()).add_ref(
                copy,
                value.hash_spec(),
            ).shelves.len() <= usize::MAX,
        ensures
            self.add_component_ref(e, value, copy).wf(),
    {
        let t = value.type_spec();
        let hash = value.hash_spec();
        let base = self.without(e, t);
        self.lemma_without_wf(e, t);
        let cupboard = base.cupboard(t);
        let after = self.add_component_ref(e, value, copy);
        let target = cupboard.target_ref(copy, hash);
        base.lemma_add_fits(e, t);
        cupboard.lemma_add_ref_wf(copy, hash);
        assert(cupboard.can_add(hash) && cupboard.can_add(copy.hash_spec()));
        if target < cupboard.shelves.len() {
            assert(base.cupboards[t].shelves[target as int].wf());
        }
        base.lemma_landed_wf(after, e, t, target);
    }

    /// A store is well formed if it comes from a well-formed one by a change
    /// of the shelf of an entity for type `t` that keeps the shelf's count,
    /// and of the hash index of that type, such that the new cupboard is
    /// well formed.
    pub proof fn lemma_same_count_wf(self, after: World<T>, e: Lentity, t: TypeIdNum)
        requires
            self.wf(),
            self.has(e, t),
            after.cupboards == self.cupboards.insert(t, after.cupboards[t]),
            after.cupboards[t].wf(),
            after.cupboards[t].shelves == self.cupboards[t].shelves.update(
                self.entities[e as int][t] as int,
                after.shelf(e, t),
            ),
            after.shelf(e, t).wf(),
            after.shelf(e, t).share_count() == self.shelf(e, t).share_count(),
            after.entities == self.entities,
            after.archetypes == self.archetypes,
            after.groups == self.groups,
        ensures
            after.wf(),
    {
        let at = self.entities[e as int][t];
        assert(self.cupboards.contains_key(t));
        assert forall|s: int| 0 <= s < after.cupboards[t].shelves.len() implies (
        #[trigger] after.cupboards[t].shelves[s]).wf() by {
            if s != at {
                assert(after.cupboards[t].shelves[s] == self.cupboards[t].shelves[s]);
            }
        }
        assert forall|s: ShelfRef|
            s < after.cupboards[t].shelves.len() implies after.cupboards[t].shelves[s as int].share_count()
            == #[trigger] refs(after.entities, t, s) by {
            assert(self.cupboards[t].shelves[s as int].share_count() == refs(self.entities, t, s));
        }
        self.lemma_wf_after(after, t);
    }

    /// A checkout keeps the store well formed.
    pub proof fn lemma_checkout_wf(self, e: Lentity, t: TypeIdNum)
        requires
            self.wf(),
        ensures
            self.checkout(e, t).wf(),
    {
        if self.has(e, t) {
            assert(self.cupboards.contains_key(t));
            assert(self.shelf(e, t).wf());
            self.cupboards[t].lemma_checked_out_wf(self.entities[e as int][t]);
            self.lemma_same_count_wf(self.checkout(e, t), e, t);
        }
    }

    /// Giving a value back to the shelf that it was checked out of keeps the
    /// store well formed.
    pub proof fn lemma_give_back_wf(self, e: Lentity, value: T)
        requires
            self.wf(),
            self.on_loan(e, value.type_spec()),
        ensures
            self.give_back(e, value).wf(),
    {
        let t = value.type_spec();
        assert(self.cupboards.contains_key(t));
        assert(self.shelf(e, t).wf());
        self.cupboards[t].lemma_given_back_wf(self.entities[e as int][t], value);
        self.lemma_same_count_wf(self.give_back(e, value), e, t);
    }

    /// Sealing an entity that exists and was not sealed before keeps the
    /// store well formed.
    pub proof fn lemma_complete_entity_wf(self, e: Lentity)
        requires
            self.wf(),
            e < self.entities.len(),
            !self.is_sealed(e),
        ensures
            self.complete_entity(e).wf(),
    {
        let after = self.complete_entity(e);
        let sig = self.entities[e as int].dom();
        let at = bucket_for(self.archetypes, sig);
        lemma_bucket_for(self.archetypes, sig);
        assert forall|i: int, k: int|
            0 <= i < self.archetypes.len() && 0 <= k
                < self.archetypes[i].members.len() implies self.archetypes[i].members[k] != e by {
            if self.archetypes[i].members[k] == e {
                assert(in_bucket(self.archetypes, e, i));
            }
        }
        assert forall|i: int, k: int|
            0 <= i < after.archetypes.len() && 0 <= k < after.archetypes[i].members.len() implies (
        #[trigger] after.archetypes[i].members[k]) < after.entities.len() by {
            if i != at {
                assert(after.archetypes[i] == self.archetypes[i]);
            } else if at < self.archetypes.len() && k < self.archetypes[at].members.len() {
                assert(after.archetypes[i].members[k] == self.archetypes[at].members[k]);
            }
        }
        assert forall|i: int, k: int, j: int, l: int|
            0 <= i < after.archetypes.len() && 0 <= k < after.archetypes[i].members.len() && 0 <= j
                < after.archetypes.len() && 0 <= l < after.archetypes[j].members.len() && (i != j
                || k != l) implies (#[trigger] after.archetypes[i].members[k]) != (
        #[trigger] after.archetypes[j].members[l]) by {
            let new_i = i == at && (at >= self.archetypes.len() || k
                >= self.archetypes[at].members.len());
            let new_j = j == at && (at >= self.archetypes.len() || l
                >= self.archetypes[at].members.len());
            if !new_i {
                assert(after.archetypes[i].members[k] == self.archetypes[i].members[k]);
            }
            if !new_j {
                assert(after.archetypes[j].members[l] == self.archetypes[j].members[l]);
            }
        }
    }

    /// In a well-formed store, the sharers that leave a shared shelf
    /// together for another value are no more than the shelf counts, and the
    /// shelf that the value lands on is another one and can take them in.
    pub proof fn lemma_diverge_fits(self, e: Lentity, members: Seq<Lentity>, value: T)
        requires
            self.wf(),
            self.has(e, value.type_spec()),
            !self.stays(e, value),
            members.no_duplicates(),
            members.len() > 0,
            forall|k: int|
                0 <= k < members.len() ==> (#[trigger] members[k]) < self.entities.len() && slot(
                    self.entities[members[k] as int],
                    value.type_spec(),
                ) == slot(self.entities[e as int], value.type_spec()),
        ensures
            members.len() <= self.shelf(e, value.type_spec()).share_count(),
            ({
                let t = value.type_spec();
                let hash = value.hash_spec();
                let n = members.len() as u32;
                let at = self.entities[e as int][t];
                let left = self.cupboards[t].released(at, n);
                &&& left.wf()
                &&& left.can_add(hash)
                &&& left.target(hash) != at
                &&& left.target(hash) == self.cupboards[t].target(hash)
                &&& left.add(value, hash).shelves.len() <= usize::MAX ==> left.add(value, hash).wf()
                &&& left.add(value, hash).can_join(left.target(hash), (n - 1) as nat)
            }),
    {
        let t = value.type_spec();
        let hash = value.hash_spec();
        let at = self.entities[e as int][t];
        let cupboard = self.cupboards[t];
        assert(self.cupboards.contains_key(t));
        assert(cupboard.shelves[at as int].share_count() == refs(self.entities, t, at));
        lemma_refs_at_least(self.entities, members, t, at);
        lemma_refs_bound(self.entities, t, at);
        let n = members.len() as u32;
        let left = cupboard.released(at, n);
        let target = left.target(hash);
        cupboard.lemma_same_value(at, self.shelf(e, t).released(n));
        if cupboard.index.contains_key(hash) {
            assert(cupboard.shows(target, hash));
            assert(cupboard.shelves[target as int].share_count() == refs(self.entities, t, target));
            lemma_refs_at_most(self.entities, members, t, target);
        }
        if left.add(value, hash).shelves.len() <= usize::MAX {
            left.lemma_add_wf(value);
        }
    }

    /// Sharers that leave a shared shelf together for another value keep the
    /// store well formed, as long as the machine can index the shelves.
    pub proof fn lemma_diverge_wf(self, e: Lentity, members: Seq<Lentity>, value: T)
        requires
            self.wf(),
            self.has(e, value.type_spec()),
            !self.stays(e, value),
            members.no_duplicates(),
            members.len() > 0,
            forall|k: int|
                0 <= k < members.len() ==> (#[trigger] members[k]) < self.entities.len() && slot(
                    self.entities[members[k] as int],
                    value.type_spec(),
                ) == slot(self.entities[e as int], value.type_spec()),
            self.diverge(e, members, value).cupboards[value.type_spec()].shelves.len()
                <= usize::MAX,
        ensures
            self.diverge(e, members, value).wf(),
    {
        let t = value.type_spec();
        let hash = value.hash_spec();
        let at = self.entities[e as int][t];
        let cupboard = self.cupboards[t];
        let n = members.len() as u32;
        let left = cupboard.released(at, n);
        let target = left.target(hash);
        let after = self.diverge(e, members, value);
        let landed = after.cupboards[t];
        self.lemma_diverge_fits(e, members, value);
        assert(self.cupboards.contains_key(t));
        assert(cupboard.shelves[at as int].wf());
        left.add(value, hash).lemma_same_value(target, landed.shelves[target as int]);
        lemma_refs_repointed(self.entities, members, t, at, target);
        assert forall|s: int| 0 <= s < landed.shelves.len() implies (#[trigger] landed.shelves[s]).wf() by {
            if s != at && s != target {
                assert(landed.shelves[s] == cupboard.shelves[s]);
            } else if s == target && s < cupboard.shelves.len() {
                assert(cupboard.shelves[s].wf());
            }
        }
        assert forall|x: int, u: TypeIdNum| 0 <= x < self.entities.len() && u != t implies #[trigger] slot(
            after.entities[x],
            u,
        ) == slot(self.entities[x], u) by {}
        assert forall|x: int|
            0 <= x < after.entities.len() && (#[trigger] after.entities[x]).contains_key(
                t,
            ) implies after.entities[x][t] < landed.shelves.len() by {
            if !members.contains(x as usize) {
                assert(self.entities[x].contains_key(t));
            }
        }
        assert forall|s: ShelfRef|
            s < landed.shelves.len() implies landed.shelves[s as int].share_count() == #[trigger] refs(
            after.entities,
            t,
            s,
        ) by {
            if s < cupboard.shelves.len() {
                assert(cupboard.shelves[s as int].share_count() == refs(self.entities, t, s));
            } else {
                assert forall|x: int| 0 <= x < self.entities.len() implies !points_to(
                    #[trigger] self.entities[x],
                    t,
                    s,
                ) by {}
                lemma_refs_none(self.entities, t, s);
            }
        }
        self.lemma_wf_after(after, t);
    }

    /// What a query finds are entities of the store, each once.
    pub proof fn lemma_query(self, types: Seq<TypeIdNum>)
        requires
            self.wf(),
        ensures
            self.query(types).no_duplicates(),
            forall|k: int|
                0 <= k < self.query(types).len() ==> (#[trigger] self.query(types)[k])
                    < self.entities.len(),
    {
        let found = self.query(types);
        lemma_matching_no_duplicates(self.archetypes, types.to_set());
        assert forall|k: int| 0 <= k < found.len() implies (#[trigger] found[k])
            < self.entities.len() by {
            let e = found[k];
            assert(found.contains(e));
            lemma_matching_contains(self.archetypes, types.to_set(), e);
            let i = choose|i: int|
                #[trigger] in_bucket(self.archetypes, e, i) && types.to_set().subset_of(
                    self.archetypes[i].sig,
                );
            let at = choose|at: int|
                0 <= at < self.archetypes[i].members.len() && self.archetypes[i].members[at] == e;
            assert(self.archetypes[i].members[at] < self.entities.len());
        }
    }

    /// A grouped query keeps the store well formed.
    pub proof fn lemma_query_uniques_wf(self, types: Seq<TypeIdNum>)
        requires
            self.wf(),
        ensures
            self.query_uniques(types).wf(),
    {
        let found = self.query(types);
        let groups = group_by(self.entities, types, found);
        self.lemma_query(types);
        lemma_group_by(self.entities, types, found);
        assert forall|g: int| 0 <= g < groups.len() implies (#[trigger] groups[g]).len() > 0
            && groups[g].no_duplicates() by {
            assert forall|k: int, l: int|
                0 <= k < groups[g].len() && 0 <= l < groups[g].len() && k != l implies groups[g][k]
                != groups[g][l] by {}
        }
        assert(disjoint(groups));
        assert forall|g: int, k: int|
            0 <= g < groups.len() && 0 <= k < groups[g].len() implies (#[trigger] groups[g][k])
            < self.entities.len() by {
            assert(found.contains(groups[g][k]));
            let i = choose|i: int| 0 <= i < found.len() && found[i] == groups[g][k];
            assert(found[i] < self.entities.len());
        }
    }

    /// Adding leaves nothing on loan where nothing was.
    pub proof fn lemma_add_settled(self, e: Lentity, value: T, copy: T)
        requires
            self.wf(),
            self.settled(),
            e < self.entities.len(),
        ensures
            self.create_entity().settled(),
            self.add_component(e, value).settled(),
            self.add_component_ref(e, value, copy).settled(),
    {
        if self.has(e, value.type_spec()) {
            assert(self.cupboards.contains_key(value.type_spec()));
        }
        self.lemma_without_wf(e, value.type_spec());
        self.without(e, value.type_spec()).lemma_lands_settled(e, value, copy);
    }

    /// Landing a value leaves nothing on loan where nothing was.
    proof fn lemma_lands_settled(self, e: Lentity, value: T, copy: T)
        requires
            self.wf(),
            self.settled(),
            e < self.entities.len(),
            !self.has(e, value.type_spec()),
        ensures
            self.add_component(e, value).settled(),
            self.add_component_ref(e, value, copy).settled(),
    {
        let t = value.type_spec();
        let hash = value.hash_spec();
        let cupboard = self.cupboard(t);
        let added = self.add_component(e, value);
        assert forall|u: TypeIdNum, s: int|
            added.cupboards.contains_key(u) && 0 <= s < added.cupboards[u].shelves.len() implies !(
        #[trigger] added.cupboards[u].shelves[s]).on_loan() by {
            if u != t {
                assert(!self.cupboards[u].shelves[s].on_loan());
            } else if s < cupboard.shelves.len() {
                assert(self.cupboards.contains_key(t));
                assert(!self.cupboards[t].shelves[s].on_loan());
                if cupboard.index.contains_key(hash) {
                    assert(cupboard.shows(cupboard.index[hash], hash));
                }
            }
        }
        let lent = self.add_component_ref(e, value, copy);
        let other = copy.hash_spec();
        assert forall|u: TypeIdNum, s: int|
            lent.cupboards.contains_key(u) && 0 <= s < lent.cupboards[u].shelves.len() implies !(
        #[trigger] lent.cupboards[u].shelves[s]).on_loan() by {
            if u != t {
                assert(!self.cupboards[u].shelves[s].on_loan());
            } else if s < cupboard.shelves.len() {
                assert(self.cupboards.contains_key(t));
                assert(!self.cupboards[t].shelves[s].on_loan());
                if cupboard.index.contains_key(hash) {
                    assert(cupboard.shows(cupboard.index[hash], hash));
                }
                if cupboard.index.contains_key(other) {
                    assert(cupboard.shows(cupboard.index[other], other));
                }
            }
        }
    }

    /// Where nothing is on loan, a checkout leaves nothing on loan but what
    /// was checked out.
    pub proof fn lemma_checkout_loans_one(self, e: Lentity, t: TypeIdNum)
        requires
            self.wf(),
            self.settled(),
            self.has(e, t),
        ensures
            self.checkout(e, t).loaned_only(e, t),
            self.checkout(e, t).on_loan(e, t),
    {
        let out = self.checkout(e, t);
        assert(self.cupboards.contains_key(t));
        assert forall|u: TypeIdNum, s: int|
            out.cupboards.contains_key(u) && 0 <= s < out.cupboards[u].shelves.len() && !(u == t
                && s == out.entities[e as int][t]) implies !(
        #[trigger] out.cupboards[u].shelves[s]).on_loan() by {
            assert(!self.cupboards[u].shelves[s].on_loan());
        }
    }

    /// Where nothing is on loan but the component that a commit is for,
    /// nothing is on loan after the commit.
    pub proof fn lemma_commit_settles(self, handle: GroupedLentity, value: T)
        requires
            self.wf(),
            self.loaned_only(handle.lentity(), value.type_spec()),
        ensures
            self.return_component(handle, value).settled(),
    {
        let e = handle.lentity();
        let t = value.type_spec();
        let hash = value.hash_spec();
        let at = self.entities[e as int][t];
        let cupboard = self.cupboards[t];
        let after = self.return_component(handle, value);
        assert(self.cupboards.contains_key(t));
        assert forall|u: TypeIdNum, s: int|
            after.cupboards.contains_key(u) && 0 <= s < after.cupboards[u].shelves.len() implies !(
        #[trigger] after.cupboards[u].shelves[s]).on_loan() by {
            if u != t {
                assert(!self.cupboards[u].shelves[s].on_loan());
            } else if self.stays(e, value) {
                if s != at {
                    assert(!self.cupboards[t].shelves[s].on_loan());
                }
            } else {
                let members = if handle is Group {
                    self.members(e)
                } else {
                    seq![e]
                };
                let n = members.len() as u32;
                let left = cupboard.released(at, n);
                let target = left.target(hash);
                if s != at && s != target {
                    assert(!self.cupboards[t].shelves[s].on_loan());
                } else if s == target && s < cupboard.shelves.len() {
                    assert(!cupboard.shelves[s].on_loan());
                    if cupboard.index.contains_key(hash) {
                        assert(cupboard.shows(cupboard.index[hash], hash));
                    }
                }
            }
        }
    }
}

} // verus!
