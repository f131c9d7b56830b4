//! What grouping and querying guarantee.

use crate::com::TypeIdNum;
use crate::lentity::Lentity;
use crate::world::{
    bucket_for, disjoint, group_by, group_for, group_of, in_bucket, is_bucket_for, is_group_for,
    is_group_of, matching, place, same_key, Bucket, Record,
};
use vstd::prelude::*;

verus! {

/// There is a first group whose representative has the key of `e`, or none
/// has it.
pub proof fn lemma_group_for(
    entities: Seq<Record>,
    types: Seq<TypeIdNum>,
    groups: Seq<Seq<Lentity>>,
    e: Lentity,
)
    ensures
        is_group_for(entities, types, groups, e, group_for(entities, types, groups, e)),
    decreases groups.len(),
{
    if groups.len() == 0 {
        assert(is_group_for(entities, types, groups, e, 0));
    } else {
        let rest = groups.drop_last();
        lemma_group_for(entities, types, rest, e);
        let g = group_for(entities, types, rest, e);
        assert forall|j: int| 0 <= j < g implies !same_key(
            entities,
            types,
            (#[trigger] groups[j])[0],
            e,
        ) by {
            assert(rest[j] == groups[j]);
        }
        if g < rest.len() {
            assert(rest[g] == groups[g]);
            assert(is_group_for(entities, types, groups, e, g));
        } else if same_key(entities, types, groups[groups.len() - 1][0], e) {
            assert(is_group_for(entities, types, groups, e, groups.len() - 1));
        } else {
            assert(is_group_for(entities, types, groups, e, groups.len() as int));
        }
    }
}

/// There is a first group that `rep` represents, or none.
pub proof fn lemma_group_of(groups: Seq<Seq<Lentity>>, rep: Lentity)
    ensures
        is_group_of(groups, rep, group_of(groups, rep)),
    decreases groups.len(),
{
    if groups.len() == 0 {
        assert(is_group_of(groups, rep, 0));
    } else {
        let rest = groups.drop_last();
        lemma_group_of(rest, rep);
        let g = group_of(rest, rep);
        assert forall|j: int| 0 <= j < g implies (#[trigger] groups[j])[0] != rep by {
            assert(rest[j] == groups[j]);
        }
        if g < rest.len() {
            assert(rest[g] == groups[g]);
            assert(is_group_of(groups, rep, g));
        } else if groups[groups.len() - 1][0] == rep {
            assert(is_group_of(groups, rep, groups.len() - 1));
        } else {
            assert(is_group_of(groups, rep, groups.len() as int));
        }
    }
}

/// There is a first bucket with the type set `sig`, or none has it.
pub proof fn lemma_bucket_for(archetypes: Seq<Bucket>, sig: Set<TypeIdNum>)
    ensures
        is_bucket_for(archetypes, sig, bucket_for(archetypes, sig)),
    decreases archetypes.len(),
{
    if archetypes.len() == 0 {
        assert(is_bucket_for(archetypes, sig, 0));
    } else {
        let rest = archetypes.drop_last();
        lemma_bucket_for(rest, sig);
        let i = bucket_for(rest, sig);
        assert forall|j: int| 0 <= j < i implies (#[trigger] archetypes[j]).sig != sig by {
            assert(rest[j] == archetypes[j]);
        }
        if i < rest.len() {
            assert(rest[i] == archetypes[i]);
            assert(is_bucket_for(archetypes, sig, i));
        } else if archetypes[archetypes.len() - 1].sig == sig {
            assert(is_bucket_for(archetypes, sig, archetypes.len() - 1));
        } else {
            assert(is_bucket_for(archetypes, sig, archetypes.len() as int));
        }
    }
}

/// Whether the groups partition `list` by key: no group is empty, every
/// member comes from `list` and has the key of its representative, no two
/// representatives have the same key, and every entity of `list` is in a
/// group.
pub open spec fn partitions(
    entities: Seq<Record>,
    types: Seq<TypeIdNum>,
    groups: Seq<Seq<Lentity>>,
    list: Seq<Lentity>,
) -> bool {
    &&& forall|g: int| 0 <= g < groups.len() ==> (#[trigger] groups[g]).len() > 0
    &&& forall|g: int, k: int|
        0 <= g < groups.len() && 0 <= k < groups[g].len() ==> list.contains(
            #[trigger] groups[g][k],
        ) && same_key(entities, types, groups[g][0], groups[g][k])
    &&& forall|g: int, h: int|
        0 <= g < groups.len() && 0 <= h < groups.len() && g != h ==> !same_key(
            entities,
            types,
            (#[trigger] groups[g])[0],
            (#[trigger] groups[h])[0],
        )
    &&& forall|i: int|
        0 <= i < list.len() ==> exists|g: int|
            0 <= g < groups.len() && (#[trigger] groups[g]).contains(#[trigger] list[i])
}

/// Having the same key is symmetric and transitive.
pub proof fn lemma_same_key(
    entities: Seq<Record>,
    types: Seq<TypeIdNum>,
    a: Lentity,
    b: Lentity,
    c: Lentity,
)
    ensures
        same_key(entities, types, a, a),
        same_key(entities, types, a, b) ==> same_key(entities, types, b, a),
        same_key(entities, types, a, b) && same_key(entities, types, b, c) ==> same_key(
            entities,
            types,
            a,
            c,
        ),
{
}

/// Grouping partitions a list by key: there are as many groups as the list
/// has keys, each group holds the entities of one key, and an entity that
/// occurs once in the list occurs once in the groups.
pub proof fn lemma_group_by(entities: Seq<Record>, types: Seq<TypeIdNum>, list: Seq<Lentity>)
    ensures
        partitions(entities, types, group_by(entities, types, list), list),
        list.no_duplicates() ==> disjoint(group_by(entities, types, list)),
    decreases list.len(),
{
    let groups = group_by(entities, types, list);
    if list.len() > 0 {
        let rest = list.drop_last();
        let e = list.last();
        let before = group_by(entities, types, rest);
        lemma_group_by(entities, types, rest);
        lemma_group_for(entities, types, before, e);
        let at = group_for(entities, types, before, e);
        assert(groups == place(entities, types, before, e));
        assert(list[list.len() - 1] == e);
        assert forall|x: Lentity| rest.contains(x) implies list.contains(x) by {
            let i = choose|i: int| 0 <= i < rest.len() && rest[i] == x;
            assert(list[i] == x);
        }
        assert forall|g: int, k: int|
            0 <= g < groups.len() && 0 <= k < groups[g].len() implies list.contains(
            #[trigger] groups[g][k],
        ) && same_key(entities, types, groups[g][0], groups[g][k]) by {
            if g == at && k == groups[g].len() - 1 {
                assert(groups[g][k] == e);
                lemma_same_key(entities, types, e, e, e);
            } else {
                assert(groups[g][k] == before[g][k]);
                assert(groups[g][0] == before[g][0]);
                assert(rest.contains(before[g][k]));
            }
        }
        assert forall|g: int, h: int|
            0 <= g < groups.len() && 0 <= h < groups.len() && g != h implies !same_key(
            entities,
            types,
            (#[trigger] groups[g])[0],
            (#[trigger] groups[h])[0],
        ) by {
            if at < before.len() {
                assert(groups[g][0] == before[g][0]);
                assert(groups[h][0] == before[h][0]);
            } else {
                if g == at {
                    assert(groups[h][0] == before[h][0]);
                    lemma_same_key(entities, types, e, before[h][0], e);
                } else if h == at {
                    assert(groups[g][0] == before[g][0]);
                } else {
                    assert(groups[g][0] == before[g][0]);
                    assert(groups[h][0] == before[h][0]);
                }
            }
        }
        assert forall|i: int| 0 <= i < list.len() implies exists|g: int|
            0 <= g < groups.len() && (#[trigger] groups[g]).contains(#[trigger] list[i]) by {
            if i == list.len() - 1 {
                assert(groups[at][groups[at].len() - 1] == e);
                assert(groups[at].contains(list[i]));
            } else {
                assert(rest[i] == list[i]);
                let g = choose|g: int| 0 <= g < before.len() && (#[trigger] before[g]).contains(rest[i]);
                let k = choose|k: int| 0 <= k < before[g].len() && before[g][k] == rest[i];
                assert(groups[g][k] == list[i]);
                assert(groups[g].contains(list[i]));
            }
        }
        if list.no_duplicates() {
            assert(rest.no_duplicates());
            assert(!rest.contains(e)) by {
                if rest.contains(e) {
                    let i = choose|i: int| 0 <= i < rest.len() && rest[i] == e;
                    assert(list[i] == list[list.len() - 1]);
                }
            }
            assert forall|g: int, k: int, h: int, l: int|
                0 <= g < groups.len() && 0 <= k < groups[g].len() && 0 <= h < groups.len() && 0
                    <= l < groups[h].len() && (g != h || k != l) implies (
            #[trigger] groups[g][k]) != (#[trigger] groups[h][l]) by {
                let new_g = g == at && k == groups[g].len() - 1;
                let new_h = h == at && l == groups[h].len() - 1;
                if !new_g {
                    assert(groups[g][k] == before[g][k]);
                    assert(rest.contains(before[g][k]));
                }
                if !new_h {
                    assert(groups[h][l] == before[h][l]);
                    assert(rest.contains(before[h][l]));
                }
            }
        }
    }
}

/// An entity is among the members of the matching buckets exactly if a
/// bucket whose type set holds all of `types` has it.
pub proof fn lemma_matching_contains(archetypes: Seq<Bucket>, types: Set<TypeIdNum>, e: Lentity)
    ensures
        matching(archetypes, types).contains(e) <==> exists|i: int|
            #[trigger] in_bucket(archetypes, e, i) && types.subset_of(archetypes[i].sig),
    decreases archetypes.len(),
{
    if archetypes.len() > 0 {
        let rest = archetypes.drop_last();
        let last = archetypes.last();
        let head = matching(rest, types);
        let tail = if types.subset_of(last.sig) {
            last.members
        } else {
            Seq::empty()
        };
        lemma_matching_contains(rest, types, e);
        if matching(archetypes, types).contains(e) {
            let k = choose|k: int| 0 <= k < (head + tail).len() && (head + tail)[k] == e;
            if k < head.len() {
                assert(head[k] == e);
                let i = choose|i: int|
                    #[trigger] in_bucket(rest, e, i) && types.subset_of(rest[i].sig);
                assert(rest[i] == archetypes[i]);
                assert(in_bucket(archetypes, e, i));
            } else {
                assert(tail[k - head.len()] == e);
                assert(in_bucket(archetypes, e, archetypes.len() - 1));
            }
        }
        if exists|i: int| #[trigger] in_bucket(archetypes, e, i) && types.subset_of(archetypes[i].sig) {
            let i = choose|i: int|
                #[trigger] in_bucket(archetypes, e, i) && types.subset_of(archetypes[i].sig);
            if i < archetypes.len() - 1 {
                assert(rest[i] == archetypes[i]);
                assert(in_bucket(rest, e, i));
                let k = choose|k: int| 0 <= k < head.len() && head[k] == e;
                assert((head + tail)[k] == e);
            } else {
                let k = choose|k: int| 0 <= k < last.members.len() && last.members[k] == e;
                assert((head + tail)[head.len() + k] == e);
            }
        }
    }
}

/// Whether no entity occurs twice in the buckets, in one bucket or in two.
pub open spec fn sealed_once(archetypes: Seq<Bucket>) -> bool {
    forall|i: int, k: int, j: int, l: int|
        0 <= i < archetypes.len() && 0 <= k < archetypes[i].members.len() && 0 <= j
            < archetypes.len() && 0 <= l < archetypes[j].members.len() && (i != j || k != l) ==> (
        #[trigger] archetypes[i].members[k]) != (#[trigger] archetypes[j].members[l])
}

/// Where no entity was sealed twice, a query finds no entity twice.
pub proof fn lemma_matching_no_duplicates(archetypes: Seq<Bucket>, types: Set<TypeIdNum>)
    requires
        sealed_once(archetypes),
    ensures
        matching(archetypes, types).no_duplicates(),
    decreases archetypes.len(),
{
    if archetypes.len() > 0 {
        let rest = archetypes.drop_last();
        let last = archetypes.last();
        let head = matching(rest, types);
        let tail = if types.subset_of(last.sig) {
            last.members
        } else {
            Seq::empty()
        };
        assert forall|i: int, k: int, j: int, l: int|
            0 <= i < rest.len() && 0 <= k < rest[i].members.len() && 0 <= j < rest.len() && 0 <= l
                < rest[j].members.len() && (i != j || k != l) implies (#[trigger] rest[i].members[k])
            != (#[trigger] rest[j].members[l]) by {
            assert(rest[i].members[k] == archetypes[i].members[k]);
            assert(rest[j].members[l] == archetypes[j].members[l]);
        }
        lemma_matching_no_duplicates(rest, types);
        assert forall|a: int, b: int|
            0 <= a < (head + tail).len() && 0 <= b < (head + tail).len() && a != b implies (head
            + tail)[a] != (head + tail)[b] by {
            let n = archetypes.len() - 1;
            if a < head.len() && b < head.len() {
            } else if a >= head.len() && b >= head.len() {
                assert(archetypes[n].members[a - head.len()] != archetypes[n].members[b
                    - head.len()]);
            } else {
                let (x, y) = if a < head.len() {
                    (a, b)
                } else {
                    (b, a)
                };
                let e = head[x];
                assert(head.contains(e));
                lemma_matching_contains(rest, types, e);
                let i = choose|i: int|
                    #[trigger] in_bucket(rest, e, i) && types.subset_of(rest[i].sig);
                let k = choose|k: int| 0 <= k < rest[i].members.len() && rest[i].members[k] == e;
                assert(archetypes[i].members[k] == e);
                assert(archetypes[i].members[k] != archetypes[n].members[y - head.len()]);
            }
        }
    }
}

} // verus!
