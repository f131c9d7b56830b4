use rc_ecs::com::{
    gett, BlobComp, Comp, PositionComp, TeamComp, UniverseComp, VelocityComp, POSITION, TEAM,
    VELOCITY,
};
use rc_ecs::cupboard::Shelf;
use rc_ecs::lentity::{GroupedLentity, Lentity};
use rc_ecs::rc_ecs::RcEcs;

fn position(x: f32, y: f32) -> Comp {
    Comp::Position(PositionComp { x: x.to_bits(), y: y.to_bits() })
}

fn velocity(x: f32, y: f32) -> Comp {
    Comp::Velocity(VelocityComp { x: x.to_bits(), y: y.to_bits() })
}

fn team(team: usize) -> Comp {
    Comp::Team(TeamComp { team })
}

fn point(comp: &Comp) -> (f32, f32) {
    match comp {
        Comp::Position(c) => (f32::from_bits(c.x), f32::from_bits(c.y)),
        Comp::Velocity(c) => (f32::from_bits(c.x), f32::from_bits(c.y)),
        _ => panic!("not a point"),
    }
}

fn create_pv(store: &mut RcEcs<Comp>, pos: (f32, f32), vel: (f32, f32)) -> Lentity {
    let entity = store.create_entity();
    store.add_component(entity, position(pos.0, pos.1));
    store.add_component(entity, velocity(vel.0, vel.1));
    store.complete_entity(entity);
    entity
}

fn peek(store: &RcEcs<Comp>, entity: Lentity, t: u64) -> Option<Comp> {
    store.get_component_ref(GroupedLentity::Single(entity), t).cloned()
}

/// What the store shows to readers: every entity's components and the
/// results of the queries used in these tests.
fn snapshot(store: &RcEcs<Comp>) -> Vec<(Vec<Lentity>, Vec<Option<Comp>>)> {
    let mut shown = vec![];
    for types in [vec![], vec![POSITION], vec![VELOCITY], vec![POSITION, VELOCITY], vec![TEAM]] {
        let found = store.query(types);
        let mut values = vec![];
        for entity in 0..store.len() {
            for t in [POSITION, VELOCITY, TEAM] {
                values.push(peek(store, entity, t));
            }
        }
        shown.push((found, values));
    }
    shown
}

#[test]
fn entities_are_numbered_from_zero() {
    let mut store: RcEcs<Comp> = RcEcs::new();
    assert_eq!(store.len(), 0);
    assert_eq!(store.create_entity(), 0);
    assert_eq!(store.create_entity(), 1);
    assert_eq!(store.create_entity(), 2);
    assert_eq!(store.len(), 3);
}

#[test]
fn query_of_a_type_that_was_never_added_is_empty() {
    let mut store: RcEcs<Comp> = RcEcs::new();
    assert_eq!(store.query(vec![POSITION]), Vec::<Lentity>::new());
    create_pv(&mut store, (0.0, 0.0), (1.0, 0.0));
    assert_eq!(store.query(vec![TEAM]), Vec::<Lentity>::new());
    assert_eq!(store.query(vec![POSITION, TEAM]), Vec::<Lentity>::new());
    assert_eq!(store.query_uniques(vec![TEAM]), Vec::<GroupedLentity>::new());
    assert!(store.get_cupboard(TEAM).is_none());
}

#[test]
fn a_component_that_is_not_there_reads_as_none() {
    let mut store: RcEcs<Comp> = RcEcs::new();
    let entity = create_pv(&mut store, (0.0, 0.0), (1.0, 0.0));
    assert_eq!(peek(&store, entity, TEAM), None);
    assert_eq!(store.get_component(GroupedLentity::Single(entity), TEAM), None);
    assert_eq!(peek(&store, 17, POSITION), None);
    assert_eq!(store.get_component(GroupedLentity::Group(17), POSITION), None);
    assert_eq!(peek(&store, entity, POSITION), Some(position(0.0, 0.0)));
}

#[test]
fn unsealed_entities_are_not_found() {
    let mut store: RcEcs<Comp> = RcEcs::new();
    let entity = store.create_entity();
    store.add_component(entity, team(1));
    assert_eq!(store.query(vec![TEAM]), Vec::<Lentity>::new());
    store.complete_entity(entity);
    assert_eq!(store.query(vec![TEAM]), vec![entity]);
}

#[test]
fn round_trip_leaves_what_readers_see() {
    let mut store: RcEcs<Comp> = RcEcs::new();
    create_pv(&mut store, (1.0, 1.0), (0.0, 1.0));
    create_pv(&mut store, (1.0, 1.0), (0.0, 2.0));
    let entity = store.create_entity();
    store.add_component(entity, position(1.0, 1.0));
    store.add_component(entity, velocity(5.0, 5.0));
    store.complete_entity(entity);
    let before = snapshot(&store);
    for (t, value) in [(POSITION, position(1.0, 1.0)), (VELOCITY, velocity(5.0, 5.0))] {
        let out = store.get_component(GroupedLentity::Single(entity), t).unwrap();
        assert_eq!(out, value);
        store.return_component(GroupedLentity::Single(entity), out);
        assert_eq!(snapshot(&store), before);
    }
    let cupboard = store.get_cupboard(POSITION).unwrap();
    assert_eq!(cupboard.len(), 1);
    assert_eq!(cupboard.get_shelf(&0).qty(), 3);
}

#[test]
fn identical_values_of_many_entities_share_one_counted_shelf() {
    let mut store: RcEcs<Comp> = RcEcs::new();
    for _ in 0..6 {
        let entity = store.create_entity();
        store.add_component(entity, team(2));
        store.complete_entity(entity);
    }
    let cupboard = store.get_cupboard(TEAM).unwrap();
    assert_eq!(cupboard.len(), 1);
    assert_eq!(cupboard.get_shelf(&0).qty(), 6);
    assert!(!cupboard.get_shelf(&0).is_one());
    for entity in 0..6 {
        assert_eq!(store.get_entity(entity).get(TEAM), Some(0));
        assert_eq!(store.get_entity(entity).type_list(), vec![TEAM]);
    }
}

#[test]
fn borrowed_components_are_deduplicated_too() {
    let mut store: RcEcs<Comp> = RcEcs::new();
    let value = Comp::Blob(BlobComp { blob: vec![1, 2, 3, 4, 5] });
    for _ in 0..3 {
        let entity = store.create_entity();
        store.add_component_ref(entity, &value);
        store.complete_entity(entity);
    }
    let t = gett::<BlobComp>();
    let cupboard = store.get_cupboard(t).unwrap();
    assert_eq!(cupboard.len(), 1);
    assert_eq!(cupboard.get_shelf(&0).qty(), 3);
    assert_eq!(peek(&store, 2, t), Some(value.clone()));
    assert_eq!(store.get_component(GroupedLentity::Single(1), t), Some(value));
}

#[test]
fn divergence_splits_the_shelf() {
    let mut store: RcEcs<Comp> = RcEcs::new();
    for _ in 0..4 {
        let entity = store.create_entity();
        store.add_component(entity, team(2));
        store.complete_entity(entity);
    }
    let handle = GroupedLentity::Single(1);
    assert_eq!(store.get_component(handle, TEAM), Some(team(2)));
    store.return_component(handle, team(9));
    {
        let cupboard = store.get_cupboard(TEAM).unwrap();
        assert_eq!(cupboard.len(), 2);
        assert_eq!(cupboard.get_shelf(&0).qty(), 3);
        assert!(!cupboard.get_shelf(&0).is_one());
        assert_eq!(*cupboard.get_shelf(&0).peek(), team(2));
        assert!(matches!(cupboard.get_shelf(&1), Shelf::One { data: Some(_) }));
        assert_eq!(*cupboard.get_shelf(&1).peek(), team(9));
    }
    assert_eq!(store.get_entity(1).get(TEAM), Some(1));
    assert_eq!(peek(&store, 1, TEAM), Some(team(9)));
    for entity in [0, 2, 3] {
        assert_eq!(store.get_entity(entity).get(TEAM), Some(0));
        assert_eq!(peek(&store, entity, TEAM), Some(team(2)));
    }
}

#[test]
fn divergence_of_one_of_two_leaves_an_exclusive_shelf() {
    let mut store: RcEcs<Comp> = RcEcs::new();
    for _ in 0..2 {
        let entity = store.create_entity();
        store.add_component(entity, team(2));
        store.complete_entity(entity);
    }
    let handle = GroupedLentity::Single(0);
    store.get_component(handle, TEAM);
    store.return_component(handle, team(9));
    let cupboard = store.get_cupboard(TEAM).unwrap();
    assert_eq!(cupboard.len(), 2);
    assert!(cupboard.get_shelf(&0).is_one());
    assert_eq!(cupboard.get_shelf(&0).qty(), 1);
    assert_eq!(*cupboard.get_shelf(&0).peek(), team(2));
    assert!(cupboard.get_shelf(&1).is_one());
    assert_eq!(*cupboard.get_shelf(&1).peek(), team(9));
}

#[test]
fn diverged_value_joins_the_shelf_of_an_equal_value() {
    let mut store: RcEcs<Comp> = RcEcs::new();
    for value in [2, 2, 9, 9] {
        let entity = store.create_entity();
        store.add_component(entity, team(value));
        store.complete_entity(entity);
    }
    let handle = GroupedLentity::Single(0);
    store.get_component(handle, TEAM);
    store.return_component(handle, team(9));
    let cupboard = store.get_cupboard(TEAM).unwrap();
    assert_eq!(cupboard.len(), 2);
    assert_eq!(cupboard.get_shelf(&0).qty(), 1);
    assert_eq!(cupboard.get_shelf(&1).qty(), 3);
    assert_eq!(store.get_entity(0).get(TEAM), Some(1));
}

#[test]
fn exclusive_value_changes_in_place_and_is_not_merged() {
    let mut store: RcEcs<Comp> = RcEcs::new();
    for value in [1, 2] {
        let entity = store.create_entity();
        store.add_component(entity, team(value));
        store.complete_entity(entity);
    }
    let handle = GroupedLentity::Single(0);
    assert_eq!(store.get_component(handle, TEAM), Some(team(1)));
    store.return_component(handle, team(2));
    // both entities hold the value 2 now, on a shelf of their own each
    let cupboard = store.get_cupboard(TEAM).unwrap();
    assert_eq!(cupboard.len(), 2);
    assert!(cupboard.get_shelf(&0).is_one());
    assert!(cupboard.get_shelf(&1).is_one());
    assert_eq!(store.get_entity(0).get(TEAM), Some(0));
    assert_eq!(store.get_entity(1).get(TEAM), Some(1));
    assert_eq!(peek(&store, 0, TEAM), Some(team(2)));
    assert_eq!(peek(&store, 1, TEAM), Some(team(2)));
    assert_eq!(store.query_uniques(vec![TEAM]).len(), 2);
}

#[test]
fn query_finds_exactly_the_entities_with_all_the_types() {
    let mut store: RcEcs<Comp> = RcEcs::new();
    let mut has: Vec<Vec<u64>> = vec![];
    for i in 0..24usize {
        let entity = store.create_entity();
        let mut types = vec![];
        if i % 2 == 0 {
            store.add_component(entity, position(i as f32, 0.0));
            types.push(POSITION);
        }
        if i % 3 == 0 {
            store.add_component(entity, velocity(0.0, (i % 4) as f32));
            types.push(VELOCITY);
        }
        if i % 4 != 1 {
            store.add_component(entity, team(i % 2));
            types.push(TEAM);
        }
        store.complete_entity(entity);
        has.push(types);
    }
    let queries = vec![
        vec![],
        vec![POSITION],
        vec![VELOCITY],
        vec![TEAM],
        vec![POSITION, VELOCITY],
        vec![TEAM, POSITION],
        vec![VELOCITY, TEAM, POSITION],
        vec![POSITION, POSITION],
    ];
    for types in queries {
        let mut found = store.query(types.clone());
        found.sort();
        let expected: Vec<Lentity> = (0..24usize)
            .filter(|entity| types.iter().all(|t| has[*entity].contains(t)))
            .collect();
        assert_eq!(found, expected);
    }
}

#[test]
fn query_lists_buckets_in_the_order_of_their_first_sealing() {
    let mut store: RcEcs<Comp> = RcEcs::new();
    let a = create_pv(&mut store, (0.0, 0.0), (0.0, 0.0));
    let b = store.create_entity();
    store.add_component(b, position(1.0, 0.0));
    store.complete_entity(b);
    let c = create_pv(&mut store, (2.0, 0.0), (0.0, 0.0));
    assert_eq!(store.query(vec![POSITION]), vec![a, c, b]);
    assert_eq!(store.query(vec![VELOCITY]), vec![a, c]);
}

#[test]
fn three_entities_two_groups_one_update_per_group() {
    let mut store: RcEcs<Comp> = RcEcs::new();
    let e1 = create_pv(&mut store, (0.0, 0.0), (1.0, 0.0));
    let e2 = create_pv(&mut store, (0.0, 0.0), (1.0, 0.0));
    let e3 = create_pv(&mut store, (2.0, 0.0), (0.0, 1.0));
    let groups = store.query_uniques(vec![POSITION, VELOCITY]);
    assert_eq!(groups, vec![GroupedLentity::Group(e1), GroupedLentity::Group(e3)]);
    for group in &groups {
        let pos = point(&store.get_component(*group, POSITION).unwrap());
        let vel = point(store.get_component_ref(*group, VELOCITY).unwrap());
        store.return_component(*group, position(pos.0 + vel.0, pos.1 + vel.1));
    }
    assert_eq!(peek(&store, e1, POSITION), Some(position(1.0, 0.0)));
    assert_eq!(peek(&store, e2, POSITION), Some(position(1.0, 0.0)));
    assert_eq!(peek(&store, e3, POSITION), Some(position(2.0, 1.0)));
    // the two that moved together still share their shelf
    assert_eq!(store.get_entity(e1).get(POSITION), store.get_entity(e2).get(POSITION));
}

#[test]
fn groups_are_as_many_as_value_combinations() {
    let mut store: RcEcs<Comp> = RcEcs::new();
    for i in 0..30usize {
        create_pv(&mut store, ((i % 3) as f32, 0.0), (0.0, (i % 2) as f32));
    }
    let groups = store.query_uniques(vec![POSITION, VELOCITY]);
    assert_eq!(groups.len(), 6);
    assert_eq!(store.query_uniques(vec![POSITION]).len(), 3);
    assert_eq!(store.query_uniques(vec![VELOCITY]).len(), 2);
    assert_eq!(store.query_uniques(vec![]).len(), 1);
}

#[test]
fn a_group_that_is_part_of_a_shelf_moves_together() {
    let mut store: RcEcs<Comp> = RcEcs::new();
    // same position for all five, two velocities: two groups on one position shelf
    for i in 0..5usize {
        create_pv(&mut store, (0.0, 0.0), (if i < 3 { 1.0 } else { 2.0 }, 0.0));
    }
    let groups = store.query_uniques(vec![POSITION, VELOCITY]);
    assert_eq!(groups, vec![GroupedLentity::Group(0), GroupedLentity::Group(3)]);
    store.get_component(groups[0], POSITION);
    store.return_component(groups[0], position(1.0, 0.0));
    {
        let cupboard = store.get_cupboard(POSITION).unwrap();
        assert_eq!(cupboard.len(), 2);
        assert_eq!(cupboard.get_shelf(&0).qty(), 2);
        assert_eq!(*cupboard.get_shelf(&0).peek(), position(0.0, 0.0));
        assert_eq!(cupboard.get_shelf(&1).qty(), 3);
        assert_eq!(*cupboard.get_shelf(&1).peek(), position(1.0, 0.0));
    }
    for entity in 0..3 {
        assert_eq!(store.get_entity(entity).get(POSITION), Some(1));
    }
    for entity in 3..5 {
        assert_eq!(store.get_entity(entity).get(POSITION), Some(0));
    }
}

#[test]
fn a_group_that_is_all_of_a_shelf_leaves_it_for_a_new_one() {
    let mut store: RcEcs<Comp> = RcEcs::new();
    for _ in 0..3 {
        create_pv(&mut store, (0.0, 0.0), (1.0, 0.0));
    }
    let groups = store.query_uniques(vec![POSITION, VELOCITY]);
    assert_eq!(groups.len(), 1);
    store.get_component(groups[0], POSITION);
    store.return_component(groups[0], position(1.0, 0.0));
    let cupboard = store.get_cupboard(POSITION).unwrap();
    assert_eq!(cupboard.len(), 2);
    assert_eq!(cupboard.get_shelf(&0).qty(), 0);
    assert_eq!(cupboard.get_shelf(&1).qty(), 3);
    assert_eq!(*cupboard.get_shelf(&1).peek(), position(1.0, 0.0));
    for entity in 0..3 {
        assert_eq!(store.get_entity(entity).get(POSITION), Some(1));
        assert_eq!(peek(&store, entity, POSITION), Some(position(1.0, 0.0)));
    }
}

#[test]
fn a_group_that_is_all_of_a_shelf_joins_the_shelf_of_an_equal_value() {
    let mut store: RcEcs<Comp> = RcEcs::new();
    for _ in 0..2 {
        create_pv(&mut store, (0.0, 0.0), (1.0, 0.0));
    }
    create_pv(&mut store, (1.0, 0.0), (0.0, 0.0));
    let groups = store.query_uniques(vec![POSITION, VELOCITY]);
    assert_eq!(groups, vec![GroupedLentity::Group(0), GroupedLentity::Group(2)]);
    store.get_component(groups[0], POSITION);
    store.return_component(groups[0], position(1.0, 0.0));
    let cupboard = store.get_cupboard(POSITION).unwrap();
    assert_eq!(cupboard.len(), 2);
    assert_eq!(cupboard.get_shelf(&0).qty(), 0);
    assert_eq!(cupboard.get_shelf(&1).qty(), 3);
    for entity in 0..3 {
        assert_eq!(store.get_entity(entity).get(POSITION), Some(1));
        assert_eq!(peek(&store, entity, POSITION), Some(position(1.0, 0.0)));
    }
}

#[test]
fn an_abandoned_shelf_is_taken_again_by_an_equal_value() {
    let mut store: RcEcs<Comp> = RcEcs::new();
    for _ in 0..2 {
        let entity = store.create_entity();
        store.add_component(entity, team(1));
        store.complete_entity(entity);
    }
    let groups = store.query_uniques(vec![TEAM]);
    assert_eq!(groups.len(), 1);
    store.get_component(groups[0], TEAM);
    store.return_component(groups[0], team(2));
    assert_eq!(store.get_cupboard(TEAM).unwrap().get_shelf(&0).qty(), 0);
    let late = store.create_entity();
    store.add_component(late, team(1));
    let cupboard = store.get_cupboard(TEAM).unwrap();
    assert_eq!(cupboard.len(), 2);
    assert!(cupboard.get_shelf(&0).is_one());
    assert_eq!(store.get_entity(late).get(TEAM), Some(0));
    assert_eq!(peek(&store, late, TEAM), Some(team(1)));
    assert_eq!(peek(&store, 0, TEAM), Some(team(2)));
    assert_eq!(peek(&store, 1, TEAM), Some(team(2)));
}

#[test]
fn a_value_added_after_an_in_place_change_does_not_join_the_changed_shelf() {
    let mut store: RcEcs<Comp> = RcEcs::new();
    let t = gett::<UniverseComp>();
    let first = store.create_entity();
    store.add_component(first, Comp::Universe(UniverseComp { universe_id: 1 }));
    store.complete_entity(first);
    let handle = GroupedLentity::Single(first);
    assert_eq!(
        store.get_component(handle, t),
        Some(Comp::Universe(UniverseComp { universe_id: 1 }))
    );
    store.return_component(handle, Comp::Universe(UniverseComp { universe_id: 2 }));
    let second = store.create_entity();
    store.add_component(second, Comp::Universe(UniverseComp { universe_id: 1 }));
    store.complete_entity(second);
    assert_eq!(peek(&store, second, t), Some(Comp::Universe(UniverseComp { universe_id: 1 })));
    assert_eq!(peek(&store, first, t), Some(Comp::Universe(UniverseComp { universe_id: 2 })));
    assert_eq!(store.get_entity(first).get(t), Some(0));
    assert_eq!(store.get_entity(second).get(t), Some(1));
    // a value equal to the changed one joins the changed shelf
    let third = store.create_entity();
    store.add_component(third, Comp::Universe(UniverseComp { universe_id: 2 }));
    assert_eq!(store.get_entity(third).get(t), Some(0));
    assert_eq!(store.get_cupboard(t).unwrap().get_shelf(&0).qty(), 2);
}

#[test]
fn a_group_reads_what_was_committed_after_an_in_place_change() {
    let mut store: RcEcs<Comp> = RcEcs::new();
    let first = store.create_entity();
    store.add_component(first, team(1));
    store.complete_entity(first);
    let handle = GroupedLentity::Single(first);
    store.get_component(handle, TEAM);
    store.return_component(handle, team(2));
    for _ in 0..2 {
        let entity = store.create_entity();
        store.add_component(entity, team(1));
        store.complete_entity(entity);
    }
    let groups = store.query_uniques(vec![TEAM]);
    assert_eq!(groups, vec![GroupedLentity::Group(0), GroupedLentity::Group(1)]);
    for group in groups {
        let value = match store.get_component(group, TEAM) {
            Some(Comp::Team(c)) => c.team,
            _ => panic!("no team"),
        };
        store.return_component(group, team(value + 10));
    }
    assert_eq!(peek(&store, 0, TEAM), Some(team(12)));
    assert_eq!(peek(&store, 1, TEAM), Some(team(11)));
    assert_eq!(peek(&store, 2, TEAM), Some(team(11)));
}

#[test]
fn a_second_component_of_one_type_takes_the_place_of_the_first() {
    let mut store: RcEcs<Comp> = RcEcs::new();
    store.create_index(TEAM);
    let first = store.create_entity();
    store.add_component(first, team(1));
    let second = store.create_entity();
    store.add_component(second, team(1));
    assert_eq!(store.get_cupboard(TEAM).unwrap().get_shelf(&0).qty(), 2);
    // the second entity changes its mind
    store.add_component(second, team(2));
    {
        let cupboard = store.get_cupboard(TEAM).unwrap();
        assert_eq!(cupboard.len(), 2);
        assert!(cupboard.get_shelf(&0).is_one());
        assert_eq!(cupboard.get_shelf(&1).qty(), 1);
    }
    assert_eq!(peek(&store, first, TEAM), Some(team(1)));
    assert_eq!(peek(&store, second, TEAM), Some(team(2)));
    assert_eq!(store.query_index(TEAM, 1), vec![first]);
    assert_eq!(store.query_index(TEAM, 2), vec![second]);
    // and so does the first: its shelf is abandoned, then taken again
    store.add_component_ref(first, &team(2));
    assert_eq!(store.get_cupboard(TEAM).unwrap().get_shelf(&0).qty(), 0);
    assert_eq!(store.get_cupboard(TEAM).unwrap().get_shelf(&1).qty(), 2);
    store.add_component(first, team(1));
    assert_eq!(store.get_entity(first).get(TEAM), Some(0));
    assert_eq!(store.get_cupboard(TEAM).unwrap().get_shelf(&0).qty(), 1);
    assert_eq!(store.get_cupboard(TEAM).unwrap().get_shelf(&1).qty(), 1);
    assert_eq!(store.get_entity(first).type_list(), vec![TEAM]);
    store.complete_entity(first);
    store.complete_entity(second);
    assert_eq!(store.query(vec![TEAM]), vec![first, second]);
}

#[test]
fn index_follows_a_change_in_place() {
    let mut store: RcEcs<Comp> = RcEcs::new();
    let t = gett::<UniverseComp>();
    store.create_index(t);
    let entity = store.create_entity();
    store.add_component(entity, Comp::Universe(UniverseComp { universe_id: 1 }));
    store.complete_entity(entity);
    assert_eq!(store.query_index(t, 1), vec![entity]);
    let handle = GroupedLentity::Single(entity);
    store.get_component(handle, t);
    // while the value is away the entity is filed nowhere
    assert_eq!(store.query_index(t, 1), Vec::<Lentity>::new());
    store.return_component(handle, Comp::Universe(UniverseComp { universe_id: 4 }));
    assert_eq!(store.query_index(t, 4), vec![entity]);
    assert_eq!(store.query_index(t, 1), Vec::<Lentity>::new());
}

#[test]
fn index_files_borrowed_components_too() {
    let mut store: RcEcs<Comp> = RcEcs::new();
    store.create_index(TEAM);
    let value = team(3);
    for _ in 0..2 {
        let entity = store.create_entity();
        store.add_component_ref(entity, &value);
        store.complete_entity(entity);
    }
    let mut found = store.query_index(TEAM, 3);
    found.sort();
    assert_eq!(found, vec![0, 1]);
}

#[test]
fn a_shared_shelf_is_on_loan_between_checkout_and_commit() {
    let mut store: RcEcs<Comp> = RcEcs::new();
    for _ in 0..2 {
        let entity = store.create_entity();
        store.add_component(entity, team(1));
        store.complete_entity(entity);
    }
    let handle = GroupedLentity::Single(0);
    assert!(!store.get_cupboard(TEAM).unwrap().get_shelf(&0).is_on_loan());
    assert_eq!(store.get_component(handle, TEAM), Some(team(1)));
    assert!(store.get_cupboard(TEAM).unwrap().get_shelf(&0).is_on_loan());
    // the other sharer still reads the value
    assert_eq!(peek(&store, 1, TEAM), Some(team(1)));
    store.return_component(handle, team(1));
    assert!(!store.get_cupboard(TEAM).unwrap().get_shelf(&0).is_on_loan());
    assert_eq!(store.get_cupboard(TEAM).unwrap().get_shelf(&0).qty(), 2);
}

#[test]
fn index_files_entities_by_key_and_follows_divergence() {
    let mut store: RcEcs<Comp> = RcEcs::new();
    let t = gett::<UniverseComp>();
    store.create_index(t);
    for i in 0..6usize {
        let entity = store.create_entity();
        store.add_component(entity, Comp::Universe(UniverseComp { universe_id: i % 2 }));
        store.complete_entity(entity);
    }
    let mut evens = store.query_index(t, 0);
    evens.sort();
    assert_eq!(evens, vec![0, 2, 4]);
    let mut odds = store.query_index(t, 1);
    odds.sort();
    assert_eq!(odds, vec![1, 3, 5]);
    // entity 2 moves to universe 1
    let handle = GroupedLentity::Single(2);
    store.get_component(handle, t);
    store.return_component(handle, Comp::Universe(UniverseComp { universe_id: 1 }));
    let mut evens = store.query_index(t, 0);
    evens.sort();
    assert_eq!(evens, vec![0, 4]);
    let mut odds = store.query_index(t, 1);
    odds.sort();
    assert_eq!(odds, vec![1, 2, 3, 5]);
}

#[test]
fn creating_an_index_again_empties_it() {
    let mut store: RcEcs<Comp> = RcEcs::new();
    store.create_index(TEAM);
    let entity = store.create_entity();
    store.add_component(entity, team(7));
    assert_eq!(store.query_index(TEAM, 7), vec![entity]);
    store.create_index(TEAM);
    let other = store.create_entity();
    store.add_component(other, team(7));
    assert_eq!(store.query_index(TEAM, 7), vec![other]);
}

#[test]
fn a_copy_of_the_store_lives_its_own_life() {
    let mut store: RcEcs<Comp> = RcEcs::new();
    let entity = store.create_entity();
    store.add_component(entity, team(1));
    store.complete_entity(entity);
    let mut copy = store.clone();
    let handle = GroupedLentity::Single(entity);
    copy.get_component(handle, TEAM);
    copy.return_component(handle, team(5));
    assert_eq!(peek(&copy, entity, TEAM), Some(team(5)));
    assert_eq!(peek(&store, entity, TEAM), Some(team(1)));
}
