use rc_ecs::com::{
    gett, AccelerationComp, Comp, PositionComp, UniverseComp, VelocityComp,
};
use rc_ecs::lentity::{GroupedLentity, Lentity};
use rc_ecs::rc_ecs::RcEcs;

fn position(x: f32, y: f32) -> Comp {
    Comp::Position(PositionComp { x: x.to_bits(), y: y.to_bits() })
}

fn velocity(x: f32, y: f32) -> Comp {
    Comp::Velocity(VelocityComp { x: x.to_bits(), y: y.to_bits() })
}

fn acceleration(x: f32, y: f32) -> Comp {
    Comp::Acceleration(AccelerationComp { x: x.to_bits(), y: y.to_bits() })
}

fn point(comp: &Comp) -> (f32, f32) {
    match comp {
        Comp::Position(c) => (f32::from_bits(c.x), f32::from_bits(c.y)),
        Comp::Velocity(c) => (f32::from_bits(c.x), f32::from_bits(c.y)),
        Comp::Acceleration(c) => (f32::from_bits(c.x), f32::from_bits(c.y)),
        _ => panic!("not a point"),
    }
}

fn plus(a: (f32, f32), b: (f32, f32)) -> (f32, f32) {
    (a.0 + b.0, a.1 + b.1)
}

/// One tick of the velocity system over `entities`: pos += vel.
fn apply_velocity(rc_ecs: &mut RcEcs<Comp>, entities: &Vec<GroupedLentity>) {
    for entity in entities {
        let position_comp = rc_ecs.get_component(*entity, gett::<PositionComp>()).unwrap();
        let velocity_comp = rc_ecs.get_component_ref(*entity, gett::<VelocityComp>()).unwrap();
        // Increment the position by the velocity
        let moved = plus(point(&position_comp), point(velocity_comp));
        rc_ecs.return_component(*entity, position(moved.0, moved.1));
    }
}

/// One tick of the acceleration system over `entities`: vel += acc.
fn apply_acceleration(rc_ecs: &mut RcEcs<Comp>, entities: &Vec<GroupedLentity>) {
    for entity in entities {
        let velocity_comp = rc_ecs.get_component(*entity, gett::<VelocityComp>()).unwrap();
        let acceleration_comp =
            rc_ecs.get_component_ref(*entity, gett::<AccelerationComp>()).unwrap();
        let faster = plus(point(&velocity_comp), point(acceleration_comp));
        rc_ecs.return_component(*entity, velocity(faster.0, faster.1));
    }
}

fn singles(entities: Vec<Lentity>) -> Vec<GroupedLentity> {
    entities.into_iter().map(GroupedLentity::Single).collect()
}

fn create_pv(rc_ecs: &mut RcEcs<Comp>, pos: (f32, f32), vel: (f32, f32)) -> Lentity {
    let entity = rc_ecs.create_entity();
    rc_ecs.add_component(entity, position(pos.0, pos.1));
    rc_ecs.add_component(entity, velocity(vel.0, vel.1));
    rc_ecs.complete_entity(entity);
    entity
}

fn basic_round(rc_ecs: &mut RcEcs<Comp>) {
    let entity = rc_ecs.create_entity();
    rc_ecs.add_component(entity, position(1.0, 0.0));
    rc_ecs.add_component(entity, velocity(0.0, 333.0));
    rc_ecs.complete_entity(entity);

    // Query for all entities with a position component
    let matching_entities =
        rc_ecs.query(vec![gett::<PositionComp>(), gett::<VelocityComp>()]);

    assert_eq!(matching_entities.len(), 1);
    for entity in &matching_entities {
        let handle = GroupedLentity::Single(*entity);
        let position_comp = rc_ecs.get_component(handle, gett::<PositionComp>()).unwrap();
        let velocity_comp = rc_ecs.get_component_ref(handle, gett::<VelocityComp>()).unwrap();
        let moved = plus(point(&position_comp), point(velocity_comp));
        println!(
            "Entity {:?} has position {:?} and velocity {:?}",
            entity, moved, velocity_comp
        );
        rc_ecs.return_component(handle, position(moved.0, moved.1));
    }
    // Assert that the position has been incremented
    let position_comp = rc_ecs
        .get_component(GroupedLentity::Single(entity), gett::<PositionComp>())
        .unwrap();
    assert_eq!(point(&position_comp), (1.0, 333.0));
}

fn position_deduplication_round(rc_ecs: &mut RcEcs<Comp>) {
    for i in 0..2 {
        let entity = rc_ecs.create_entity();
        rc_ecs.add_component(entity, position(0.0, 0.0));
        rc_ecs.add_component(entity, velocity(0.0, i as f32));
        rc_ecs.complete_entity(entity);
    }
    // Query for all entities with a position component
    let matching_entities =
        rc_ecs.query(vec![gett::<PositionComp>(), gett::<VelocityComp>()]);

    assert_eq!(matching_entities.len(), 2);
    apply_velocity(rc_ecs, &singles(matching_entities));
    // Assert that both entities have correct positions
    let matching_entities =
        rc_ecs.query(vec![gett::<PositionComp>(), gett::<VelocityComp>()]);
    let mut expected_positions = vec![(0.0, 0.0), (0.0, 1.0)];
    for entity in &matching_entities {
        let position_comp = rc_ecs
            .get_component_ref(GroupedLentity::Single(*entity), gett::<PositionComp>())
            .unwrap();
        // Remove the position from the expected positions
        let found = point(position_comp);
        let index = expected_positions
            .iter()
            .position(|x| *x == found)
            .expect(format!("Position was wrong! {:?}", found).as_str());
        expected_positions.remove(index);
    }
    assert_eq!(expected_positions.len(), 0);
}

fn vel_pos_acc_round(rc_ecs: &mut RcEcs<Comp>) {
    for _ in 0..10 {
        let entity = rc_ecs.create_entity();
        rc_ecs.add_component(entity, position(2.0, 2.0));
        rc_ecs.add_component(entity, velocity(0.0, 2.0));
        rc_ecs.complete_entity(entity);
    }
    for _ in 0..5 {
        let entity = rc_ecs.create_entity();
        rc_ecs.add_component(entity, position(2.0, 0.0));
        rc_ecs.add_component(entity, velocity(0.0, 4.0));
        rc_ecs.add_component(entity, acceleration(0.0, 2.0));
        rc_ecs.complete_entity(entity);
    }
    for _ in 0..2 {
        let entity = rc_ecs.create_entity();
        rc_ecs.add_component(entity, position(2.0, 10.0));
        rc_ecs.complete_entity(entity);
    }
    {
        // Velocity
        let matching_entities =
            rc_ecs.query(vec![gett::<PositionComp>(), gett::<VelocityComp>()]);
        assert_eq!(matching_entities.len(), 15);
        apply_velocity(rc_ecs, &singles(matching_entities));
    }
    {
        // Acc
        let matching_entities = rc_ecs.query(vec![
            gett::<PositionComp>(),
            gett::<VelocityComp>(),
            gett::<AccelerationComp>(),
        ]);
        assert_eq!(matching_entities.len(), 5);
        apply_acceleration(rc_ecs, &singles(matching_entities));
    }
    {
        // Velocity
        let matching_entities =
            rc_ecs.query(vec![gett::<PositionComp>(), gett::<VelocityComp>()]);
        assert_eq!(matching_entities.len(), 15);
        apply_velocity(rc_ecs, &singles(matching_entities));
    }

    // Assert that both entities have correct positions
    let mut expected_positions = vec![];
    for _ in 0..10 {
        expected_positions.push((2.0, 6.0));
    }
    for _ in 0..7 {
        expected_positions.push((2.0, 10.0));
    }
    let matching_entities = rc_ecs.query(vec![gett::<PositionComp>()]);
    for entity in &matching_entities {
        let position_comp = rc_ecs
            .get_component_ref(GroupedLentity::Single(*entity), gett::<PositionComp>())
            .unwrap();
        let found = point(position_comp);
        let index = expected_positions
            .iter()
            .position(|x| *x == found)
            .expect(format!("Position was wrong! {:?}", found).as_str());
        expected_positions.remove(index);
    }
    assert_eq!(expected_positions.len(), 0);

    let mut expected_velocities = vec![];
    for _ in 0..10 {
        expected_velocities.push((0.0, 2.0));
    }
    for _ in 0..5 {
        expected_velocities.push((0.0, 6.0));
    }
    let matching_entities = rc_ecs.query(vec![gett::<VelocityComp>()]);
    for entity in &matching_entities {
        let velocity_comp = rc_ecs
            .get_component_ref(GroupedLentity::Single(*entity), gett::<VelocityComp>())
            .unwrap();
        let found = point(velocity_comp);
        let index = expected_velocities
            .iter()
            .position(|x| *x == found)
            .expect(format!("Vel was wrong! {:?}", found).as_str());
        expected_velocities.remove(index);
    }
    assert_eq!(expected_velocities.len(), 0);
}

#[test]
fn rc_ecs_basic() {
    let mut rc_ecs = RcEcs::new();
    basic_round(&mut rc_ecs);
}

#[test]
fn rc_ecs_test_position_deduplication() {
    let mut rc_ecs = RcEcs::new();
    position_deduplication_round(&mut rc_ecs);
}

#[test]
fn rc_ecs_test_vel_pos_acc() {
    let mut rc_ecs = RcEcs::new();
    vel_pos_acc_round(&mut rc_ecs);
}

#[test]
fn test_basic_dupey_processing() {
    let mut rc_ecs = RcEcs::new();
    create_pv(&mut rc_ecs, (0.0, 0.0), (1.0, 0.0));
    create_pv(&mut rc_ecs, (0.0, 0.0), (1.0, 0.0));
    create_pv(&mut rc_ecs, (0.0, 0.0), (0.0, 1.0));
    create_pv(&mut rc_ecs, (2.0, 0.0), (1.0, 0.0));
    create_pv(&mut rc_ecs, (2.0, 0.0), (0.0, 1.0));

    let matching_entities =
        rc_ecs.query_uniques(vec![gett::<PositionComp>(), gett::<VelocityComp>()]);

    assert_eq!(matching_entities.len(), 4);
    apply_velocity(&mut rc_ecs, &matching_entities);
    // Assert that both entities have correct positions
    let matching_entities =
        rc_ecs.query(vec![gett::<PositionComp>(), gett::<VelocityComp>()]);
    let mut expected_positions =
        vec![(1.0, 0.0), (1.0, 0.0), (0.0, 1.0), (3.0, 0.0), (2.0, 1.0)];
    for entity in &matching_entities {
        let position_comp = rc_ecs
            .get_component_ref(GroupedLentity::Single(*entity), gett::<PositionComp>())
            .unwrap();
        // Remove the position from the expected positions
        let found = point(position_comp);
        let index = expected_positions
            .iter()
            .position(|x| *x == found)
            .expect(format!("Position was wrong! {:?}", found).as_str());
        expected_positions.remove(index);
    }
    assert_eq!(expected_positions.len(), 0);
}

#[test]
fn test_indexing() {
    let mut rc_ecs = RcEcs::new();
    rc_ecs.create_index(gett::<UniverseComp>());
    for i in 0..10 {
        let entity = rc_ecs.create_entity();
        rc_ecs.add_component(entity, position(2.0, i as f32));
        rc_ecs.add_component(entity, Comp::Universe(UniverseComp { universe_id: i % 5 }));
        rc_ecs.complete_entity(entity);
    }
    let index_results = rc_ecs.query_index(gett::<UniverseComp>(), 3);
    assert_eq!(index_results.len(), 2);
    let index_results = rc_ecs.query_index(gett::<UniverseComp>(), 1);
    assert_eq!(index_results.len(), 2);
}
