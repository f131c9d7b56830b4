use rc_ecs::brains::{edit_image, SystemType};
use rc_ecs::com::{
    gett, AccelerationComp, BlobComp, ColorComp, Comp, Component, PositionComp, ShooterComp,
    TeamComp, TimedLifeComp, UniverseComp, VelocityComp, ACCELERATION, BLOB, COLOR, POSITION,
    SHOOTER, TEAM, TIMED_LIFE, UNIVERSE, VELOCITY,
};
use rc_ecs::lentity::{
    grouped_lentity_to_lentity, is_grouped_lentity, is_lentity, lentity_to_grouped_lentity,
    GroupedLentity,
};
use rc_ecs::simulation_settings::{BrainType, Challenge};

#[test]
fn every_component_type_has_its_number() {
    assert_eq!(gett::<PositionComp>(), POSITION);
    assert_eq!(gett::<VelocityComp>(), VELOCITY);
    assert_eq!(gett::<AccelerationComp>(), ACCELERATION);
    assert_eq!(gett::<ColorComp>(), COLOR);
    assert_eq!(gett::<TeamComp>(), TEAM);
    assert_eq!(gett::<ShooterComp>(), SHOOTER);
    assert_eq!(gett::<TimedLifeComp>(), TIMED_LIFE);
    assert_eq!(gett::<UniverseComp>(), UNIVERSE);
    assert_eq!(gett::<BlobComp>(), BLOB);
    let numbers = vec![
        POSITION, VELOCITY, ACCELERATION, COLOR, TEAM, SHOOTER, TIMED_LIFE, UNIVERSE, BLOB,
    ];
    for (i, a) in numbers.iter().enumerate() {
        for b in &numbers[i + 1..] {
            assert_ne!(a, b);
        }
    }
}

#[test]
fn a_value_knows_its_type() {
    assert_eq!(Comp::Position(PositionComp { x: 1, y: 2 }).type_id(), POSITION);
    assert_eq!(Comp::Velocity(VelocityComp { x: 1, y: 2 }).type_id(), VELOCITY);
    assert_eq!(Comp::Acceleration(AccelerationComp { x: 1, y: 2 }).type_id(), ACCELERATION);
    assert_eq!(Comp::Color(ColorComp { blue: 1 }).type_id(), COLOR);
    assert_eq!(Comp::Team(TeamComp { team: 1 }).type_id(), TEAM);
    assert_eq!(Comp::Shooter(ShooterComp { cooldown: 1 }).type_id(), SHOOTER);
    assert_eq!(Comp::TimedLife(TimedLifeComp { time_left: 1 }).type_id(), TIMED_LIFE);
    assert_eq!(Comp::Universe(UniverseComp { universe_id: 1 }).type_id(), UNIVERSE);
    assert_eq!(Comp::Blob(BlobComp { blob: vec![1] }).type_id(), BLOB);
}

#[test]
fn encoding_is_the_fields_lowest_byte_first() {
    let position = Comp::Position(PositionComp { x: 0x0403_0201, y: 0x0807_0605 });
    assert_eq!(position.encode(), vec![1, 2, 3, 4, 5, 6, 7, 8]);
    let team = Comp::Team(TeamComp { team: 0x0102 });
    assert_eq!(team.encode(), vec![2, 1, 0, 0, 0, 0, 0, 0]);
    let color = Comp::Color(ColorComp { blue: 1.0f32.to_bits() });
    assert_eq!(color.encode(), vec![0, 0, 0x80, 0x3f]);
    let blob = Comp::Blob(BlobComp { blob: vec![9, 8, 7] });
    assert_eq!(blob.encode(), vec![9, 8, 7]);
}

#[test]
fn index_key_is_the_first_word() {
    assert_eq!(Comp::Universe(UniverseComp { universe_id: 3 }).index_key(), 3);
    assert_eq!(Comp::Position(PositionComp { x: 0xdead_beef, y: 7 }).index_key(), 0xdead_beef);
    assert_eq!(Comp::Blob(BlobComp { blob: vec![1, 0, 0, 0, 5] }).index_key(), 1);
    assert_eq!(Comp::Blob(BlobComp { blob: vec![1, 2, 3] }).index_key(), 0);
    assert_eq!(Comp::Blob(BlobComp { blob: vec![0, 1, 0, 0] }).index_key(), 256);
}

#[test]
fn clone_keeps_the_value() {
    let blob = Comp::Blob(BlobComp { blob: vec![1, 2, 3] });
    assert_eq!(blob.clone(), blob);
    let position = Comp::Position(PositionComp { x: 1, y: 2 });
    assert_eq!(position.clone(), position);
}

#[test]
fn system_names() {
    assert_eq!(SystemType::Velocity.get_name(), "Velocity");
    assert_eq!(SystemType::Acceleration.get_name(), "Acceleration");
    assert_eq!(SystemType::MapEdge.get_name(), "MapEdge");
    assert_eq!(SystemType::UpdateTimedLife.get_name(), "UpdateTimedLife");
    assert_eq!(SystemType::Shoot.get_name(), "Shoot");
    assert_eq!(SystemType::DeleteExpired.get_name(), "DeleteExpired");
    assert_eq!(SystemType::PaintNearest.get_name(), "PaintNearest");
    assert_eq!(SystemType::EditTeamOneImage.get_name(), "EditTeamOneImage");
    assert_eq!(SystemType::EditTeamOneColor.get_name(), "EditTeamOneColor");
    assert_eq!(SystemType::Shoot.get_name(), format!("{:?}", SystemType::Shoot));
}

#[test]
fn edit_image_toggles_every_fourth_byte() {
    let mut blob = vec![255, 1, 2, 3, 4, 5, 6, 7, 8];
    edit_image(&mut blob);
    assert_eq!(blob, vec![0, 1, 2, 3, 0, 5, 6, 7, 0]);
    edit_image(&mut blob);
    assert_eq!(blob, vec![255, 1, 2, 3, 255, 5, 6, 7, 255]);
    let mut single = vec![7];
    edit_image(&mut single);
    assert_eq!(single, vec![255]);
}

#[test]
fn default_settings() {
    assert_eq!(Challenge::default(), Challenge::Slideshow);
    assert_eq!(BrainType::default(), BrainType::Rc_Ecs);
}

#[test]
fn handles_keep_their_entity_and_kind() {
    let grouped = lentity_to_grouped_lentity(5);
    assert_eq!(grouped, GroupedLentity::Group(5));
    assert!(is_grouped_lentity(grouped));
    assert!(!is_lentity(grouped));
    assert_eq!(grouped_lentity_to_lentity(grouped), 5);
    let single = GroupedLentity::Single(9);
    assert!(is_lentity(single));
    assert!(!is_grouped_lentity(single));
    assert_eq!(grouped_lentity_to_lentity(single), 9);
}
