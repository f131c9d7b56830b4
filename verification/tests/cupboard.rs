use rc_ecs::com::{Comp, PositionComp, TeamComp};
use rc_ecs::cupboard::{Cupboard, Shelf};
use rc_ecs::utils::{hash_bytes, HashMe};

fn position(x: f32, y: f32) -> Comp {
    Comp::Position(PositionComp { x: x.to_bits(), y: y.to_bits() })
}

fn team(team: usize) -> Comp {
    Comp::Team(TeamComp { team })
}

#[test]
fn first_value_gets_an_exclusive_shelf() {
    let mut cupboard: Cupboard<Comp> = Cupboard::new();
    assert_eq!(cupboard.len(), 0);
    let shelf_ref = cupboard.add_component(team(1));
    assert_eq!(shelf_ref, 0);
    assert_eq!(cupboard.len(), 1);
    match cupboard.get_shelf(&shelf_ref) {
        Shelf::One { data } => assert_eq!(*data, Some(team(1))),
        Shelf::Many { .. } => panic!("shared"),
    }
    assert_eq!(cupboard.lookup(team(1).hash_me()), Some(0));
    assert_eq!(cupboard.lookup(team(2).hash_me()), None);
}

#[test]
fn identical_values_share_one_shelf_that_counts_them() {
    let mut cupboard: Cupboard<Comp> = Cupboard::new();
    for _ in 0..7 {
        assert_eq!(cupboard.add_component(position(2.0, 2.0)), 0);
    }
    assert_eq!(cupboard.len(), 1);
    let shelf = cupboard.get_shelf(&0);
    assert_eq!(shelf.qty(), 7);
    assert!(!shelf.is_one());
    assert_eq!(*shelf.peek(), position(2.0, 2.0));
}

#[test]
fn second_value_turns_exclusive_into_shared_with_count_two() {
    let mut cupboard: Cupboard<Comp> = Cupboard::new();
    cupboard.add_component(team(4));
    cupboard.add_component(team(4));
    match cupboard.get_shelf(&0) {
        Shelf::Many { data_backup, data, qty, .. } => {
            assert_eq!(*data_backup, team(4));
            assert_eq!(*data, Some(Box::new(team(4))));
            assert_eq!(*qty, 2);
        },
        Shelf::One { .. } => panic!("exclusive"),
    }
}

#[test]
fn distinct_values_get_distinct_shelves() {
    let mut cupboard: Cupboard<Comp> = Cupboard::new();
    assert_eq!(cupboard.add_component(team(1)), 0);
    assert_eq!(cupboard.add_component(team(2)), 1);
    assert_eq!(cupboard.add_component(team(1)), 0);
    assert_eq!(cupboard.add_component(team(3)), 2);
    assert_eq!(cupboard.len(), 3);
    assert_eq!(cupboard.get_shelf(&0).qty(), 2);
    assert_eq!(cupboard.get_shelf(&1).qty(), 1);
    assert_eq!(cupboard.get_shelf(&2).qty(), 1);
}

#[test]
fn borrowed_value_joins_without_a_spare_copy() {
    let mut cupboard: Cupboard<Comp> = Cupboard::new();
    let value = team(9);
    assert_eq!(cupboard.add_component_ref(&value), 0);
    match cupboard.get_shelf(&0) {
        Shelf::One { data } => assert_eq!(*data, Some(team(9))),
        Shelf::Many { .. } => panic!("shared"),
    }
    assert_eq!(cupboard.add_component_ref(&value), 0);
    match cupboard.get_shelf(&0) {
        Shelf::Many { data_backup, data, qty, .. } => {
            assert_eq!(*data_backup, team(9));
            assert_eq!(*data, None);
            assert_eq!(*qty, 2);
        },
        Shelf::One { .. } => panic!("exclusive"),
    }
    assert_eq!(value, team(9));
}

#[test]
fn add_qty_folds_many_sharers_in_one_step() {
    let mut cupboard: Cupboard<Comp> = Cupboard::new();
    cupboard.add_component(team(1));
    cupboard.add_qty(0, 0);
    assert!(cupboard.get_shelf(&0).is_one());
    cupboard.add_qty(0, 4);
    assert_eq!(cupboard.get_shelf(&0).qty(), 5);
    cupboard.add_qty(0, 10);
    assert_eq!(cupboard.get_shelf(&0).qty(), 15);
    assert_eq!(*cupboard.get_shelf(&0).peek(), team(1));
}

#[test]
fn exclusive_shelf_lends_its_value_and_takes_it_back() {
    let mut shelf = Shelf::One { data: Some(team(3)) };
    assert_eq!(shelf.checkout(), team(3));
    assert!(matches!(shelf, Shelf::One { data: None }));
    shelf.give_back(team(8));
    assert_eq!(*shelf.peek(), team(8));
    assert_eq!(shelf.qty(), 1);
}

#[test]
fn shared_shelf_hands_out_the_spare_copy_and_records_the_loan() {
    let mut shelf = Shelf::One { data: Some(team(3)) };
    shelf.join(Some(team(3)));
    assert_eq!(shelf.qty(), 2);
    assert!(!shelf.is_on_loan());
    assert_eq!(shelf.checkout(), team(3));
    assert!(matches!(shelf, Shelf::Many { data: None, loaned: true, .. }));
    assert!(shelf.is_on_loan());
    assert_eq!(*shelf.peek(), team(3));
    shelf.give_back(team(3));
    assert!(matches!(shelf, Shelf::Many { data: Some(_), qty: 2, loaned: false, .. }));
    assert!(!shelf.is_on_loan());
}

#[test]
fn shared_shelf_without_spare_copy_hands_out_a_clone() {
    let mut shelf = Shelf::One { data: Some(team(3)) };
    shelf.join(None);
    assert!(matches!(shelf, Shelf::Many { data: None, loaned: false, .. }));
    assert_eq!(shelf.checkout(), team(3));
    assert!(shelf.is_on_loan());
    assert_eq!(*shelf.peek(), team(3));
}

#[test]
fn release_demotes_to_exclusive_when_one_sharer_is_left() {
    let mut shelf = Shelf::One { data: Some(team(3)) };
    shelf.grow(4);
    assert_eq!(shelf.qty(), 5);
    shelf.release(2);
    assert_eq!(shelf.qty(), 3);
    assert!(!shelf.is_one());
    shelf.release(2);
    assert!(shelf.is_one());
    assert_eq!(*shelf.peek(), team(3));
}

#[test]
fn release_ends_the_loan() {
    let mut shelf = Shelf::One { data: Some(team(3)) };
    shelf.grow(2);
    shelf.checkout();
    assert!(shelf.is_on_loan());
    shelf.release(1);
    assert_eq!(shelf.qty(), 2);
    assert!(!shelf.is_on_loan());
}

#[test]
fn abandoned_shelf_keeps_its_value_for_the_next_equal_one() {
    let mut shelf = Shelf::One { data: Some(team(3)) };
    shelf.join(None);
    shelf.release(2);
    assert_eq!(shelf.qty(), 0);
    assert!(!shelf.is_one());
    assert_eq!(*shelf.peek(), team(3));
    shelf.join(Some(team(3)));
    assert!(matches!(shelf, Shelf::One { data: Some(_) }));
    assert_eq!(shelf.qty(), 1);
    assert_eq!(*shelf.peek(), team(3));
    let mut other = Shelf::One { data: Some(team(4)) };
    other.join(None);
    other.release(2);
    other.grow(3);
    assert_eq!(other.qty(), 3);
    assert_eq!(*other.peek(), team(4));
}

#[test]
fn checkout_of_an_exclusive_shelf_takes_it_out_of_the_hash_index() {
    let mut cupboard: Cupboard<Comp> = Cupboard::new();
    cupboard.add_component(team(1));
    cupboard.add_component(team(2));
    let value = cupboard.checkout(1);
    assert_eq!(value, team(2));
    assert!(matches!(cupboard.get_shelf(&1), Shelf::One { data: None }));
    assert_eq!(cupboard.lookup(team(2).hash_me()), None);
    assert_eq!(cupboard.lookup(team(1).hash_me()), Some(0));
    // meanwhile an equal value gets a shelf of its own
    assert_eq!(cupboard.add_component(team(2)), 2);
    cupboard.give_back(1, team(6));
    assert_eq!(*cupboard.get_shelf(&1).peek(), team(6));
    assert_eq!(cupboard.lookup(team(6).hash_me()), Some(1));
    assert_eq!(cupboard.lookup(team(2).hash_me()), Some(2));
    assert_eq!(*cupboard.get_shelf(&0).peek(), team(1));
}

#[test]
fn value_given_back_is_not_indexed_where_its_hash_is_indexed_already() {
    let mut cupboard: Cupboard<Comp> = Cupboard::new();
    cupboard.add_component(team(1));
    cupboard.add_component(team(2));
    cupboard.checkout(1);
    cupboard.give_back(1, team(1));
    assert_eq!(cupboard.lookup(team(1).hash_me()), Some(0));
    assert_eq!(cupboard.lookup(team(2).hash_me()), None);
    // an equal value joins the shelf that the index leads to
    assert_eq!(cupboard.add_component(team(1)), 0);
    assert_eq!(cupboard.get_shelf(&0).qty(), 2);
    assert_eq!(cupboard.get_shelf(&1).qty(), 1);
    assert_eq!(*cupboard.get_shelf(&1).peek(), team(1));
}

#[test]
fn checkout_of_a_shared_shelf_leaves_the_hash_index() {
    let mut cupboard: Cupboard<Comp> = Cupboard::new();
    cupboard.add_component(team(1));
    cupboard.add_component(team(1));
    assert_eq!(cupboard.checkout(0), team(1));
    assert_eq!(cupboard.lookup(team(1).hash_me()), Some(0));
    assert!(cupboard.get_shelf(&0).is_on_loan());
    cupboard.give_back(0, team(1));
    assert!(!cupboard.get_shelf(&0).is_on_loan());
    assert_eq!(cupboard.get_shelf(&0).qty(), 2);
}

#[test]
fn release_in_a_cupboard_keeps_the_shelf_indexed() {
    let mut cupboard: Cupboard<Comp> = Cupboard::new();
    for _ in 0..3 {
        cupboard.add_component(team(1));
    }
    cupboard.release(0, 2);
    assert!(cupboard.get_shelf(&0).is_one());
    assert_eq!(cupboard.lookup(team(1).hash_me()), Some(0));
    assert_eq!(cupboard.add_component(team(1)), 0);
    assert_eq!(cupboard.get_shelf(&0).qty(), 2);
}

#[test]
fn get_shelf_mut_writes_through() {
    let mut cupboard: Cupboard<Comp> = Cupboard::new();
    cupboard.add_component(team(1));
    cupboard.add_component(team(2));
    cupboard.get_shelf_mut(&1).grow(3);
    assert_eq!(cupboard.get_shelf(&1).qty(), 4);
    assert_eq!(*cupboard.get_shelf(&1).peek(), team(2));
    assert_eq!(*cupboard.get_shelf(&0).peek(), team(1));
    assert_eq!(cupboard.get_shelf(&0).qty(), 1);
}

#[test]
fn equal_values_hash_alike_and_the_hash_is_that_of_the_encoding() {
    assert_eq!(position(1.5, -2.0).hash_me(), position(1.5, -2.0).hash_me());
    assert_ne!(position(1.5, -2.0).hash_me(), position(1.5, 2.0).hash_me());
    assert_eq!(team(7).hash_me(), hash_bytes(&[7, 0, 0, 0, 0, 0, 0, 0]));
    assert_ne!(hash_bytes(&[1, 2, 3]), hash_bytes(&[1, 2, 4]));
}
