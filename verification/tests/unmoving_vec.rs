use rc_ecs::unmoving_vec::UnmovingVec;

#[test]
fn push_appends_when_nothing_is_free() {
    let mut arena: UnmovingVec<u32> = UnmovingVec::new();
    assert_eq!(arena.capacity(), 0);
    assert_eq!(arena.push(10), 0);
    assert_eq!(arena.push(20), 1);
    assert_eq!(arena.capacity(), 2);
    assert_eq!(arena.get(0), Some(&10));
    assert_eq!(arena.get(1), Some(&20));
}

#[test]
fn removed_slot_reads_as_empty() {
    let mut arena: UnmovingVec<u32> = UnmovingVec::new();
    arena.push(10);
    arena.push(20);
    assert_eq!(*arena.remove(0), 10);
    assert_eq!(arena.get(0), None);
    assert_eq!(arena.get_mut(0), None);
    assert_eq!(arena.get(1), Some(&20));
    assert_eq!(arena.capacity(), 2);
}

#[test]
fn push_reuses_the_removed_index_with_the_new_value() {
    let mut arena: UnmovingVec<u32> = UnmovingVec::new();
    arena.push(10);
    arena.push(20);
    arena.push(30);
    arena.remove(1);
    let index = arena.push(99);
    assert_eq!(index, 1);
    assert_eq!(arena.get(1), Some(&99));
    assert_eq!(arena.get(0), Some(&10));
    assert_eq!(arena.get(2), Some(&30));
    assert_eq!(arena.capacity(), 3);
}

#[test]
fn freed_indices_come_back_last_freed_first() {
    let mut arena: UnmovingVec<u32> = UnmovingVec::new();
    for value in 0..4 {
        arena.push(value);
    }
    arena.remove(0);
    arena.remove(2);
    assert_eq!(arena.push(100), 2);
    assert_eq!(arena.push(101), 0);
    assert_eq!(arena.push(102), 4);
    assert_eq!(arena.get(2), Some(&100));
    assert_eq!(arena.get(0), Some(&101));
    assert_eq!(arena.get(4), Some(&102));
}

#[test]
fn live_pushes_never_share_an_index() {
    let mut arena: UnmovingVec<u32> = UnmovingVec::new();
    let mut live: Vec<usize> = vec![];
    for round in 0..20u32 {
        let index = arena.push(round);
        assert!(!live.contains(&index));
        live.push(index);
        if round % 3 == 2 {
            let freed = live.remove(0);
            arena.remove(freed);
        }
    }
    for index in &live {
        assert!(arena.get(*index).is_some());
    }
}

#[test]
fn get_mut_changes_the_slot_in_place() {
    let mut arena: UnmovingVec<u32> = UnmovingVec::new();
    arena.push(1);
    arena.push(2);
    *arena.get_mut(1).unwrap() = 7;
    assert_eq!(arena.get(1), Some(&7));
    assert_eq!(arena.get(0), Some(&1));
}

#[test]
fn default_is_an_empty_arena() {
    let mut arena: UnmovingVec<u32> = Default::default();
    assert_eq!(arena.capacity(), 0);
    assert_eq!(arena.push(3), 0);
}
