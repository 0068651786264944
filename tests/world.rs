use miau::engine::Engine;
use miau::registry::Registry;
use miau::schedule::{DRAW, INIT, START, UPDATE};
use miau::storage::{Borrow, BorrowError};
use miau::world::{Entity, World};

type TestWorld = World<i32, String, u32>;

#[test]
fn insert_then_get_rows_in_order() {
    let mut w: TestWorld = World::new();
    let a = Entity::new(1);
    let b = Entity::new(2);
    a.insert(&mut w, 7, 10).insert(&mut w, 8, 99);
    b.insert(&mut w, 7, 20);
    let g = w.get(7).unwrap();
    assert_eq!(g.len(), 2);
    assert_eq!(g[0].entity, 1);
    assert_eq!(g[1].entity, 2);
    assert_eq!(*w.components.component(&g[0]).unwrap(), 10);
    assert_eq!(*w.components.component(&g[1]).unwrap(), 20);
    assert_eq!(w.components.table_rows(0)[0].borrow, Borrow::Reading(1));
    assert_eq!(w.components.table_count(), 2);
    assert_eq!(w.components.table_key(1), 8);
}

#[test]
fn get_of_type_without_rows_is_empty() {
    let mut w: TestWorld = World::new();
    assert!(w.get(5).unwrap().is_empty());
    assert!(w.get_mut(5).unwrap().is_empty());
    let e = Entity::new(3);
    assert!(e.get(&mut w, 5).unwrap().is_empty());
    assert_eq!(e.get_one(&mut w, 5).unwrap(), None);
}

#[test]
fn entity_sees_only_its_own_rows() {
    let mut w: TestWorld = World::new();
    let a = Entity::new(1);
    let b = Entity::new(2);
    a.insert(&mut w, 7, 10);
    b.insert(&mut w, 7, 20);
    a.insert(&mut w, 7, 30);
    let g = a.get(&mut w, 7).unwrap();
    assert_eq!(g.len(), 2);
    assert_eq!(g[0].index, 0);
    assert_eq!(g[1].index, 2);
    assert_eq!(*w.components.component(&g[1]).unwrap(), 30);
    assert_eq!(w.components.table_rows(0)[1].borrow, Borrow::Unused);
}

#[test]
fn get_one_takes_the_first_row_of_the_entity() {
    let mut w: TestWorld = World::new();
    let a = Entity::new(1);
    let b = Entity::new(2);
    b.insert(&mut w, 7, 5);
    a.insert(&mut w, 7, 10).insert(&mut w, 7, 11);
    let g = a.get_one(&mut w, 7).unwrap().unwrap();
    assert_eq!(g.index, 1);
    assert_eq!(*w.components.component(&g).unwrap(), 10);
    assert_eq!(w.components.table_rows(0)[2].borrow, Borrow::Unused);
    let m = a.get_one_mut(&mut w, 7);
    assert_eq!(m, Err(BorrowError::AlreadyBorrowed));
}

#[test]
fn write_borrow_blocks_every_other_borrow() {
    let mut w: TestWorld = World::new();
    let a = Entity::new(1);
    a.insert(&mut w, 7, 10);
    let g = w.get_mut(7).unwrap();
    assert_eq!(w.get(7), Err(BorrowError::AlreadyMutablyBorrowed));
    assert_eq!(w.get_mut(7), Err(BorrowError::AlreadyBorrowed));
    assert_eq!(a.get(&mut w, 7), Err(BorrowError::AlreadyMutablyBorrowed));
    assert_eq!(a.get_one_mut(&mut w, 7), Err(BorrowError::AlreadyBorrowed));
    assert_eq!(w.components.table_rows(0)[0].borrow, Borrow::Writing);
    assert!(w.components.release(&g[0]));
    assert!(!w.components.release(&g[0]));
    assert_eq!(w.get(7).unwrap().len(), 1);
}

#[test]
fn read_borrows_share_and_block_writes() {
    let mut w: TestWorld = World::new();
    let a = Entity::new(1);
    a.insert(&mut w, 7, 10);
    let g1 = w.get(7).unwrap();
    let g2 = a.get(&mut w, 7).unwrap();
    assert_eq!(w.components.table_rows(0)[0].borrow, Borrow::Reading(2));
    assert_eq!(w.get_mut(7), Err(BorrowError::AlreadyBorrowed));
    assert!(w.components.release(&g1[0]));
    assert_eq!(w.components.table_rows(0)[0].borrow, Borrow::Reading(1));
    assert!(w.components.release(&g2[0]));
    assert_eq!(w.components.table_rows(0)[0].borrow, Borrow::Unused);
    assert_eq!(w.get_mut(7).unwrap().len(), 1);
}

#[test]
fn exclusive_guard_changes_the_component() {
    let mut w: TestWorld = World::new();
    let a = Entity::new(1);
    a.insert(&mut w, 7, 10);
    let g = a.get_one_mut(&mut w, 7).unwrap().unwrap();
    *w.components.component_mut(&g).unwrap() += 5;
    assert_eq!(*w.components.component(&g).unwrap(), 15);
    w.components.release(&g);
    assert_eq!(w.components.component(&g), None);
    let r = a.get_one(&mut w, 7).unwrap().unwrap();
    assert!(w.components.component_mut(&r).is_none());
    assert_eq!(*w.components.component(&r).unwrap(), 15);
}

#[test]
fn later_resource_replaces_earlier_and_take_removes() {
    let mut w: TestWorld = World::new();
    w.add_resource(4, "first".to_string());
    w.add_resource(9, "other".to_string());
    w.add_resource(4, "second".to_string());
    assert_eq!(w.get_resource(4).unwrap(), "second");
    w.get_resource_mut(4).unwrap().push('!');
    assert_eq!(w.take_resource(4).unwrap(), "second!");
    assert_eq!(w.get_resource(4), None);
    assert_eq!(w.take_resource(4), None);
    assert_eq!(w.get_resource(9).unwrap(), "other");
}

#[test]
fn stage_runs_its_systems_in_registration_order_once() {
    let mut w: TestWorld = World::new();
    w.add_system(UPDATE, "s1".to_string(), 11);
    w.add_system(DRAW, "d".to_string(), 99);
    w.add_system(UPDATE, "s2".to_string(), 22);
    w.add_system(UPDATE, "s3".to_string(), 33);
    let mut run = w.run_system(UPDATE);
    let mut seen = vec![];
    while let Some(i) = run.next() {
        let s = w.systems.system(UPDATE, i);
        seen.push((s.name.clone(), s.run));
    }
    assert_eq!(
        seen,
        vec![("s1".to_string(), 11), ("s2".to_string(), 22), ("s3".to_string(), 33)]
    );
    assert_eq!(run.next(), None);
    let mut empty = w.run_system(START);
    assert_eq!(empty.next(), None);
}

#[test]
fn spawned_entities_get_distinct_ids() {
    let w: TestWorld = World::new();
    let a = w.spawn();
    let b = w.spawn();
    assert_ne!(a.id, b.id);
}

#[test]
fn registering_again_keeps_other_lookups() {
    let mut r: Registry<&str> = Registry::new();
    r.register(1, "one");
    r.register(2, "two");
    r.register(1, "one again");
    r.register(1, "one again");
    assert_eq!(r.lookup(1), Some(&"one again"));
    assert_eq!(r.lookup(2), Some(&"two"));
    assert_eq!(r.lookup(3), None);
    assert!(r.contains(2));
    assert!(!r.contains(3));
}

#[test]
fn engine_starts_with_init_and_builds_up() {
    let e: Engine<i32, String, u32> = Engine::new(1)
        .add_system(START, "start".to_string(), 2)
        .add_resource(3, "r".to_string());
    assert_eq!(e.world.systems.count(INIT), 1);
    assert_eq!(e.world.systems.system(INIT, 0).name, "init");
    assert_eq!(e.world.systems.system(INIT, 0).run, 1);
    assert_eq!(e.world.systems.system(START, 0).run, 2);
    assert_eq!(e.world.get_resource(3).unwrap(), "r");
}
