use jelly_engine::{BorrowError, Component, Entities, Resource, World};

#[derive(Debug, Clone, PartialEq)]
enum Comp {
    Position(i32, i32),
    Health(u32),
}

const POSITION: u64 = 1;
const HEALTH: u64 = 2;
const UNUSED: u64 = 3;

impl Component for Comp {
    fn spec_kind(&self) -> u64 {
        self.kind()
    }

    fn kind(&self) -> u64 {
        match self {
            Comp::Position(..) => POSITION,
            Comp::Health(..) => HEALTH,
        }
    }
}

#[derive(Debug, Clone, PartialEq)]
enum Res {
    Score(u32),
    Name(String),
}

const SCORE: u64 = 10;
const NAME: u64 = 11;

impl Resource for Res {
    fn spec_kind(&self) -> u64 {
        self.kind()
    }

    fn kind(&self) -> u64 {
        match self {
            Res::Score(..) => SCORE,
            Res::Name(..) => NAME,
        }
    }
}

fn world() -> World<Comp, Res> {
    World::new()
}

#[test]
fn entity_ids_are_distinct_and_increasing() {
    let mut ids = Entities::new();
    let mut seen: Vec<u32> = Vec::new();
    for _ in 0..100 {
        let e = ids.create_entity();
        if let Some(p) = seen.last() {
            assert!(e.id() > *p);
        }
        assert!(!seen.contains(&e.id()));
        seen.push(e.id());
    }
    assert_eq!(seen[0], 0);
    assert_eq!(seen[99], 99);
}

#[test]
fn entity_ids_from_world_are_never_reused() {
    let mut w = world();
    let a = w.build_entity().build();
    w.insert_component(&a, Comp::Health(1));
    w.remove_entity(&a);
    let b = w.build_entity().build();
    let c = w.build_entity().build();
    assert_eq!((a.id(), b.id(), c.id()), (0, 1, 2));
}

#[test]
fn insert_then_read_yields_value_and_leaves_others() {
    let mut w = world();
    let a = w.build_entity().build();
    let b = w.build_entity().build();
    w.insert_component(&a, Comp::Position(1, 2));
    w.insert_component(&b, Comp::Position(5, 6));
    w.insert_component(&a, Comp::Position(3, 4));
    let g = w.get_components(POSITION).unwrap();
    let set = w.components(&g);
    assert_eq!(set.get(&a), Some(&Comp::Position(3, 4)));
    assert_eq!(set.get(&b), Some(&Comp::Position(5, 6)));
    assert_eq!(set.len(), 2);
    assert_eq!(set.entities(), vec![a, b]);
    w.release_components(g);
}

#[test]
fn insert_of_one_kind_leaves_other_kinds() {
    let mut w = world();
    let a = w.build_entity().build();
    w.insert_component(&a, Comp::Health(7));
    w.insert_component(&a, Comp::Position(0, 0));
    w.insert_component(&a, Comp::Position(8, 8));
    let g = w.get_components(HEALTH).unwrap();
    assert_eq!(w.components(&g).get(&a), Some(&Comp::Health(7)));
    assert_eq!(w.components(&g).len(), 1);
    w.release_components(g);
}

#[test]
fn discarded_builder_leaves_no_components() {
    let mut w = world();
    let kept = w.build_entity();
    let kept = kept.with(&mut w, Comp::Health(1)).build();
    let staged = w.build_entity();
    let staged = staged.with(&mut w, Comp::Health(2));
    let staged = staged.with(&mut w, Comp::Position(9, 9));
    let e = staged.entity();
    staged.discard(&mut w);
    let h = w.get_components(HEALTH).unwrap();
    assert_eq!(w.components(&h).get(&e), None);
    assert_eq!(w.components(&h).get(&kept), Some(&Comp::Health(1)));
    w.release_components(h);
    let p = w.get_components(POSITION).unwrap();
    assert_eq!(w.components(&p).len(), 0);
    w.release_components(p);
}

#[test]
fn built_entity_keeps_its_components() {
    let mut w = world();
    let b = w.build_entity();
    let b = b.with(&mut w, Comp::Health(3));
    let e = b.build();
    let h = w.get_components(HEALTH).unwrap();
    assert_eq!(w.components(&h).get(&e), Some(&Comp::Health(3)));
    w.release_components(h);
}

#[test]
fn write_refused_while_read_outstanding() {
    let mut w = world();
    w.register_component(POSITION);
    let r1 = w.get_components(POSITION).unwrap();
    assert_eq!(w.get_components_mut(POSITION).unwrap_err(), BorrowError::AlreadyBorrowed);
    let r2 = w.get_components(POSITION).unwrap();
    assert_eq!(w.component_lock(POSITION).unwrap().readers, 2);
    w.release_components(r1);
    assert_eq!(w.get_components_mut(POSITION).unwrap_err(), BorrowError::AlreadyBorrowed);
    w.release_components(r2);
    let wr = w.get_components_mut(POSITION).unwrap();
    w.release_components_mut(wr);
}

#[test]
fn read_refused_while_write_outstanding() {
    let mut w = world();
    w.register_component(HEALTH);
    let wr = w.get_components_mut(HEALTH).unwrap();
    assert_eq!(w.get_components(HEALTH).unwrap_err(), BorrowError::AlreadyBorrowed);
    assert_eq!(w.get_components_mut(HEALTH).unwrap_err(), BorrowError::AlreadyBorrowed);
    w.release_components_mut(wr);
    let r = w.get_components(HEALTH).unwrap();
    w.release_components(r);
}

#[test]
fn borrow_of_unregistered_kind_fails() {
    let mut w = world();
    assert_eq!(w.get_components(UNUSED).unwrap_err(), BorrowError::Unregistered);
    assert_eq!(w.get_components_mut(UNUSED).unwrap_err(), BorrowError::Unregistered);
    assert_eq!(w.get_resource(SCORE).unwrap_err(), BorrowError::Unregistered);
    assert_eq!(w.get_resource_mut(SCORE).unwrap_err(), BorrowError::Unregistered);
}

#[test]
fn register_is_idempotent() {
    let mut w = world();
    let a = w.build_entity().build();
    w.insert_component(&a, Comp::Health(4));
    w.register_component(HEALTH);
    assert!(w.is_registered(HEALTH));
    let g = w.get_components(HEALTH).unwrap();
    assert_eq!(w.components(&g).get(&a), Some(&Comp::Health(4)));
    w.release_components(g);
}

#[test]
fn write_guard_updates_and_removes() {
    let mut w = world();
    let a = w.build_entity().build();
    let b = w.build_entity().build();
    w.insert_component(&a, Comp::Health(1));
    w.insert_component(&b, Comp::Health(2));
    let g = w.get_components_mut(HEALTH).unwrap();
    w.write_component(&g, &a, Comp::Health(10));
    assert_eq!(w.remove_component(&g, &b), Some(Comp::Health(2)));
    assert_eq!(w.remove_component(&g, &b), None);
    assert_eq!(w.components_for_write(&g).get(&a), Some(&Comp::Health(10)));
    w.release_components_mut(g);
}

#[test]
fn remove_entity_clears_every_table() {
    let mut w = world();
    let a = w.build_entity().build();
    let b = w.build_entity().build();
    w.insert_component(&a, Comp::Health(1));
    w.insert_component(&a, Comp::Position(1, 1));
    w.insert_component(&b, Comp::Health(2));
    w.remove_entity(&a);
    let h = w.get_components(HEALTH).unwrap();
    let p = w.get_components(POSITION).unwrap();
    assert_eq!(w.components(&h).get(&a), None);
    assert_eq!(w.components(&h).get(&b), Some(&Comp::Health(2)));
    assert_eq!(w.components(&p).len(), 0);
    w.release_components(h);
    w.release_components(p);
}

#[test]
fn resources_are_singletons_replaced_wholesale() {
    let mut w = world();
    w.insert_resource(Res::Score(1));
    w.insert_resource(Res::Name(String::from("jelly")));
    w.insert_resource(Res::Score(5));
    let g = w.get_resource(SCORE).unwrap();
    assert_eq!(w.resource(&g), &Res::Score(5));
    assert_eq!(w.get_resource_mut(SCORE).unwrap_err(), BorrowError::AlreadyBorrowed);
    w.release_resource(g);
    let m = w.get_resource_mut(NAME).unwrap();
    assert_eq!(w.write_resource(&m, Res::Name(String::from("pong"))), Res::Name(String::from("jelly")));
    assert_eq!(w.resource_for_write(&m), &Res::Name(String::from("pong")));
    w.release_resource_mut(m);
}

#[test]
fn built_entity_keeps_components_of_every_kind() {
    let mut w = world();
    let b = w.build_entity();
    let b = b.with(&mut w, Comp::Position(2, 3));
    let b = b.with(&mut w, Comp::Health(9));
    let e = b.build();
    let p = w.get_components(POSITION).unwrap();
    let h = w.get_components(HEALTH).unwrap();
    assert_eq!(w.components(&p).get(&e), Some(&Comp::Position(2, 3)));
    assert_eq!(w.components(&h).get(&e), Some(&Comp::Health(9)));
    w.release_components(p);
    w.release_components(h);
}
