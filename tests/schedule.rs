use jelly_engine::{
    fetch, release, setup, Access, Action, BorrowError, Component, Engine, FetchError, Fetched,
    Phase, Resource, Transaction, World,
};

#[derive(Debug, Clone, PartialEq)]
struct Tag(u64);

impl Component for Tag {
    fn spec_kind(&self) -> u64 {
        self.0
    }

    fn kind(&self) -> u64 {
        self.0
    }
}

impl Resource for Tag {
    fn spec_kind(&self) -> u64 {
        self.0
    }

    fn kind(&self) -> u64 {
        self.0
    }
}

/// Drives the scheduler as a host would, recording what it was asked to do.
fn drive(engine: &mut Engine<&'static str>, quit_after: usize) -> Vec<String> {
    let mut log = Vec::new();
    let mut updates = 0usize;
    loop {
        let action = engine.next_action();
        let answer = match action {
            Action::InitSystem(i) => {
                log.push(format!("init {}", engine.system_mut(i)));
                Transaction::Continue
            }
            Action::EnterScene => {
                log.push(String::from("enter"));
                Transaction::Continue
            }
            Action::RunSystem(i) => {
                log.push(format!("run {}", engine.system_mut(i)));
                Transaction::Continue
            }
            Action::UpdateScene => {
                log.push(String::from("update"));
                updates += 1;
                if updates == quit_after {
                    Transaction::Quit
                } else {
                    Transaction::Continue
                }
            }
            Action::ExitScene => {
                log.push(String::from("exit"));
                Transaction::Continue
            }
            Action::DisposeSystem(i) => {
                log.push(format!("dispose {}", engine.system_mut(i)));
                Transaction::Continue
            }
            Action::Finished => break,
        };
        engine.complete(answer);
    }
    log
}

#[test]
fn systems_init_run_and_dispose_in_registration_order() {
    let mut engine = Engine::new().with_system("s1").with_system("s2");
    let log = drive(&mut engine, 2);
    let expected: Vec<&str> = vec![
        "init s1", "init s2", "enter", "run s1", "run s2", "update", "run s1", "run s2", "update",
        "exit", "dispose s1", "dispose s2",
    ];
    assert_eq!(log, expected);
    assert_eq!(engine.current_phase(), Phase::Dispose(2));
}

#[test]
fn run_loop_stops_at_first_quit() {
    let mut engine = Engine::new().with_system("only");
    let log = drive(&mut engine, 1);
    assert_eq!(log, vec!["init only", "enter", "run only", "update", "exit", "dispose only"]);
}

#[test]
fn engine_without_systems_still_cycles_the_scene() {
    let mut engine: Engine<&'static str> = Engine::new();
    let log = drive(&mut engine, 3);
    assert_eq!(log, vec!["enter", "update", "update", "update", "exit"]);
}

#[test]
fn setup_registers_component_tables_once() {
    let mut w: World<Tag, Tag> = World::new();
    let e = w.build_entity().build();
    w.insert_component(&e, Tag(1));
    let data = vec![Access::ReadSet(1), Access::WriteSet(2), Access::Entities, Access::ReadResource(9)];
    setup(&mut w, &data);
    setup(&mut w, &data);
    assert!(w.is_registered(1));
    assert!(w.is_registered(2));
    assert!(!w.is_registered(9));
    let g = w.get_components(1).unwrap();
    assert_eq!(w.components(&g).get(&e), Some(&Tag(1)));
    w.release_components(g);
}

#[test]
fn fetch_resolves_in_order_and_release_frees() {
    let mut w: World<Tag, Tag> = World::new();
    w.insert_resource(Tag(7));
    let data = vec![Access::ReadSet(1), Access::WriteSet(2), Access::Entities, Access::WriteResource(7)];
    setup(&mut w, &data);
    let guards = fetch(&mut w, &data).unwrap();
    assert_eq!(guards.len(), 4);
    assert!(matches!(guards[0], Fetched::ReadSet(ref g) if g.kind() == 1));
    assert!(matches!(guards[1], Fetched::WriteSet(ref g) if g.kind() == 2));
    assert!(matches!(guards[2], Fetched::Entities));
    assert!(matches!(guards[3], Fetched::WriteResource(_)));
    assert_eq!(w.get_components_mut(1).unwrap_err(), BorrowError::AlreadyBorrowed);
    release(&mut w, guards);
    let again = fetch(&mut w, &data).unwrap();
    release(&mut w, again);
    assert_eq!(w.component_lock(1).unwrap().readers, 0);
    assert!(!w.component_lock(2).unwrap().writing);
    assert!(!w.resource_lock(7).unwrap().writing);
}

#[test]
fn fetch_fails_fast_on_aliasing_within_one_shape() {
    let mut w: World<Tag, Tag> = World::new();
    let data = vec![Access::WriteSet(1), Access::ReadSet(2), Access::WriteSet(1)];
    setup(&mut w, &data);
    let err = fetch(&mut w, &data).unwrap_err();
    assert_eq!(err, FetchError { index: 2, error: BorrowError::AlreadyBorrowed });
    assert!(!w.component_lock(1).unwrap().writing);
    assert_eq!(w.component_lock(2).unwrap().readers, 0);
    let ok = fetch(&mut w, &vec![Access::WriteSet(1)]).unwrap();
    release(&mut w, ok);
}

#[test]
fn two_reads_of_one_kind_in_one_shape_are_allowed() {
    let mut w: World<Tag, Tag> = World::new();
    let data = vec![Access::ReadSet(1), Access::ReadSet(1)];
    setup(&mut w, &data);
    let guards = fetch(&mut w, &data).unwrap();
    assert_eq!(w.component_lock(1).unwrap().readers, 2);
    release(&mut w, guards);
    assert_eq!(w.component_lock(1).unwrap().readers, 0);
}

#[test]
fn fetch_of_unregistered_resource_fails() {
    let mut w: World<Tag, Tag> = World::new();
    let data = vec![Access::Entities, Access::ReadResource(5)];
    let err = fetch(&mut w, &data).unwrap_err();
    assert_eq!(err, FetchError { index: 1, error: BorrowError::Unregistered });
}
