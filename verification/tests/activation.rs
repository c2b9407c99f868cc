use std::cell::RefCell;
use std::rc::Rc;
use xecs::stage::Stage;
use xecs::system::{End, Errors, Run, ScheduleError, System, SystemId, END_ID, ERRORS_ID};
use xecs::world::World;

type Log = Rc<RefCell<Vec<String>>>;

struct Probe {
    name: &'static str,
    log: Log,
}

impl Run for Probe {
    fn initialize(&mut self, _world: &mut World, _errors: &Errors) -> Result<(), String> {
        self.log.borrow_mut().push(format!("init {}", self.name));
        Ok(())
    }

    fn run(&mut self, _world: &mut World, _errors: &Errors) -> Result<(), String> {
        self.log.borrow_mut().push(format!("run {}", self.name));
        Ok(())
    }
}

fn probe(name: &'static str, log: &Log) -> Box<dyn Run> {
    Box::new(Probe { name, log: log.clone() })
}

fn new_log() -> Log {
    Rc::new(RefCell::new(Vec::new()))
}

fn take(log: &Log) -> Vec<String> {
    log.borrow_mut().drain(..).collect()
}

struct First;

struct Second;

struct Third;

impl System for First {
    const ID: SystemId = 201;

    fn dependencies() -> Vec<SystemId> {
        vec![]
    }
}

impl System for Second {
    const ID: SystemId = 202;

    fn dependencies() -> Vec<SystemId> {
        vec![First::ID]
    }
}

impl System for Third {
    const ID: SystemId = 203;

    fn dependencies() -> Vec<SystemId> {
        vec![Second::ID, Second::ID]
    }
}

#[test]
fn a_deactivated_system_is_skipped_and_keeps_its_place() {
    let log = new_log();
    let mut stage = Stage::new();
    stage.add_system_dyn(111, vec![], false, probe("a", &log));
    stage.add_system_dyn(112, vec![111], false, probe("b", &log));
    stage.add_system_dyn(113, vec![112], false, probe("c", &log));
    assert_eq!(stage.run().executed, vec![111, 112, 113]);
    let order = stage.run_queue().clone();
    take(&log);

    stage.deactivate_dyn(112);
    assert!(stage.has_system_dyn(112));
    assert!(stage.depends_on(113, 112));
    assert_eq!(stage.run_queue(), &order);
    assert_eq!(stage.run().executed, vec![111, 113]);
    assert_eq!(stage.run_queue(), &order);
    assert_eq!(take(&log), vec!["run a", "run c"]);

    stage.activate_dyn(112);
    assert_eq!(stage.run().executed, vec![111, 112, 113]);
    assert_eq!(stage.run_queue(), &order);
    assert_eq!(take(&log), vec!["run a", "run b", "run c"]);
}

#[test]
fn a_system_deactivated_before_its_first_pass_is_still_initialized() {
    let log = new_log();
    let mut stage = Stage::new();
    stage.add_system_dyn(121, vec![], false, probe("a", &log));
    stage.deactivate_dyn(121);
    assert_eq!(stage.run().executed, vec![]);
    assert_eq!(take(&log), vec!["init a"]);
    assert_eq!(stage.run().executed, vec![]);
    assert!(take(&log).is_empty());
}

#[test]
fn the_error_registry_can_be_activated() {
    let mut stage = Stage::new();
    stage.activate_dyn(ERRORS_ID);
    assert_eq!(stage.run().executed, vec![ERRORS_ID]);
    stage.deactivate_dyn(ERRORS_ID);
    assert_eq!(stage.run().executed, vec![]);
}

#[test]
fn a_once_system_runs_in_one_pass_and_leaves() {
    let log = new_log();
    let mut stage = Stage::new();
    stage.add_system_dyn(131, vec![], false, probe("always", &log));
    stage.add_system_dyn(132, vec![131], true, probe("once", &log));
    assert!(stage.has_system_dyn(132));
    assert_eq!(stage.run().executed, vec![131, 132]);
    assert_eq!(take(&log), vec!["init always", "init once", "run always", "run once"]);
    assert!(!stage.has_system_dyn(132));
    assert!(stage.has_system_dyn(131));

    assert_eq!(stage.run().executed, vec![131]);
    assert_eq!(stage.run_queue(), &vec![ERRORS_ID, 131]);
    assert_eq!(take(&log), vec!["run always"]);
}

#[test]
fn an_inactive_once_system_waits_for_its_first_active_pass() {
    let log = new_log();
    let mut stage = Stage::new();
    stage.add_system_dyn(141, vec![], true, probe("once", &log));
    stage.deactivate_dyn(141);
    assert_eq!(stage.run().executed, vec![]);
    assert!(stage.has_system_dyn(141));
    assert_eq!(take(&log), vec!["init once"]);

    stage.activate_dyn(141);
    assert_eq!(stage.run().executed, vec![141]);
    assert!(!stage.has_system_dyn(141));
    assert_eq!(take(&log), vec!["run once"]);
    assert_eq!(stage.run().executed, vec![]);
    assert!(take(&log).is_empty());
}

#[test]
fn a_dependency_on_a_once_system_that_left_is_unknown() {
    let log = new_log();
    let mut stage = Stage::new();
    stage.add_system_dyn(151, vec![], true, probe("once", &log));
    stage.add_system_dyn(152, vec![151], false, probe("needs once", &log));
    assert_eq!(stage.run().executed, vec![151, 152]);
    assert_eq!(
        stage.try_update(),
        Err(ScheduleError::UnknownDependency { system: 152, dependency: 151 })
    );
}

#[test]
fn typed_registration_goes_by_the_identity_of_the_type() {
    let mut stage = Stage::new();
    assert!(!stage.has_system::<First>());
    stage.add_system(Third).add_system(Second).add_system(First);
    assert!(stage.has_system::<First>());
    assert!(stage.has_system::<Second>());
    assert!(stage.has_system_dyn(203));
    assert!(!stage.has_system::<End>());
    assert!(stage.depends_on(203, 202));
    assert_eq!(stage.run().executed, vec![201, 202, 203]);

    stage.deactivate::<Second>();
    assert_eq!(stage.run().executed, vec![201, 203]);
    stage.activate::<Second>().deactivate::<First>();
    assert_eq!(stage.run().executed, vec![202, 203]);
}

#[test]
fn a_typed_once_system_leaves_after_its_pass() {
    let mut stage = Stage::new();
    stage.add_system(First).add_once_system(Second);
    assert_eq!(stage.run().executed, vec![201, 202]);
    assert!(!stage.has_system::<Second>());
    assert!(stage.has_system::<First>());
    assert_eq!(stage.run().executed, vec![201]);
}

#[test]
fn adding_and_removing_a_dependency_restores_the_schedule() {
    let mut stage = Stage::new();
    stage.add_system(First).add_system(Second).add_system(Third);
    assert_eq!(stage.run().executed, vec![201, 202, 203]);
    let before = stage.run_queue().clone();

    stage.add_dependency::<First, Third>();
    assert!(stage.depends_on(201, 203));
    assert_eq!(stage.try_update(), Err(ScheduleError::Cycle));

    stage.remove_dependency::<First, Third>();
    assert!(!stage.depends_on(201, 203));
    assert_eq!(stage.run().executed, vec![201, 202, 203]);
    assert_eq!(stage.run_queue(), &before);
}

#[test]
fn a_new_dependency_changes_the_order_at_the_next_pass() {
    let mut stage = Stage::new();
    stage.add_system(First);
    stage.add_system_dyn(210, vec![], false, Box::new(Second));
    assert_eq!(stage.run().executed, vec![201, 210]);

    stage.add_dependency::<First, End>();
    assert!(stage.depends_on(201, END_ID));
    assert_eq!(stage.run().executed, vec![210, 201]);
    assert_eq!(stage.run_queue(), &vec![ERRORS_ID, 210, 201]);

    stage.remove_dependency::<First, End>();
    assert_eq!(stage.run().executed, vec![201, 210]);
    assert_eq!(stage.run_queue(), &vec![ERRORS_ID, 201, 210]);
}

#[test]
fn removing_one_of_several_dependencies_keeps_the_others() {
    let mut stage = Stage::new();
    stage.add_system(First).add_system(Second);
    stage.add_system_dyn(220, vec![201, 202, END_ID], false, Box::new(Third));
    assert_eq!(stage.run().executed, vec![201, 202, 220]);
    stage.add_dependency::<Second, End>();
    assert_eq!(stage.run().executed, vec![201, 202, 220]);
    stage.remove_dependency::<Second, First>();
    assert!(!stage.depends_on(202, 201));
    assert!(stage.depends_on(202, END_ID));
    assert!(stage.depends_on(220, 201));
    assert_eq!(stage.run().executed, vec![201, 202, 220]);
}

#[test]
fn dependencies_can_be_edited_by_identity() {
    let log = new_log();
    let mut stage = Stage::new();
    stage.add_system_dyn(231, vec![], false, probe("a", &log));
    stage.add_system_dyn(232, vec![], false, probe("b", &log));
    assert_eq!(stage.run().executed, vec![231, 232]);

    stage.add_dependency_dyn(231, 232);
    assert!(stage.depends_on(231, 232));
    assert_eq!(stage.run().executed, vec![232, 231]);

    stage.add_dependency_dyn(232, 233);
    assert_eq!(
        stage.try_update(),
        Err(ScheduleError::UnknownDependency { system: 232, dependency: 233 })
    );
    stage.remove_dependency_dyn(232, 233);
    stage.remove_dependency_dyn(231, 232);
    assert!(!stage.depends_on(231, 232));
    assert_eq!(stage.run().executed, vec![231, 232]);
}
