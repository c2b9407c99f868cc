use std::cell::RefCell;
use std::rc::Rc;
use xecs::stage::{Pass, Stage};
use xecs::system::{Errors, Run, ScheduleError, SystemId, END_ID, ERRORS_ID};
use xecs::world::World;

type Log = Rc<RefCell<Vec<String>>>;

struct Probe {
    name: &'static str,
    log: Log,
    fail_init: bool,
    fail_run: bool,
}

impl Run for Probe {
    fn initialize(&mut self, _world: &mut World, _errors: &Errors) -> Result<(), String> {
        self.log.borrow_mut().push(format!("init {}", self.name));
        if self.fail_init {
            Err(format!("{} failed to start", self.name))
        } else {
            Ok(())
        }
    }

    fn run(&mut self, _world: &mut World, _errors: &Errors) -> Result<(), String> {
        self.log.borrow_mut().push(format!("run {}", self.name));
        if self.fail_run {
            Err(format!("{} failed", self.name))
        } else {
            Ok(())
        }
    }
}

fn probe(name: &'static str, log: &Log) -> Box<dyn Run> {
    Box::new(Probe { name, log: log.clone(), fail_init: false, fail_run: false })
}

fn new_log() -> Log {
    Rc::new(RefCell::new(Vec::new()))
}

fn take(log: &Log) -> Vec<String> {
    log.borrow_mut().drain(..).collect()
}

fn position(order: &Vec<SystemId>, id: SystemId) -> usize {
    let mut at = 0;
    while at < order.len() {
        if order[at] == id {
            return at;
        }
        at += 1;
    }
    panic!("system {} is not in the order", id)
}

#[test]
fn a_new_stage_holds_the_inactive_error_registry() {
    let mut stage = Stage::new();
    assert!(stage.has_system_dyn(ERRORS_ID));
    assert!(!stage.has_system_dyn(END_ID));
    assert!(!stage.has_system_dyn(7));
    assert!(stage.run_queue().is_empty());
    assert_eq!(stage.run().executed, vec![]);
    assert_eq!(stage.run_queue(), &vec![ERRORS_ID]);
    assert_eq!(stage.errors_ref().fetch_error_dyn(ERRORS_ID), None);
}

#[test]
fn a_pass_reports_the_hooks_it_called() {
    let log = new_log();
    let mut stage = Stage::new();
    stage.add_system_dyn(13, vec![12], false, probe("c", &log));
    stage.add_system_dyn(12, vec![11], false, probe("b", &log));
    stage.add_system_dyn(11, vec![], false, probe("a", &log));
    assert_eq!(
        stage.run(),
        Pass { initialized: vec![ERRORS_ID, 13, 12, 11], executed: vec![11, 12, 13] }
    );
    assert_eq!(stage.run(), Pass { initialized: vec![], executed: vec![11, 12, 13] });
    take(&log);
    stage.add_system_dyn(14, vec![], false, probe("d", &log));
    stage.add_system_dyn(14, vec![13], false, probe("e", &log));
    assert_eq!(
        stage.run(),
        Pass { initialized: vec![14], executed: vec![11, 12, 13, 14] }
    );
    assert_eq!(take(&log), vec!["init e", "run a", "run b", "run c", "run e"]);
}

#[test]
fn dependencies_come_first_whatever_the_registration_order() {
    let log = new_log();
    let mut stage = Stage::new();
    stage.add_system_dyn(13, vec![12], false, probe("c", &log));
    stage.add_system_dyn(12, vec![11], false, probe("b", &log));
    stage.add_system_dyn(11, vec![], false, probe("a", &log));
    assert_eq!(stage.run().executed, vec![11, 12, 13]);
    assert_eq!(stage.run_queue(), &vec![ERRORS_ID, 11, 12, 13]);
    assert_eq!(
        take(&log),
        vec!["init c", "init b", "init a", "run a", "run b", "run c"]
    );
}

#[test]
fn systems_behind_the_barrier_run_after_all_others() {
    let log = new_log();
    let mut stage = Stage::new();
    stage.add_system_dyn(21, vec![END_ID], false, probe("late", &log));
    stage.add_system_dyn(22, vec![21], false, probe("later", &log));
    stage.add_system_dyn(23, vec![], false, probe("early", &log));
    stage.add_system_dyn(24, vec![23], false, probe("early too", &log));
    assert_eq!(stage.run().executed, vec![23, 24, 21, 22]);
    let order = stage.run_queue().clone();
    assert_eq!(order, vec![ERRORS_ID, 23, 24, 21, 22]);
    assert!(position(&order, 23) < position(&order, 21));
    assert!(position(&order, 24) < position(&order, 21));
    assert!(position(&order, ERRORS_ID) < position(&order, 21));
    assert!(position(&order, 21) < position(&order, 22));
}

#[test]
fn chain_with_barrier_keeps_its_order_over_two_passes() {
    let log = new_log();
    let mut stage = Stage::new();
    stage.add_system_dyn(31, vec![], false, probe("start", &log));
    stage.add_system_dyn(32, vec![31], false, probe("print", &log));
    stage.add_system_dyn(33, vec![END_ID], false, probe("after all", &log));
    stage.add_system_dyn(34, vec![END_ID], false, probe("last of end", &log));
    assert_eq!(stage.run().executed, vec![31, 32, 33, 34]);
    let first = stage.run_queue().clone();
    assert_eq!(first, vec![ERRORS_ID, 31, 32, 33, 34]);
    assert_eq!(stage.run().executed, vec![31, 32, 33, 34]);
    assert_eq!(stage.run_queue(), &first);
}

#[test]
fn a_cycle_is_reported_and_nothing_runs() {
    let log = new_log();
    let mut stage = Stage::new();
    stage.add_system_dyn(41, vec![42], false, probe("a", &log));
    stage.add_system_dyn(42, vec![43], false, probe("b", &log));
    stage.add_system_dyn(43, vec![41], false, probe("c", &log));
    stage.add_system_dyn(44, vec![], false, probe("free", &log));
    assert_eq!(stage.try_update(), Err(ScheduleError::Cycle));
    assert!(take(&log).is_empty());
    assert!(stage.run_queue().is_empty());
    assert!(stage.has_system_dyn(41));
    assert_eq!(stage.try_update(), Err(ScheduleError::Cycle));
}

#[test]
fn a_system_that_depends_on_itself_is_a_cycle() {
    let log = new_log();
    let mut stage = Stage::new();
    stage.add_system_dyn(45, vec![45], false, probe("self", &log));
    assert_eq!(stage.try_update(), Err(ScheduleError::Cycle));
    assert!(take(&log).is_empty());
}

#[test]
fn a_cycle_behind_the_barrier_is_reported() {
    let log = new_log();
    let mut stage = Stage::new();
    stage.add_system_dyn(46, vec![END_ID, 47], false, probe("a", &log));
    stage.add_system_dyn(47, vec![46], false, probe("b", &log));
    assert_eq!(stage.try_update(), Err(ScheduleError::Cycle));
}

#[test]
fn an_unknown_dependency_is_reported_with_its_system() {
    let log = new_log();
    let mut stage = Stage::new();
    stage.add_system_dyn(51, vec![], false, probe("a", &log));
    stage.add_system_dyn(52, vec![51, 99], false, probe("b", &log));
    assert_eq!(
        stage.try_update(),
        Err(ScheduleError::UnknownDependency { system: 52, dependency: 99 })
    );
    assert!(take(&log).is_empty());

    stage.add_system_dyn(99, vec![], false, probe("found", &log));
    assert_eq!(stage.run().executed, vec![51, 99, 52]);
    assert_eq!(stage.run_queue(), &vec![ERRORS_ID, 51, 99, 52]);
}

#[test]
fn a_system_under_the_barriers_identity_is_reported() {
    let log = new_log();
    let mut stage = Stage::new();
    stage.add_system_dyn(61, vec![], false, probe("a", &log));
    stage.add_system_dyn(END_ID, vec![], false, probe("barrier", &log));
    assert!(stage.has_system_dyn(END_ID));
    assert_eq!(stage.try_update(), Err(ScheduleError::BarrierRegistered));
    assert!(take(&log).is_empty());
}

#[test]
fn update_derives_the_order_without_running_hooks() {
    let log = new_log();
    let mut stage = Stage::new();
    stage.add_system_dyn(72, vec![71], false, probe("b", &log));
    stage.add_system_dyn(71, vec![], false, probe("a", &log));
    assert_eq!(stage.try_update(), Ok(()));
    assert_eq!(stage.run_queue(), &vec![ERRORS_ID, 71, 72]);
    assert!(take(&log).is_empty());
    stage.update();
    assert_eq!(stage.run_queue(), &vec![ERRORS_ID, 71, 72]);
    assert_eq!(stage.run().executed, vec![71, 72]);
    assert_eq!(take(&log), vec!["init b", "init a", "run a", "run b"]);
}

#[test]
fn repeated_names_among_the_dependencies_count_once() {
    let log = new_log();
    let mut stage = Stage::new();
    stage.add_system_dyn(81, vec![], false, probe("a", &log));
    stage.add_system_dyn(82, vec![81, 81, END_ID, 81, END_ID], false, probe("b", &log));
    assert!(stage.depends_on(82, 81));
    assert!(stage.depends_on(82, END_ID));
    assert!(!stage.depends_on(82, 82));
    assert!(!stage.depends_on(81, 82));
    assert!(!stage.depends_on(83, 81));
    assert_eq!(stage.run().executed, vec![81, 82]);
}

#[test]
fn registering_again_replaces_the_system_in_its_place() {
    let log = new_log();
    let mut stage = Stage::new();
    stage.add_system_dyn(91, vec![], false, probe("old", &log));
    stage.add_system_dyn(92, vec![], false, probe("other", &log));
    assert_eq!(stage.run().executed, vec![91, 92]);
    assert_eq!(take(&log), vec!["init old", "init other", "run old", "run other"]);

    stage.deactivate_dyn(91);
    stage.add_system_dyn(91, vec![92], false, probe("new", &log));
    assert_eq!(stage.run().executed, vec![92, 91]);
    assert_eq!(stage.run_queue(), &vec![ERRORS_ID, 92, 91]);
    assert_eq!(take(&log), vec!["init new", "run other", "run new"]);
}

#[test]
fn failures_of_both_hooks_are_kept_and_do_not_stop_the_pass() {
    let log = new_log();
    let mut stage = Stage::new();
    stage.add_system_dyn(
        101,
        vec![],
        false,
        Box::new(Probe { name: "a", log: log.clone(), fail_init: true, fail_run: false }),
    );
    stage.add_system_dyn(
        102,
        vec![101],
        false,
        Box::new(Probe { name: "b", log: log.clone(), fail_init: false, fail_run: true }),
    );
    stage.add_system_dyn(103, vec![102], false, probe("c", &log));
    assert_eq!(stage.run().executed, vec![101, 102, 103]);
    assert_eq!(
        take(&log),
        vec!["init a", "init b", "init c", "run a", "run b", "run c"]
    );
    let errors = stage.errors_ref();
    assert_eq!(errors.fetch_error_dyn(101), Some(&"a failed to start".to_string()));
    assert_eq!(errors.fetch_error_dyn(102), Some(&"b failed".to_string()));
    assert_eq!(errors.fetch_error_dyn(103), None);
}

#[test]
fn the_world_of_a_stage_can_be_read_and_changed() {
    let mut world = World::new();
    let mut column = xecs::components::Column::new();
    column.insert(2, 20u8);
    column.insert(3, 30u8);
    world.register(5, Box::new(column));
    let mut stage = Stage::from_world(world);
    assert!(stage.has_system_dyn(ERRORS_ID));
    assert_eq!(stage.world_ref().count(5), 2);
    assert!(stage.world_mut().detach(5, 2));
    assert_eq!(stage.world_ref().count(5), 1);
    assert!(stage.world_ref().has(5, 3));
    assert!(!stage.world_ref().has(5, 2));
}

#[test]
fn update_rebuilds_the_order_of_a_stage_that_admits_one() {
    let log = new_log();
    let mut stage = Stage::new();
    stage.add_system_dyn(302, vec![301, END_ID], false, probe("b", &log));
    stage.add_system_dyn(301, vec![], false, probe("a", &log));
    stage.add_system_dyn(303, vec![], false, probe("c", &log));
    stage.update();
    assert_eq!(stage.run_queue(), &vec![ERRORS_ID, 301, 303, 302]);
    assert!(take(&log).is_empty());
    assert_eq!(
        stage.run(),
        Pass { initialized: vec![ERRORS_ID, 302, 301, 303], executed: vec![301, 303, 302] }
    );
}

#[test]
fn a_pass_follows_a_stage_that_was_asked_first() {
    let log = new_log();
    let mut stage = Stage::new();
    stage.add_system_dyn(311, vec![312], false, probe("a", &log));
    assert_eq!(
        stage.try_update(),
        Err(ScheduleError::UnknownDependency { system: 311, dependency: 312 })
    );
    assert!(stage.run_queue().is_empty());
    stage.add_system_dyn(312, vec![], false, probe("b", &log));
    assert_eq!(stage.try_update(), Ok(()));
    assert_eq!(stage.run().executed, vec![312, 311]);
    assert_eq!(take(&log), vec!["init a", "init b", "run b", "run a"]);
}
