use xecs::schedule::adjacency::build_adjacency;
use xecs::schedule::find_index;
use xecs::schedule::order::{compute_order, find_zero};
use xecs::system::{End, ErrorsSystem, Run, ScheduleError, SystemId, SystemInfo, END_ID};

fn info(id: SystemId, dependencies: Vec<SystemId>) -> SystemInfo {
    let instance: Box<dyn Run> = Box::new(ErrorsSystem);
    SystemInfo::new(id, dependencies, false, instance)
}

#[test]
fn find_zero_takes_the_first_ready_system() {
    assert_eq!(find_zero(&vec![]), None);
    assert_eq!(find_zero(&vec![Some(2), None, Some(1)]), None);
    assert_eq!(find_zero(&vec![Some(2), None, Some(0), Some(0)]), Some(2));
    assert_eq!(find_zero(&vec![Some(0)]), Some(0));
    assert_eq!(find_zero(&vec![None, None]), None);
}

#[test]
fn find_index_goes_by_identity() {
    let systems = vec![info(5, vec![]), info(9, vec![5]), info(7, vec![])];
    assert_eq!(find_index(&systems, 5), Some(0));
    assert_eq!(find_index(&systems, 9), Some(1));
    assert_eq!(find_index(&systems, 7), Some(2));
    assert_eq!(find_index(&systems, 6), None);
    assert_eq!(find_index(&vec![], 5), None);
}

#[test]
fn the_inverse_adjacency_lists_the_consumers_of_each_producer() {
    let systems = vec![
        info(1, vec![]),
        info(2, vec![1, END_ID]),
        info(3, vec![2, 1]),
        info(4, vec![END_ID]),
    ];
    let adjacency = build_adjacency(&systems).ok().unwrap();
    assert_eq!(adjacency.consumers, vec![vec![1, 2], vec![2], vec![], vec![]]);
    assert_eq!(adjacency.barrier, vec![1, 3]);
}

#[test]
fn the_inverse_adjacency_reports_the_first_unknown_dependency() {
    let systems = vec![info(1, vec![]), info(2, vec![1, 8, 9]), info(3, vec![7])];
    assert_eq!(
        build_adjacency(&systems).err(),
        Some(ScheduleError::UnknownDependency { system: 2, dependency: 8 })
    );
}

#[test]
fn the_order_of_an_empty_registry_is_empty() {
    assert_eq!(compute_order(&vec![]), Ok(vec![]));
}

#[test]
fn the_order_puts_the_barrier_dependents_last() {
    let systems = vec![
        info(4, vec![3]),
        info(3, vec![END_ID]),
        info(2, vec![1]),
        info(1, vec![]),
        info(5, vec![4, 2]),
    ];
    assert_eq!(compute_order(&systems), Ok(vec![1, 2, 3, 4, 5]));
}

#[test]
fn the_order_of_a_diamond_respects_both_branches() {
    let systems = vec![
        info(14, vec![12, 13]),
        info(13, vec![11]),
        info(12, vec![11]),
        info(11, vec![]),
    ];
    assert_eq!(compute_order(&systems), Ok(vec![11, 13, 12, 14]));
}

#[test]
fn the_order_fails_as_the_registry_is_broken() {
    assert_eq!(
        compute_order(&vec![info(1, vec![]), info(END_ID, vec![])]),
        Err(ScheduleError::BarrierRegistered)
    );
    assert_eq!(
        compute_order(&vec![info(END_ID, vec![9])]),
        Err(ScheduleError::BarrierRegistered)
    );
    assert_eq!(
        compute_order(&vec![info(1, vec![2])]),
        Err(ScheduleError::UnknownDependency { system: 1, dependency: 2 })
    );
    assert_eq!(
        compute_order(&vec![info(1, vec![2]), info(2, vec![1]), info(3, vec![])]),
        Err(ScheduleError::Cycle)
    );
    assert_eq!(
        compute_order(&vec![info(1, vec![END_ID, 2]), info(2, vec![END_ID, 1])]),
        Err(ScheduleError::Cycle)
    );
}

#[test]
fn the_built_in_systems_have_hooks_that_succeed() {
    let mut world = xecs::world::World::new();
    let errors = xecs::system::Errors::new();
    let mut end: Box<dyn Run> = Box::new(End);
    assert_eq!(end.initialize(&mut world, &errors), Ok(()));
    assert_eq!(end.run(&mut world, &errors), Ok(()));
    assert_eq!(errors.fetch_error::<End>(), None);
}
