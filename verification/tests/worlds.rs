use xecs::components::Column;
use xecs::world::{ComponentTypeId, World};

const NAMES: ComponentTypeId = 1;
const AGES: ComponentTypeId = 2;

fn names() -> Column<String> {
    let mut column = Column::new();
    column.insert(1, "ann".to_string());
    column.insert(4, "bob".to_string());
    column.insert(6, "cat".to_string());
    column
}

fn ages() -> Column<u32> {
    let mut column = Column::new();
    column.insert(4, 40);
    column
}

#[test]
fn a_new_world_has_no_columns() {
    let world = World::new();
    assert!(!world.has_column(NAMES));
    assert!(!world.has(NAMES, 1));
    assert_eq!(world.count(NAMES), 0);
}

#[test]
fn register_keeps_one_column_per_type() {
    let mut world = World::new();
    assert!(world.register(NAMES, Box::new(names())).is_none());
    assert!(world.register(AGES, Box::new(ages())).is_none());
    assert!(world.has_column(NAMES));
    assert!(world.has_column(AGES));
    assert_eq!(world.count(NAMES), 3);
    assert_eq!(world.count(AGES), 1);

    let rejected = world.register(NAMES, Box::new(ages()));
    assert!(rejected.is_some());
    assert_eq!(rejected.unwrap().count(), 1);
    assert_eq!(world.count(NAMES), 3);
}

#[test]
fn has_looks_into_the_column_of_the_type() {
    let mut world = World::new();
    world.register(NAMES, Box::new(names()));
    world.register(AGES, Box::new(ages()));
    assert!(world.has(NAMES, 1));
    assert!(world.has(NAMES, 4));
    assert!(world.has(AGES, 4));
    assert!(!world.has(AGES, 1));
    assert!(!world.has(3, 4));
}

#[test]
fn detach_removes_from_one_column_only() {
    let mut world = World::new();
    world.register(NAMES, Box::new(names()));
    world.register(AGES, Box::new(ages()));

    assert!(world.detach(NAMES, 4));
    assert!(!world.has(NAMES, 4));
    assert!(world.has(NAMES, 1));
    assert!(world.has(NAMES, 6));
    assert_eq!(world.count(NAMES), 2);
    assert!(world.has(AGES, 4));
    assert_eq!(world.count(AGES), 1);

    assert!(!world.detach(NAMES, 4));
    assert!(!world.detach(NAMES, 99));
    assert!(!world.detach(5, 1));
    assert_eq!(world.count(NAMES), 2);
}

#[test]
fn types_lists_the_columns_in_registration_order() {
    let mut world = World::new();
    assert!(world.types().is_empty());
    world.register(AGES, Box::new(ages()));
    world.register(NAMES, Box::new(names()));
    world.register(AGES, Box::new(ages()));
    assert_eq!(world.types(), vec![AGES, NAMES]);
}
