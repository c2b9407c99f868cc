use std::cell::{Cell, RefCell};
use std::rc::Rc;
use xecs::components::Column;
use xecs::stage::Stage;
use xecs::system::{End, Errors, System, SystemId, END_ID, ERRORS_ID};
use xecs::world::{ComponentTypeId, World};

type Log = Rc<RefCell<Vec<String>>>;

const CHARS: ComponentTypeId = 7;

const START: SystemId = 20;
const PRINT: SystemId = 21;
const NAME: SystemId = 22;
const AGE: SystemId = 23;
const AFTER_ALL: SystemId = 24;
const LAST_OF_END: SystemId = 25;

struct StartSystem {
    log: Log,
}

struct PrintSystem {
    name: Rc<String>,
    age: Rc<Cell<u32>>,
    log: Log,
}

struct DataSystemName {
    name: Rc<String>,
    log: Log,
}

struct DataSystemAge {
    age: Rc<Cell<u32>>,
    log: Log,
}

struct AfterAll {
    log: Log,
}

struct LastOfEnd {
    log: Log,
}

impl System for StartSystem {
    const ID: SystemId = START;

    fn dependencies() -> Vec<SystemId> {
        vec![]
    }

    fn update(&mut self, _world: &mut World, _errors: &Errors) -> Result<(), String> {
        self.log.borrow_mut().push("Start".to_string());
        Ok(())
    }
}

impl System for PrintSystem {
    const ID: SystemId = PRINT;

    fn dependencies() -> Vec<SystemId> {
        vec![START]
    }

    fn update(&mut self, world: &mut World, _errors: &Errors) -> Result<(), String> {
        self.log.borrow_mut().push(format!(
            "Print {} {} {}",
            world.count(CHARS),
            self.name,
            self.age.get()
        ));
        Ok(())
    }
}

impl System for DataSystemName {
    const ID: SystemId = NAME;

    fn dependencies() -> Vec<SystemId> {
        vec![START]
    }

    fn init(&mut self, _world: &mut World, _errors: &Errors) -> Result<(), String> {
        self.log.borrow_mut().push("DataSystemName has been added to stage".to_string());
        Ok(())
    }
}

impl System for DataSystemAge {
    const ID: SystemId = AGE;

    fn dependencies() -> Vec<SystemId> {
        vec![START]
    }

    fn init(&mut self, _world: &mut World, _errors: &Errors) -> Result<(), String> {
        self.log.borrow_mut().push("DataSystemAge has been added to stage".to_string());
        Ok(())
    }
}

impl System for AfterAll {
    const ID: SystemId = AFTER_ALL;

    fn dependencies() -> Vec<SystemId> {
        vec![END_ID]
    }

    fn update(&mut self, _world: &mut World, _errors: &Errors) -> Result<(), String> {
        self.log.borrow_mut().push("Finished".to_string());
        Ok(())
    }
}

impl System for LastOfEnd {
    const ID: SystemId = LAST_OF_END;

    fn dependencies() -> Vec<SystemId> {
        vec![<End as System>::ID]
    }

    fn update(&mut self, _world: &mut World, _errors: &Errors) -> Result<(), String> {
        self.log.borrow_mut().push("Finished!!!".to_string());
        Ok(())
    }
}

fn take(log: &Log) -> Vec<String> {
    log.borrow_mut().drain(..).collect()
}

#[test]
fn test_run() {
    let log: Log = Rc::new(RefCell::new(Vec::new()));
    let mut world = World::new();
    let mut chars: Column<char> = Column::new();
    assert_eq!(chars.insert(0, 'c'), None);
    assert_eq!(chars.insert(1, 'a'), None);
    assert_eq!(chars.insert(2, 'f'), None);
    assert!(world.register(CHARS, Box::new(chars)).is_none());

    let mut stage = Stage::from_world(world);
    let name = Rc::new("asda".to_string());
    let age = Rc::new(Cell::new(13));

    stage
        .add_system(StartSystem { log: log.clone() })
        .add_system(PrintSystem { name: name.clone(), age: age.clone(), log: log.clone() })
        .add_system(DataSystemName { name: name.clone(), log: log.clone() })
        .add_system(DataSystemAge { age: age.clone(), log: log.clone() })
        .add_system(AfterAll { log: log.clone() })
        .add_system(LastOfEnd { log: log.clone() });

    let all = vec![START, PRINT, NAME, AGE, AFTER_ALL, LAST_OF_END];
    let order = vec![ERRORS_ID, START, PRINT, NAME, AGE, AFTER_ALL, LAST_OF_END];

    assert_eq!(stage.run().executed, all.clone());
    assert_eq!(stage.run_queue(), &order);
    assert_eq!(
        take(&log),
        vec![
            "DataSystemName has been added to stage",
            "DataSystemAge has been added to stage",
            "Start",
            "Print 3 asda 13",
            "Finished",
            "Finished!!!",
        ]
    );

    assert_eq!(stage.run().executed, all.clone());
    assert_eq!(stage.run_queue(), &order);
    assert_eq!(take(&log), vec!["Start", "Print 3 asda 13", "Finished", "Finished!!!"]);

    stage.deactivate::<PrintSystem>();

    assert_eq!(stage.run().executed, vec![START, NAME, AGE, AFTER_ALL, LAST_OF_END]);
    assert_eq!(stage.run_queue(), &order);
    assert_eq!(take(&log), vec!["Start", "Finished", "Finished!!!"]);

    stage.add_dependency::<DataSystemAge, DataSystemName>();
    assert!(stage.depends_on(AGE, NAME));

    stage.activate::<PrintSystem>();
    assert_eq!(stage.run().executed, all.clone());
    assert_eq!(take(&log), vec!["Start", "Print 3 asda 13", "Finished", "Finished!!!"]);

    stage.remove_dependency::<DataSystemAge, DataSystemName>();
    assert!(!stage.depends_on(AGE, NAME));
    assert!(stage.depends_on(AGE, START));
    assert_eq!(stage.run().executed, all);
    assert_eq!(stage.run_queue(), &order);
}
