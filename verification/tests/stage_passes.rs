use std::cell::{Cell, RefCell};
use std::rc::Rc;
use xecs::stage::Stage;
use xecs::system::{Errors, System, SystemId};
use xecs::world::World;

type Log = Rc<RefCell<Vec<String>>>;

struct Data {
    value: Rc<Cell<i32>>,
}

impl System for Data {
    const ID: SystemId = 10;

    fn dependencies() -> Vec<SystemId> {
        vec![]
    }
}

struct PrintDataInInit {
    data: Rc<Cell<i32>>,
    log: Log,
}

impl System for PrintDataInInit {
    const ID: SystemId = 11;

    fn dependencies() -> Vec<SystemId> {
        vec![]
    }

    fn init(&mut self, _world: &mut World, _errors: &Errors) -> Result<(), String> {
        self.log.borrow_mut().push(format!("data:{}", self.data.get()));
        Ok(())
    }
}

#[test]
fn init_test() {
    let log: Log = Rc::new(RefCell::new(Vec::new()));
    let value = Rc::new(Cell::new(3));
    let mut stage = Stage::new();

    stage
        .add_system(Data { value: value.clone() })
        .add_system(PrintDataInInit { data: value.clone(), log: log.clone() });

    assert_eq!(stage.run().executed, vec![10, 11]);
    assert_eq!(*log.borrow(), vec!["data:3".to_string()]);

    assert_eq!(stage.run().executed, vec![10, 11]);
    assert_eq!(*log.borrow(), vec!["data:3".to_string()]);
}
