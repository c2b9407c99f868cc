use std::cell::RefCell;
use std::rc::Rc;
use xecs::stage::Stage;
use xecs::system::{Errors, System, SystemId};
use xecs::world::World;

type Log = Rc<RefCell<Vec<String>>>;

const SOURCE: SystemId = 30;
const HANDLER: SystemId = 31;

struct ErrorSource {
    count: i32,
}

impl System for ErrorSource {
    const ID: SystemId = SOURCE;

    fn dependencies() -> Vec<SystemId> {
        vec![]
    }

    fn update(&mut self, _world: &mut World, _errors: &Errors) -> Result<(), String> {
        let err = self.count;
        self.count += 1;
        Err(format!("Error with value : {}", err))
    }
}

struct ErrorHandler {
    log: Log,
}

impl System for ErrorHandler {
    const ID: SystemId = HANDLER;

    fn dependencies() -> Vec<SystemId> {
        vec![SOURCE]
    }

    fn update(&mut self, _world: &mut World, errors: &Errors) -> Result<(), String> {
        if let Some(error) = errors.fetch_error::<ErrorSource>() {
            self.log.borrow_mut().push(format!("Catch error with value {}", error));
        }
        Ok(())
    }
}

#[test]
fn error_test() {
    let log: Log = Rc::new(RefCell::new(Vec::new()));
    let mut stage = Stage::new();

    stage.add_system(ErrorSource { count: 1 }).add_system(ErrorHandler { log: log.clone() });

    assert_eq!(stage.run().executed, vec![SOURCE, HANDLER]);
    assert_eq!(*log.borrow(), vec!["Catch error with value Error with value : 1".to_string()]);
    assert_eq!(
        stage.errors_ref().fetch_error_dyn(SOURCE),
        Some(&"Error with value : 1".to_string())
    );

    assert_eq!(stage.run().executed, vec![SOURCE, HANDLER]);
    assert_eq!(
        *log.borrow(),
        vec![
            "Catch error with value Error with value : 1".to_string(),
            "Catch error with value Error with value : 2".to_string(),
        ]
    );
    assert_eq!(
        stage.errors_ref().fetch_error_dyn(SOURCE),
        Some(&"Error with value : 2".to_string())
    );
    assert_eq!(stage.errors_ref().fetch_error_dyn(HANDLER), None);
}
