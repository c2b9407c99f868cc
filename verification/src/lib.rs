//! An entity-component-system runtime: sparse-set component columns, a world
//! that owns them, and a stage that runs systems in dependency order.
pub mod components;
pub mod registry;
pub mod schedule;
pub mod stage;
pub mod system;
pub mod world;
