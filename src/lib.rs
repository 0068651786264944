//! Entity-component-system core: component storage with dynamic borrow
//! tracking, type-keyed resources, a component codec registry, a staged
//! system scheduler, scene snapshots, asset handles and dirty-tracked bindings.
pub mod keyed;
pub mod storage;
pub mod registry;
pub mod schedule;
pub mod world;
pub mod scene;
pub mod assets;
pub mod binding;
pub mod engine;
