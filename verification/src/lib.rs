//! An archetype-based entity-component store with a runtime-checked
//! borrow discipline and a query engine over component columns.
//!
//! The world stores arbitrary component values type-erased, one column
//! per component type inside each archetype (the unit of partitioning:
//! the set of component types an entity carries). Spawning decomposes a
//! bundle of component values into one aligned row of its archetype's
//! columns; queries resolve requested component types against matching
//! entities, with a per-slot single-writer / multi-reader discipline
//! enforced at run time.

pub mod archetype;
pub mod component;
pub mod entity;
pub mod query;
pub mod world;
