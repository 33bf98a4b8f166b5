//! Core data structures of an entity-component-system: sparse maps keyed by
//! dense indices, access sets used for scheduling, archetype and table
//! bookkeeping, sorted component-set algebra, a small state machine and the
//! plugin registry of an application.

pub mod index;
pub mod archetype_maps;
pub mod bitset;
pub mod access;
pub mod entity;
pub mod component;
pub mod table;
pub mod archetype;
pub mod condition;
pub mod bundle;
pub mod descriptor;
pub mod fsm;
pub mod input;
pub mod app;
pub mod type_def;
pub mod runner;
pub mod scheduled;
pub mod plugin_group;
pub mod schedule;
pub mod set_executor;
pub mod hierarchy;
pub mod registry;
pub mod multi_threaded;
pub mod groups;
