//! A dependency-injection engine.
//!
//! A module binds interfaces to components. Its bindings are registered
//! ([`module::Registry`]), declared together with imports and generic
//! parameters ([`module::ModuleDefinition`]) and checked for dependency
//! cycles ([`module::validate`]) before anything is built. A
//! [`builder::Builder`] takes type arguments and overrides and makes the
//! [`instance::ModuleInstance`], which builds components on demand through
//! a [`instance::ComponentFactory`]: dependencies first, singletons once,
//! providers every time.
//!
//! Interfaces, components and fields are known by number; [`names`] gives a
//! name its number, and [`declaration`] turns a component declared by name
//! into its descriptor. [`laws`] holds what follows from the contracts.

pub mod builder;
pub mod declaration;
pub mod descriptor;
pub mod error;
pub mod graph;
pub mod instance;
pub mod laws;
pub mod module;
pub mod names;
