//! A dependency-injection engine: components are registered under an
//! interface identity with the identities they depend on, then built once
//! each, dependencies first, into a store that hands out shared handles.

pub mod component;
pub mod container;
pub mod error;
pub mod graph;
pub mod module;
