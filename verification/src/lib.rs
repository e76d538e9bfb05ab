//! A bridge between a native build graph and a foreign package builder.

pub mod binder;
pub mod bridge;
pub mod config;
pub mod digest;
pub mod driver;
pub mod error;
pub mod exports;
pub mod manifest;
pub mod planner;
pub mod predicate;
pub mod reader;
pub mod resolver;
pub mod scan;
pub mod text;
pub mod wire;
pub mod workspace;
