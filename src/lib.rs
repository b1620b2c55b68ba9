//! Mock data generation from a declarative schema of named models.
//!
//! A [`specification::Specification`] names models whose fields are random
//! primitives, nested child models, lists of child models, or references to
//! values generated for an enclosing model. [`generator::from_spec`] walks the
//! schema from a root model and collects every generated record by model name.
pub mod keyed;
pub mod datatypes;
pub mod specification;
pub mod generator;
pub mod theorems;
pub mod model;
pub mod generation;
pub mod cli;
pub mod database;
