//! Dependency-graph engine for an environment-profile manager.
//!
//! A profile is a named bundle of environment variables together with a list
//! of other profiles it depends on.  This crate keeps the directed acyclic
//! graph over profile names, resolves a profile's transitive dependency
//! closure in topological order, merges variables across that closure, and
//! loads profiles on demand from an in-memory store while aggregating
//! independent failures.

use vstd::prelude::*;

pub mod collect;
pub mod env_script;
pub mod graph;
pub mod loader;
pub mod messages;
pub mod models;
pub mod select_popup;
pub mod shell_generate;
pub mod validate;

verus! {

pub const SHELL_MARK: &'static str = "__ENV_MANAGE_SHELL_CMD__";

pub const GLOBAL_PROFILE_MARK: &'static str = "__PRIVATE_GLOBAL_PROFILE__";

} // verus!
