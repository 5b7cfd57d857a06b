//! A verified core for a shell-alias manager: namespaced identifiers,
//! templated aliases with reference composition and cycle detection,
//! choice substitution into command templates, a choice-resolution
//! contract, environment-variable expansion, and a capped history state.

use vstd::prelude::*;

pub mod aliases;
pub mod aliases_repository;
pub mod choices;
pub mod dependencies;
pub mod identifiers;
pub mod processes;
pub mod readers;
pub mod references;
pub mod sequential_state;
pub mod templates;
pub mod text;

verus! {

} // verus!
