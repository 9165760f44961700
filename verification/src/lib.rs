//! String interning and reverse-reachability propagation for a build-target
//! dependency analysis.
//!
//! The crate covers two tightly coupled mechanisms and the data model they
//! share:
//!
//! - [`string`]: an interning table that gives every distinct piece of text a
//!   single canonical, cheaply comparable handle, with an
//!   allocation-avoiding lookup path for composite keys;
//! - [`targets`]: the target model the engine works on: buildable units
//!   identified by package and name, with forward dependencies and labels;
//! - [`sudo`]: a propagation engine that, given a collection of build targets
//!   and a marker label on some of them, computes every target that
//!   transitively depends on a marked target.

pub mod string;
pub mod sudo;
pub mod targets;
