//! Lenient scanners for an avatar-control application's parameter files, and a
//! reconciler that merges their output into one strongly typed parameter map.
//!
//! Two hand-rolled text formats are consumed: a parameter-definition file
//! (`name`/`type` pairs, one record approximated by two indented lines) and a
//! saved-state file (comma-packed fragments carrying a `name` and a numeric
//! `value`). Neither format is well formed; both scanners read fragment by
//! fragment with partial-match rules and skip anything malformed instead of
//! failing. The reconciler applies each saved value to the declared type of
//! its parameter, or a type-appropriate default when no value was saved.

pub mod text;
pub mod value;
pub mod defs;
pub mod saved;
pub mod reconcile;
