//! Dependency groups of a project manifest, resolved for a dependency
//! resolver.
//!
//! A manifest declares named groups of requirements. A group may include
//! other groups; a legacy list of development requirements may stand beside
//! the groups; and source overrides may send a package to another source,
//! everywhere or in one group only. The resolution of a project goes through
//! four stages, each in its own module:
//!
//! 1. [`flatten`]: the inclusions are resolved, cycles and undeclared groups
//!    are reported;
//! 2. [`legacy`]: the legacy list is appended to the group `dev`;
//! 3. [`validate`]: every override scoped to a group must name a group that
//!    exists and that requires the package;
//! 4. [`lower`]: every requirement gets its source.
//!
//! [`project`] runs the stages one after another. What holds of the stages
//! for all inputs is stated and proved in [`flatten_laws`], [`lower_laws`]
//! and beside the functions themselves.

pub mod flatten;
pub mod flatten_laws;
pub mod legacy;
pub mod lower;
pub mod lower_laws;
pub mod model;
pub mod name_map;
pub mod names;
pub mod project;
pub mod validate;

pub use crate::lower::SourcedDependencyGroups;
pub use crate::model::MetadataError;
