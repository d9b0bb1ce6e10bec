//! The shared exploration core: the public API and its building options,
//! the errors of exploring, and the grouping of impl blocks read against the
//! crate's index.
pub mod api;
pub mod impl_grouper;
