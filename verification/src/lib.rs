//! Renders the public API of a Rust crate as readable Rust code:
//! `use` statements for unambiguous paths, shortened names, and grouped impls.
pub mod cli;
pub mod filter;
pub mod impl_grouper;
pub mod mcp;
pub mod namespace_manager;
pub mod order;
pub mod public_item;
pub mod rexplore_core;
pub mod text;
pub mod tokens;
