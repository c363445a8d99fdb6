//! Deploys a declarative set of targets (files and directories) onto a
//! machine by linking, copying, or template-expanding source files into
//! destination locations.
//!
//! The crate is organised around three subsystems:
//! - a variable-substitution template language with hierarchical
//!   namespaces ([`template`]),
//! - absolute-path resolution that does not require the path to exist
//!   ([`abspath`]) and a resource layer that lets intermediate template
//!   output live in memory or on disk ([`resources`]),
//! - an action graph that compiles a configuration into an ordered,
//!   idempotent sequence of filesystem operations and supports
//!   incremental re-execution via dependency traversal ([`actions`]).

pub mod abspath;
pub mod actions;
pub mod config;
pub mod fsio;
pub mod resources;
pub mod strutil;
pub mod template;
