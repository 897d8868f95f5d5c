//! Dependency graph validation for extension manifests: cycle detection,
//! missing and incompatible dependencies, safe module removal, capability
//! listings and an OpenAPI description of what the modules offer.

pub mod manifest;
pub mod strmap;
pub mod graph;
pub mod cycle;
pub mod semver_check;
pub mod removal;
pub mod text;
pub mod openapi;
pub mod catalog;
pub mod mcp_defs;
pub mod ext;
pub mod laws;
pub mod reorder;
pub mod outcomes;

pub use ext::DepgraphExtension;
pub use graph::DepGraph;
