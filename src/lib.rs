//! Build-time helpers for a bindings generator: selector resolution over a
//! metadata graph with deterministic code emission, and the decisions behind
//! deploying target-specific native binaries into a build output tree.
pub mod arch;
pub mod text;
pub mod selector;
pub mod resolve;
pub mod deploy;
