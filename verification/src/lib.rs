//! A personal command-alias manager: named scripts (an alias bound to one or
//! more shell command lines, with optional description and tags) kept in an
//! ordered store, looked up by alias or filtered by tags, persisted as a
//! self-delimiting text, and turned into a runnable command line for a child
//! shell process whose exit status is propagated unchanged.

pub mod error;
pub mod script;
pub mod store;
pub mod engine;
pub mod codec;
