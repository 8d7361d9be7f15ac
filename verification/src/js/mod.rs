//! The `js` command: what a guest may ask of its host, and how the host answers.

pub mod args;
pub mod calls;
pub mod fetch;
pub mod files;
pub mod guest;
pub mod invocation;
pub mod node;
pub mod runtime;
pub mod transport;
