//! The decision-making core of an in-process shell sandbox.

pub mod text;
pub mod shell;
pub mod order;
pub mod textmap;
pub mod env;
pub mod expand;
pub mod admission;
pub mod fit;
pub mod budget;
pub mod bytes;
pub mod output;
pub mod vfs;
pub mod path;
pub mod sorting;
pub mod builtins;
pub mod pattern;
pub mod fs;
pub mod command;
pub mod control;
pub mod pools;
pub mod host;
pub mod globals;
pub mod session;
pub mod redirect;
pub mod exec;
pub mod pipeline;
pub mod machine;
pub mod builder;
pub mod jq;
pub mod walk;
pub mod js;
pub mod prompts;
