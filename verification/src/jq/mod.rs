//! The `jq` command: its options, the bounds on what is handed to the filter engine, and how its
//! outputs and failures are reported.

pub mod options;
pub mod bounds;
pub mod policy;

pub mod run;
