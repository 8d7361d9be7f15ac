//! What a command returns, and the limits that an execution keeps to.

use vstd::prelude::*;

verus! {

/// Exit status and optional resource metrics returned by a command.
#[derive(Debug, Clone, Copy, PartialEq, Eq, Structural)]
pub struct CommandResult {
    /// Process-like exit code.
    pub exit_code: i32,
    /// Peak WebAssembly memory observed by JS or jq commands.
    pub peak_wasm_memory_bytes: Option<usize>,
}

impl CommandResult {
    /// Creates a result with an exit code and no extra metrics.
    pub fn new(exit_code: i32) -> (r: Self)
        ensures
            r.exit_code == exit_code,
            r.peak_wasm_memory_bytes == None::<usize>,
    {
        CommandResult { exit_code, peak_wasm_memory_bytes: None }
    }

    /// Attaches peak WebAssembly memory usage to the result.
    pub fn with_peak_wasm_memory(self, bytes: usize) -> (r: Self)
        ensures
            r.exit_code == self.exit_code,
            r.peak_wasm_memory_bytes == Some(bytes),
    {
        CommandResult { exit_code: self.exit_code, peak_wasm_memory_bytes: Some(bytes) }
    }

    /// Returns a successful zero-exit result.
    pub fn success() -> (r: Self)
        ensures
            r.exit_code == 0,
            r.peak_wasm_memory_bytes == None::<usize>,
    {
        CommandResult::new(0)
    }

    /// Returns a conventional failure result with exit code 1.
    pub fn failure() -> (r: Self)
        ensures
            r.exit_code == 1,
            r.peak_wasm_memory_bytes == None::<usize>,
    {
        CommandResult::new(1)
    }
}

/// Resource limits enforced for sandbox execution.
#[derive(Debug, Clone, Copy, PartialEq, Eq, Structural)]
pub struct Limits {
    /// Maximum wall-clock time for one execution, in nanoseconds.
    pub wall_time: u128,
    /// Maximum captured stdout bytes before truncation.
    pub stdout_bytes: usize,
    /// Maximum captured stderr bytes before truncation.
    pub stderr_bytes: usize,
    /// Maximum simple commands that one parsed program may execute.
    pub max_commands: usize,
    /// Maximum shell source bytes admitted before parsing.
    pub shell_input_bytes: usize,
    /// Maximum bytes materialized by a whole-file or host-input operation.
    pub host_input_bytes: usize,
    /// Maximum simultaneously open files in one execution.
    pub max_open_files: usize,
    /// Maximum normalized path depth, which has a hard limit besides.
    pub max_path_depth: usize,
    /// Maximum bytes retained by the `tail` window.
    pub tail_input_bytes: usize,
    /// Maximum bytes accepted by `sort` before it fails.
    pub sort_input_bytes: usize,
    /// Maximum bytes accepted by `jq` before it fails.
    pub jq_input_bytes: usize,
    /// Maximum jq guest linear memory, including its stack and intermediate values.
    pub jq_memory_bytes: usize,
    /// Maximum WebAssembly memory for JS commands.
    pub wasm_memory_bytes: usize,
    /// Maximum bytes accepted from a JavaScript fetch response body.
    pub fetch_response_bytes: usize,
}

pub const SECOND: u128 = 1_000_000_000;

pub const MIB: usize = 1_048_576;

/// The limits that hold where none are set.
pub open spec fn default_limits() -> Limits {
    Limits {
        wall_time: 30_000_000_000,
        stdout_bytes: 1_048_576,
        stderr_bytes: 1_048_576,
        max_commands: 1024,
        shell_input_bytes: 1_048_576,
        host_input_bytes: 8_388_608,
        max_open_files: 1024,
        max_path_depth: 256,
        tail_input_bytes: 8_388_608,
        sort_input_bytes: 8_388_608,
        jq_input_bytes: 8_388_608,
        jq_memory_bytes: 67_108_864,
        wasm_memory_bytes: 67_108_864,
        fetch_response_bytes: 33_554_432,
    }
}

impl Default for Limits {
    fn default() -> (r: Self)
        ensures
            r == default_limits(),
    {
        Limits {
            wall_time: 30 * SECOND,
            stdout_bytes: MIB,
            stderr_bytes: MIB,
            max_commands: 1024,
            shell_input_bytes: MIB,
            host_input_bytes: 8 * MIB,
            max_open_files: 1024,
            max_path_depth: 256,
            tail_input_bytes: 8 * MIB,
            sort_input_bytes: 8 * MIB,
            jq_input_bytes: 8 * MIB,
            jq_memory_bytes: 64 * MIB,
            wasm_memory_bytes: 64 * MIB,
            fetch_response_bytes: 32 * MIB,
        }
    }
}

} // verus!
