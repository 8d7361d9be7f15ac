//! What a guest hands over as numbers: places in its memory, and what it may use.

use vstd::prelude::*;

use crate::command::CommandResult;
use crate::fs;
use crate::text;

verus! {

/// What is wrong with a number that a guest has handed over.
#[derive(Debug, Clone, Copy, PartialEq, Eq, Structural)]
pub enum GuestFault {
    NegativePointer,
    NegativeLength,
    /// The end of the range does not fit this machine.
    RangeOverflow,
    /// The range does not lie in the guest's memory.
    OutOfMemory,
    /// More is moved at once than may be.
    TransferTooLarge,
    /// There is no such input, or it is not that long.
    NoSuchInput,
    /// There is no such output.
    NoSuchOutput,
}

pub open spec fn fault_text(fault: GuestFault) -> Seq<char> {
    match fault {
        GuestFault::NegativePointer => "negative guest pointer"@,
        GuestFault::NegativeLength => "negative guest length"@,
        GuestFault::RangeOverflow => "invalid guest range"@,
        GuestFault::OutOfMemory => "range exceeds guest memory"@,
        GuestFault::TransferTooLarge => "jq host transfer exceeds chunk limit"@,
        GuestFault::NoSuchInput => "invalid jq input range"@,
        GuestFault::NoSuchOutput => "invalid jq output stream"@,
    }
}

pub fn fault_message(fault: GuestFault) -> (r: &'static str)
    ensures
        r@ == fault_text(fault),
{
    match fault {
        GuestFault::NegativePointer => "negative guest pointer",
        GuestFault::NegativeLength => "negative guest length",
        GuestFault::RangeOverflow => "invalid guest range",
        GuestFault::OutOfMemory => "range exceeds guest memory",
        GuestFault::TransferTooLarge => "jq host transfer exceeds chunk limit",
        GuestFault::NoSuchInput => "invalid jq input range",
        GuestFault::NoSuchOutput => "invalid jq output stream",
    }
}

pub fn ptr_usize(ptr: i32) -> (r: Result<usize, GuestFault>)
    ensures
        r == (if ptr >= 0 {
            Ok::<usize, GuestFault>(ptr as usize)
        } else {
            Err(GuestFault::NegativePointer)
        }),
{
    if ptr < 0 {
        Err(GuestFault::NegativePointer)
    } else {
        Ok(ptr as usize)
    }
}

pub fn usize_len(len: i32) -> (r: Result<usize, GuestFault>)
    ensures
        r == (if len >= 0 {
            Ok::<usize, GuestFault>(len as usize)
        } else {
            Err(GuestFault::NegativeLength)
        }),
{
    if len < 0 {
        Err(GuestFault::NegativeLength)
    } else {
        Ok(len as usize)
    }
}

/// The range of a guest's memory that starts at a pointer.
pub fn guest_range(ptr: i32, len: i32, memory: usize) -> (r: Result<(usize, usize), GuestFault>)
    ensures
        r == (if ptr < 0 {
            Err::<(usize, usize), GuestFault>(GuestFault::NegativePointer)
        } else if len < 0 {
            Err(GuestFault::NegativeLength)
        } else if ptr + len > usize::MAX {
            Err(GuestFault::RangeOverflow)
        } else if ptr + len > memory {
            Err(GuestFault::OutOfMemory)
        } else {
            Ok((ptr as usize, (ptr + len) as usize))
        }),
{
    let start: usize = match ptr_usize(ptr) {
        Ok(start) => start,
        Err(fault) => {
            return Err(fault);
        },
    };
    let length: usize = match usize_len(len) {
        Ok(length) => length,
        Err(fault) => {
            return Err(fault);
        },
    };
    if length > usize::MAX - start {
        return Err(GuestFault::RangeOverflow);
    }
    let end: usize = start + length;
    if end > memory {
        return Err(GuestFault::OutOfMemory);
    }
    Ok((start, end))
}

/// The most bytes of output that are handed on at once.
pub const OUTPUT_CHUNK_BYTES: usize = 16384;

/// The end of the next piece of output.
pub fn next_chunk_end(offset: usize, end: usize) -> (r: usize)
    requires
        offset < end,
    ensures
        offset < r <= end,
        r - offset <= OUTPUT_CHUNK_BYTES,
        r < end ==> r - offset == OUTPUT_CHUNK_BYTES,
{
    if end - offset > OUTPUT_CHUNK_BYTES {
        offset + OUTPUT_CHUNK_BYTES
    } else {
        end
    }
}

/// The range that a transfer with the `jq` guest is about. The pointer is unsigned.
pub fn transfer_range(ptr: i32, len: i32) -> (r: Result<(usize, usize), GuestFault>)
    ensures
        ({
            let start = if ptr >= 0 {
                ptr as int
            } else {
                ptr + 0x1_0000_0000
            };
            r == (if len < 0 {
                Err::<(usize, usize), GuestFault>(GuestFault::NegativeLength)
            } else if len > fs::STREAM_CHUNK_BYTES {
                Err(GuestFault::TransferTooLarge)
            } else if start + len > usize::MAX {
                Err(GuestFault::RangeOverflow)
            } else {
                Ok((start as usize, (start + len) as usize))
            })
        }),
{
    let unsigned: i64 = if ptr >= 0 {
        ptr as i64
    } else {
        ptr as i64 + 0x1_0000_0000
    };
    let start: usize = unsigned as usize;
    let length: usize = match usize_len(len) {
        Ok(length) => length,
        Err(fault) => {
            return Err(fault);
        },
    };
    if length > fs::STREAM_CHUNK_BYTES {
        return Err(GuestFault::TransferTooLarge);
    }
    if length > usize::MAX - start {
        return Err(GuestFault::RangeOverflow);
    }
    Ok((start, start + length))
}

/// The length of an input, as the `jq` guest is told; -1 where there is none, or it is too long
/// to be told.
pub fn input_len(index: i32, lengths: &Vec<usize>) -> (r: i32)
    ensures
        r == (if 0 <= index < lengths@.len() && lengths@[index as int] <= i32::MAX {
            lengths@[index as int] as int
        } else {
            -1int
        }),
{
    if index < 0 {
        return -1;
    }
    let at: usize = index as usize;
    if at >= lengths.len() {
        return -1;
    }
    let length: usize = lengths[at];
    if length <= 2147483647 {
        length as i32
    } else {
        -1
    }
}

/// How much of an input is copied, from an offset on, into a target of a given size.
pub fn input_copy(index: i32, offset: i32, lengths: &Vec<usize>, target: usize) -> (r: Result<
    (usize, usize, usize),
    GuestFault,
>)
    ensures
        if 0 <= index < lengths@.len() && 0 <= offset <= lengths@[index as int] {
            let left = lengths@[index as int] - offset;
            r == Ok::<(usize, usize, usize), GuestFault>(
                (
                    index as usize,
                    offset as usize,
                    if left < target {
                        left as usize
                    } else {
                        target
                    },
                ),
            )
        } else {
            r == Err::<(usize, usize, usize), GuestFault>(GuestFault::NoSuchInput)
        },
{
    if index < 0 || offset < 0 {
        return Err(GuestFault::NoSuchInput);
    }
    let at: usize = index as usize;
    let from: usize = offset as usize;
    if at >= lengths.len() || from > lengths[at] {
        return Err(GuestFault::NoSuchInput);
    }
    let left: usize = lengths[at] - from;
    if left < target {
        Ok((at, from, left))
    } else {
        Ok((at, from, target))
    }
}

/// The outputs of the `jq` guest.
#[derive(Debug, Clone, Copy, PartialEq, Eq, Structural)]
pub enum GuestOutput {
    Stdout,
    Stderr,
}

pub fn output_stream(kind: i32) -> (r: Result<GuestOutput, GuestFault>)
    ensures
        r == (if kind == 1 {
            Ok::<GuestOutput, GuestFault>(GuestOutput::Stdout)
        } else if kind == 2 {
            Ok(GuestOutput::Stderr)
        } else {
            Err(GuestFault::NoSuchOutput)
        }),
{
    if kind == 1 {
        Ok(GuestOutput::Stdout)
    } else if kind == 2 {
        Ok(GuestOutput::Stderr)
    } else {
        Err(GuestFault::NoSuchOutput)
    }
}

/// Checks what the host says it has moved for the guest: something, and no more than was wanted.
pub fn check_moved(moved: i32, wanted: usize) -> (r: Option<usize>)
    ensures
        r == (if 0 < moved <= wanted {
            Some(moved as usize)
        } else {
            None::<usize>
        }),
{
    if moved <= 0 {
        return None;
    }
    let n: usize = moved as usize;
    if n <= wanted {
        Some(n)
    } else {
        None
    }
}

// ---- memory ----

/// The memory of a guest: what it may have, what it had at most, and whether it wanted more.
#[derive(Debug, Clone, Copy, PartialEq, Eq, Structural)]
pub struct WasmLimiter {
    pub max_memory_bytes: usize,
    pub peak_memory_bytes: usize,
    pub limit_exceeded: bool,
}

/// The memory of a guest once it has asked for more: it gets it, or it is remembered that it did
/// not.
pub open spec fn grown(memory: WasmLimiter, desired: usize) -> WasmLimiter {
    if desired <= memory.max_memory_bytes {
        WasmLimiter {
            peak_memory_bytes: if memory.peak_memory_bytes < desired {
                desired
            } else {
                memory.peak_memory_bytes
            },
            ..memory
        }
    } else {
        WasmLimiter { limit_exceeded: true, ..memory }
    }
}

impl WasmLimiter {
    pub fn new(max_memory_bytes: usize) -> (r: Self)
        ensures
            r == (WasmLimiter { max_memory_bytes, peak_memory_bytes: 0, limit_exceeded: false }),
    {
        WasmLimiter { max_memory_bytes, peak_memory_bytes: 0, limit_exceeded: false }
    }

    pub fn record_peak(&mut self, bytes: usize)
        ensures
            *final(self) == (WasmLimiter {
                peak_memory_bytes: if old(self).peak_memory_bytes < bytes {
                    bytes
                } else {
                    old(self).peak_memory_bytes
                },
                ..*old(self)
            }),
    {
        if self.peak_memory_bytes < bytes {
            self.peak_memory_bytes = bytes;
        }
    }

    /// Decides whether the memory may grow. Once refused, it is remembered that it was.
    pub fn memory_growing(&mut self, desired: usize) -> (r: bool)
        ensures
            r == (desired <= old(self).max_memory_bytes),
            *final(self) == grown(*old(self), desired),
    {
        if desired > self.max_memory_bytes {
            self.limit_exceeded = true;
            return false;
        }
        self.record_peak(desired);
        true
    }
}

/// Whether the table of a `js` guest may grow.
pub fn js_table_growing(desired: usize, maximum: Option<usize>) -> (r: bool)
    ensures
        r == (match maximum {
            Some(most) => desired <= most,
            None => true,
        }),
{
    match maximum {
        Some(most) => desired <= most,
        None => true,
    }
}

/// Whether the table of the `jq` guest may grow.
pub fn jq_table_growing(desired: usize) -> (r: bool)
    ensures
        r == (desired <= 16384),
{
    desired <= 16384
}

/// The pages of memory that a `js` guest starts with.
pub const INITIAL_PAGES: usize = 19;

/// The most pages of memory that a `js` guest may have; nothing where it could not even start.
pub fn memory_pages(wasm_memory_bytes: usize) -> (r: Option<u32>)
    ensures
        ({
            let pages = if wasm_memory_bytes / 65536 < 65536 {
                wasm_memory_bytes / 65536
            } else {
                65536
            };
            r == (if pages < INITIAL_PAGES {
                None::<u32>
            } else {
                Some(pages as u32)
            })
        }),
{
    let whole: usize = wasm_memory_bytes / 65536;
    let pages: usize = if whole < 65536 {
        whole
    } else {
        65536
    };
    if pages < INITIAL_PAGES {
        None
    } else {
        Some(pages as u32)
    }
}

/// The heap that a guest is told it has.
pub fn heap_limit(wasm_memory_bytes: usize) -> (r: i32)
    ensures
        r == (if wasm_memory_bytes <= i32::MAX {
            wasm_memory_bytes as int
        } else {
            i32::MAX as int
        }),
{
    if wasm_memory_bytes <= 2147483647 {
        wasm_memory_bytes as i32
    } else {
        2147483647
    }
}

// ---- time ----

/// The time between two ticks of a guest's clock, in milliseconds.
pub const EPOCH_TICK_MILLIS: u128 = 5;

/// The ticks that a time in nanoseconds comes to: started ones count, and there is at least one.
pub open spec fn ticks_in(nanos: int) -> int {
    let millis = nanos / 1_000_000;
    let ticks = (millis + 4) / 5;
    if ticks < 1 {
        1
    } else if ticks > u64::MAX {
        u64::MAX as int
    } else {
        ticks
    }
}

pub fn epoch_ticks(nanos: u128) -> (r: u64)
    ensures
        r == ticks_in(nanos as int),
{
    let millis: u128 = nanos / 1_000_000;
    let ticks: u128 = (millis + 4) / EPOCH_TICK_MILLIS;
    if ticks < 1 {
        1
    } else if ticks > u64::MAX as u128 {
        u64::MAX
    } else {
        ticks as u64
    }
}

/// The time that a host function gets: some is kept back, so that the guest can still deal with
/// its failure.
pub fn host_call_budget(remaining: u128, wall_time: u128) -> (r: u128)
    ensures
        ({
            let headroom = if wall_time / 4 < 50_000_000 {
                wall_time / 4
            } else {
                50_000_000
            };
            r == if remaining > headroom {
                remaining - headroom
            } else {
                0
            }
        }),
{
    let quarter: u128 = wall_time / 4;
    let headroom: u128 = if quarter < 50_000_000 {
        quarter
    } else {
        50_000_000
    };
    if remaining > headroom {
        remaining - headroom
    } else {
        0
    }
}

// ---- random bytes ----

/// The state that the random bytes of every guest start from.
pub const RANDOM_SEED: u64 = 0x7468_696e_626f_7821;

/// The next state of the generator of random bytes, a xorshift.
pub open spec fn next_state(x: u64) -> u64 {
    let a = x ^ (x << 13u64);
    let b = a ^ (a >> 7u64);
    b ^ (b << 17u64)
}

/// The state after `n` bytes.
pub open spec fn state_after(x: u64, n: nat) -> u64
    decreases n,
{
    if n == 0 {
        x
    } else {
        next_state(state_after(x, (n - 1) as nat))
    }
}

fn step_state(x: u64) -> (r: u64)
    ensures
        r == next_state(x),
{
    let a: u64 = x ^ (x << 13u64);
    let b: u64 = a ^ (a >> 7u64);
    b ^ (b << 17u64)
}

fn low_byte(x: u64) -> (r: u8)
    ensures
        r == x as u8,
{
    #[verifier::truncate]
    (x as u8)
}

/// Random bytes for a guest, which are the same in every run.
pub fn random_bytes(state: &mut u64, n: usize) -> (r: Vec<u8>)
    ensures
        r@.len() == n,
        *final(state) == state_after(*old(state), n as nat),
        forall|i: int|
            0 <= i < n ==> #[trigger] r@[i] == state_after(*old(state), (i + 1) as nat) as u8,
{
    let ghost start = *state;
    let mut r: Vec<u8> = Vec::new();
    let mut i: usize = 0;
    while i < n
        invariant
            i <= n,
            r@.len() == i,
            start == *old(state),
            *state == state_after(start, i as nat),
            forall|j: int|
                0 <= j < i ==> #[trigger] r@[j] == state_after(start, (j + 1) as nat) as u8,
        decreases n - i,
    {
        *state = step_state(*state);
        proof {
            assert(*state == state_after(start, (i + 1) as nat));
        }
        r.push(low_byte(*state));
        i = i + 1;
    }
    r
}

// ---- how a guest ends ----

/// How a `js` guest could not be run to its end.
#[derive(Debug, PartialEq, Eq)]
pub enum JsFailure {
    TimedOut,
    /// Nobody reads its output.
    BrokenPipe,
    /// It wanted more memory than it may have.
    MemoryExceeded { peak: usize },
    Other(String),
}

/// How `js` ends.
#[derive(Debug, PartialEq, Eq)]
pub struct JsRunResult {
    pub exit_code: i32,
    pub stderr: String,
    pub peak_wasm_memory_bytes: usize,
}

#[verifier::ext_equal]
pub struct JsRunView {
    pub exit_code: i32,
    pub stderr: Seq<char>,
    pub peak_wasm_memory_bytes: usize,
}

impl JsRunResult {
    pub open spec fn view(&self) -> JsRunView {
        JsRunView {
            exit_code: self.exit_code,
            stderr: self.stderr@,
            peak_wasm_memory_bytes: self.peak_wasm_memory_bytes,
        }
    }
}

pub open spec fn js_end(failure: JsFailure) -> JsRunView {
    match failure {
        JsFailure::TimedOut => JsRunView {
            exit_code: 124,
            stderr: "js: command timed out\n"@,
            peak_wasm_memory_bytes: 0,
        },
        JsFailure::BrokenPipe => JsRunView {
            exit_code: 141,
            stderr: Seq::empty(),
            peak_wasm_memory_bytes: 0,
        },
        JsFailure::MemoryExceeded { peak } => JsRunView {
            exit_code: 1,
            stderr: "js: wasm memory limit exceeded\n"@,
            peak_wasm_memory_bytes: peak,
        },
        JsFailure::Other(message) => JsRunView {
            exit_code: 1,
            stderr: "js: "@ + message@ + "\n"@,
            peak_wasm_memory_bytes: 0,
        },
    }
}

pub fn js_failure_result(failure: &JsFailure) -> (r: JsRunResult)
    ensures
        r@ == js_end(*failure),
{
    match failure {
        JsFailure::TimedOut => JsRunResult {
            exit_code: 124,
            stderr: text::copy("js: command timed out\n"),
            peak_wasm_memory_bytes: 0,
        },
        JsFailure::BrokenPipe => {
            let r = JsRunResult {
                exit_code: 141,
                stderr: String::new(),
                peak_wasm_memory_bytes: 0,
            };
            proof {
                assert(r.stderr@ =~= Seq::<char>::empty());
            }
            r
        },
        JsFailure::MemoryExceeded { peak } => JsRunResult {
            exit_code: 1,
            stderr: text::copy("js: wasm memory limit exceeded\n"),
            peak_wasm_memory_bytes: *peak,
        },
        JsFailure::Other(message) => JsRunResult {
            exit_code: 1,
            stderr: text::concat3("js: ", message.as_str(), "\n"),
            peak_wasm_memory_bytes: 0,
        },
    }
}

/// What a `js` guest is started with.
#[derive(Debug, Clone, Copy, PartialEq, Eq, Structural)]
pub struct JsStart {
    pub max_pages: u32,
    pub ticks: u64,
    pub heap_limit: i32,
}

/// Why a `js` guest is not started, if it is not: there must be time left, its source must be
/// bounded, and it must be allowed the memory that it starts with.
pub open spec fn start_failure(
    cancelled: bool,
    remaining: u128,
    source: nat,
    source_limit: usize,
    wasm_memory_bytes: usize,
) -> Option<JsRunView> {
    if cancelled || remaining == 0 {
        Some(js_end(JsFailure::TimedOut))
    } else if source > source_limit {
        Some(
            JsRunView {
                exit_code: 1,
                stderr: "js: "@ + ("script source exceeded limit of "@ + text::decimal_text(
                    source_limit as nat,
                ) + " bytes"@) + "\n"@,
                peak_wasm_memory_bytes: 0,
            },
        )
    } else if wasm_memory_bytes / 65536 < INITIAL_PAGES {
        Some(
            JsRunView {
                exit_code: 1,
                stderr: "js: "@ + "tinysandbox wasm memory limit exceeded"@ + "\n"@,
                peak_wasm_memory_bytes: 0,
            },
        )
    } else {
        None
    }
}

/// Decides whether a `js` guest is started.
pub fn start_guest(
    cancelled: bool,
    remaining: u128,
    source: usize,
    source_limit: usize,
    wasm_memory_bytes: usize,
) -> (r: Result<JsStart, JsFailure>)
    ensures
        match start_failure(
            cancelled,
            remaining,
            source as nat,
            source_limit,
            wasm_memory_bytes,
        ) {
            Some(end) => r matches Err(failure) && js_end(failure) == end,
            None => r matches Ok(start) && start.ticks == ticks_in(remaining as int)
                && start.max_pages == (if wasm_memory_bytes / 65536 < 65536 {
                wasm_memory_bytes / 65536
            } else {
                65536
            }) && start.heap_limit == (if wasm_memory_bytes <= i32::MAX {
                wasm_memory_bytes as int
            } else {
                i32::MAX as int
            }),
        },
{
    if cancelled || remaining == 0 {
        return Err(JsFailure::TimedOut);
    }
    if source > source_limit {
        let number = text::decimal(source_limit as u64);
        return Err(
            JsFailure::Other(
                text::concat3("script source exceeded limit of ", number.as_str(), " bytes"),
            ),
        );
    }
    match memory_pages(wasm_memory_bytes) {
        None => Err(JsFailure::Other(text::copy("tinysandbox wasm memory limit exceeded"))),
        Some(max_pages) => Ok(
            JsStart {
                max_pages,
                ticks: epoch_ticks(remaining),
                heap_limit: heap_limit(wasm_memory_bytes),
            },
        ),
    }
}

/// Decides how `js` ends, from how its guest did. A guest that wanted more memory than it may
/// have is reported as such; otherwise running out of time counts before any other failure.
pub fn end_guest(run: Result<i32, JsFailure>, memory: WasmLimiter, out_of_time: bool) -> (r: Result<
    i32,
    JsFailure,
>)
    ensures
        match run {
            Err(failure) => if memory.limit_exceeded {
                r == Err::<i32, JsFailure>(
                    JsFailure::MemoryExceeded { peak: memory.peak_memory_bytes },
                )
            } else if out_of_time {
                r == Err::<i32, JsFailure>(JsFailure::TimedOut)
            } else {
                r == Err::<i32, JsFailure>(failure)
            },
            Ok(code) => r == (if out_of_time {
                Err::<i32, JsFailure>(JsFailure::TimedOut)
            } else {
                Ok(code)
            }),
        },
{
    match run {
        Err(failure) => {
            if memory.limit_exceeded {
                Err(JsFailure::MemoryExceeded { peak: memory.peak_memory_bytes })
            } else if out_of_time {
                Err(JsFailure::TimedOut)
            } else {
                Err(failure)
            }
        },
        Ok(code) => {
            if out_of_time {
                Err(JsFailure::TimedOut)
            } else {
                Ok(code)
            }
        },
    }
}

// ---- what little of WASI a `js` guest gets ----

pub const WASI_SUCCESS: i32 = 0;

pub const WASI_BADF: i32 = 8;

pub const WASI_INVAL: i32 = 28;

/// The output behind a descriptor; a guest can write to no other.
pub fn wasi_output(fd: i32) -> (r: Option<GuestOutput>)
    ensures
        r == (if fd == 1 {
            Some(GuestOutput::Stdout)
        } else if fd == 2 {
            Some(GuestOutput::Stderr)
        } else {
            None
        }),
{
    if fd == 1 {
        Some(GuestOutput::Stdout)
    } else if fd == 2 {
        Some(GuestOutput::Stderr)
    } else {
        None
    }
}

/// The clocks that a guest can read.
#[derive(Debug, Clone, Copy, PartialEq, Eq, Structural)]
pub enum WasiClock {
    /// The time of day.
    Realtime,
    /// The time since the guest was started.
    Monotonic,
}

pub fn wasi_clock(id: i32) -> (r: Option<WasiClock>)
    ensures
        r == (if id == 0 {
            Some(WasiClock::Realtime)
        } else if id == 1 {
            Some(WasiClock::Monotonic)
        } else {
            None
        }),
{
    if id == 0 {
        Some(WasiClock::Realtime)
    } else if id == 1 {
        Some(WasiClock::Monotonic)
    } else {
        None
    }
}

/// Where the buffer with a given index is described: each description takes eight bytes.
pub fn iovec_place(iovs: i32, index: usize) -> (r: Result<usize, GuestFault>)
    ensures
        if iovs < 0 {
            r == Err::<usize, GuestFault>(GuestFault::NegativePointer)
        } else if iovs + 8 * index <= usize::MAX {
            r == Ok::<usize, GuestFault>((iovs + 8 * index) as usize)
        } else {
            r == Err::<usize, GuestFault>(GuestFault::RangeOverflow)
        },
{
    let base: usize = match ptr_usize(iovs) {
        Ok(base) => base,
        Err(fault) => {
            return Err(fault);
        },
    };
    match index.checked_mul(8) {
        None => Err(GuestFault::RangeOverflow),
        Some(offset) => match base.checked_add(offset) {
            None => Err(GuestFault::RangeOverflow),
            Some(place) => Ok(place),
        },
    }
}

/// How the run of a `jq` guest ended.
#[derive(Debug, PartialEq, Eq)]
pub enum JqGuestEnd {
    Exited(i32),
    /// Its clock stopped it.
    Interrupted,
    Failed(String),
}

/// How `jq` ends, and what it prints: running out of time counts before anything else, and
/// running out of memory before another failure.
pub fn jq_guest_result(end: &JqGuestEnd, out_of_time: bool, memory: WasmLimiter) -> (r: (
    CommandResult,
    Option<String>,
))
    ensures
        r.0.peak_wasm_memory_bytes == Some(memory.peak_memory_bytes),
        if out_of_time {
            r.0.exit_code == 124 && r.1 is None
        } else {
            match *end {
                JqGuestEnd::Exited(code) => r.0.exit_code == code && r.1 is None,
                JqGuestEnd::Interrupted => if memory.limit_exceeded {
                    r.0.exit_code == 5 && (r.1 matches Some(m) && m@
                        == "jq: memory limit exceeded\n"@)
                } else {
                    r.0.exit_code == 124 && r.1 is None
                },
                JqGuestEnd::Failed(message) => if memory.limit_exceeded {
                    r.0.exit_code == 5 && (r.1 matches Some(m) && m@
                        == "jq: memory limit exceeded\n"@)
                } else {
                    r.0.exit_code == 5 && (r.1 matches Some(m) && m@
                        == "jq: guest execution failed: "@ + message@ + "\n"@)
                },
            }
        },
{
    let (exit_code, message): (i32, Option<String>) = if out_of_time {
        (124, None)
    } else {
        match end {
            JqGuestEnd::Exited(code) => (*code, None),
            JqGuestEnd::Interrupted => {
                if memory.limit_exceeded {
                    (5, Some(text::copy("jq: memory limit exceeded\n")))
                } else {
                    (124, None)
                }
            },
            JqGuestEnd::Failed(message) => {
                if memory.limit_exceeded {
                    (5, Some(text::copy("jq: memory limit exceeded\n")))
                } else {
                    (
                        5,
                        Some(
                            text::concat3("jq: guest execution failed: ", message.as_str(), "\n"),
                        ),
                    )
                }
            },
        }
    };
    (CommandResult::new(exit_code).with_peak_wasm_memory(memory.peak_memory_bytes), message)
}

/// Whatever a guest asks for, its memory never grows beyond what it may have.
pub proof fn law_memory_stays_in_bounds(memory: WasmLimiter, desired: usize)
    requires
        memory.peak_memory_bytes <= memory.max_memory_bytes,
    ensures
        ({
            let after = grown(memory, desired);
            &&& after.max_memory_bytes == memory.max_memory_bytes
            &&& memory.peak_memory_bytes <= after.peak_memory_bytes <= after.max_memory_bytes
            &&& desired > memory.max_memory_bytes ==> after.limit_exceeded
            &&& memory.limit_exceeded ==> after.limit_exceeded
        }),
{
}

/// A guest gets memory up to its limit and no more. The peak is the most that it got, and a
/// request that was refused is remembered and changes nothing else.
pub proof fn law_memory_is_given_up_to_the_limit(memory: WasmLimiter, desired: usize)
    ensures
        ({
            let after = grown(memory, desired);
            &&& after.max_memory_bytes == memory.max_memory_bytes
            &&& desired <= memory.max_memory_bytes ==> after.limit_exceeded == memory.limit_exceeded
                && after.peak_memory_bytes >= desired && after.peak_memory_bytes
                >= memory.peak_memory_bytes && (after.peak_memory_bytes == desired
                || after.peak_memory_bytes == memory.peak_memory_bytes)
            &&& desired > memory.max_memory_bytes ==> after.limit_exceeded
                && after.peak_memory_bytes == memory.peak_memory_bytes
            &&& memory.peak_memory_bytes <= memory.max_memory_bytes ==> after.peak_memory_bytes
                <= after.max_memory_bytes
        }),
{
}

/// A tick is five milliseconds: the ticks of a time cover its milliseconds, one less would not,
/// and there is one at least.
pub proof fn law_ticks_cover_the_time(nanos: int)
    requires
        0 <= nanos,
        nanos / 1_000_000 <= u64::MAX,
    ensures
        ticks_in(nanos) >= 1,
        ticks_in(nanos) * 5 >= nanos / 1_000_000,
        ticks_in(nanos) > 1 ==> (ticks_in(nanos) - 1) * 5 < nanos / 1_000_000,
{
}

/// The generator goes on from where it stands: what it comes to in two goes is what it comes to in
/// one.
pub proof fn law_generator_goes_on(x: u64, m: nat, n: nat)
    ensures
        state_after(x, m + n) == state_after(state_after(x, m), n),
        state_after(x, 0) == x,
    decreases n,
{
    if n > 0 {
        law_generator_goes_on(x, m, (n - 1) as nat);
        assert((m + n - 1) as nat == m + (n - 1) as nat);
    }
}

/// A guest is started exactly where there is time left, its source is no longer than it may be,
/// and its memory is enough to start with.
pub proof fn law_guests_start_within_limits(
    cancelled: bool,
    remaining: u128,
    source: nat,
    source_limit: usize,
    wasm_memory_bytes: usize,
)
    ensures
        start_failure(cancelled, remaining, source, source_limit, wasm_memory_bytes) is None
            <==> !cancelled && remaining > 0 && source <= source_limit && INITIAL_PAGES * 65536
            <= wasm_memory_bytes,
        cancelled || remaining == 0 ==> start_failure(
            cancelled,
            remaining,
            source,
            source_limit,
            wasm_memory_bytes,
        )->Some_0.exit_code == 124,
        !cancelled && remaining > 0 && start_failure(
            cancelled,
            remaining,
            source,
            source_limit,
            wasm_memory_bytes,
        ) is Some ==> start_failure(
            cancelled,
            remaining,
            source,
            source_limit,
            wasm_memory_bytes,
        )->Some_0.exit_code == 1,
{
}

} // verus!
