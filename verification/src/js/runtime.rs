//! The compiled module that guests run on.

use vstd::prelude::*;

use crate::text;

verus! {

/// Where the machine code backing the JavaScript runtime came from.
#[derive(Debug, Clone, Copy, PartialEq, Eq, Structural)]
pub enum RuntimeSource {
    /// Loaded from an artifact that was compiled before.
    Precompiled,
    /// Compiled in this process, which takes longer.
    Compiled,
}

/// Error from the precompiled-runtime APIs.
#[derive(Debug, Clone, PartialEq, Eq)]
pub struct PrecompileError {
    message: String,
}

impl PrecompileError {
    pub closed spec fn view(&self) -> Seq<char> {
        self.message@
    }

    pub fn new(message: String) -> (r: Self)
        ensures
            r@ == message@,
    {
        PrecompileError { message }
    }

    pub fn message(&self) -> (r: &str)
        ensures
            r@ == self@,
    {
        self.message.as_str()
    }
}

/// The stack that a guest may use, in bytes.
pub const WASM_STACK_BYTES: usize = 8_388_608;

/// How the engine that guests run on is set up. What compiles a module ahead of time and what
/// loads it have to agree on it, or else the artifact is rejected.
#[derive(Debug, Clone, Copy, PartialEq, Eq, Structural)]
pub struct EngineSettings {
    /// Whether a guest that runs too long can be interrupted.
    pub interruptible: bool,
    /// The stack that a guest may use, in bytes.
    pub stack_bytes: usize,
}

/// The settings of every engine that guests run on.
pub open spec fn guest_settings() -> EngineSettings {
    EngineSettings { interruptible: true, stack_bytes: WASM_STACK_BYTES }
}

pub fn engine_settings() -> (r: EngineSettings)
    ensures
        r == guest_settings(),
{
    EngineSettings { interruptible: true, stack_bytes: WASM_STACK_BYTES }
}

/// What has failed while a module was compiled.
#[derive(Debug, PartialEq, Eq)]
pub enum CompileFault {
    /// There is no engine with these settings.
    Engine(String),
    /// The module does not compile.
    Module(String),
}

/// Compiles a module with `wasmtime::Engine::precompile_module`, on an engine made by
/// `wasmtime::Engine::new` with the settings of the runtime, and with no others. The artifact
/// depends on the machine, so nothing is said of it, nor of when this fails.
#[verifier::external_body]
fn compile_module(module: &[u8], settings: EngineSettings) -> Result<Vec<u8>, CompileFault>
    requires
        settings == guest_settings(),
{
    let mut config = wasmtime::Config::new();
    config.epoch_interruption(settings.interruptible);
    config.max_wasm_stack(settings.stack_bytes);
    match wasmtime::Engine::new(&config) {
        Err(err) => Err(CompileFault::Engine(err.to_string())),
        Ok(engine) => match engine.precompile_module(module) {
            Err(err) => Err(CompileFault::Module(err.to_string())),
            Ok(artifact) => Ok(artifact),
        },
    }
}

/// What is said of a module that could not be compiled.
pub open spec fn fault_text(fault: CompileFault) -> Seq<char> {
    match fault {
        CompileFault::Engine(message) => "wasmtime engine: "@ + message@,
        CompileFault::Module(message) => "precompile quickjs module: "@ + message@,
    }
}

/// Whether `r` reports what compiling a module has come to.
pub open spec fn told(
    result: Result<Vec<u8>, CompileFault>,
    r: Result<Vec<u8>, PrecompileError>,
) -> bool {
    match result {
        Ok(artifact) => r == Ok::<Vec<u8>, PrecompileError>(artifact),
        Err(fault) => r matches Err(err) && err@ == fault_text(fault),
    }
}

/// The result of compiling a module, as it is reported.
pub fn compiled(result: Result<Vec<u8>, CompileFault>) -> (r: Result<Vec<u8>, PrecompileError>)
    ensures
        told(result, r),
{
    match result {
        Ok(artifact) => Ok(artifact),
        Err(CompileFault::Engine(message)) => Err(
            PrecompileError::new(text::concat2("wasmtime engine: ", message.as_str())),
        ),
        Err(CompileFault::Module(message)) => Err(
            PrecompileError::new(text::concat2("precompile quickjs module: ", message.as_str())),
        ),
    }
}

/// Whether compiling this module, with the settings of the runtime, can come to this.
pub closed spec fn compiles_to(module: &[u8], result: Result<Vec<u8>, CompileFault>) -> bool {
    call_ensures(compile_module, (module, guest_settings()), result)
}

/// Compiles the module that guests run on, and returns the machine-code artifact.
///
/// The artifact is tied to the version of the engine and to the CPU features of the machine it
/// targets, so it is a build output, never a portable asset.
pub fn precompile(module: &[u8]) -> (r: Result<Vec<u8>, PrecompileError>)
    ensures
        exists|result: Result<Vec<u8>, CompileFault>| #[trigger]
            compiles_to(module, result) && told(result, r),
{
    let result = compile_module(module, engine_settings());
    proof {
        assert(compiles_to(module, result));
    }
    compiled(result)
}

// ---- the runtime of a process ----

/// What the runtime of a process has come to: where it came from, or why there is none.
pub type Loaded = Result<RuntimeSource, String>;

pub open spec fn loaded_view(loaded: Loaded) -> Result<RuntimeSource, Seq<char>> {
    match loaded {
        Ok(source) => Ok(source),
        Err(message) => Err(message@),
    }
}

/// Whether a report says what the runtime has come to.
pub open spec fn reports(
    r: Result<RuntimeSource, PrecompileError>,
    loaded: Result<RuntimeSource, Seq<char>>,
) -> bool {
    match loaded {
        Ok(source) => r == Ok::<RuntimeSource, PrecompileError>(source),
        Err(message) => r matches Err(err) && err@ == message,
    }
}

/// What is known of the runtime of a process, which is set up once.
#[derive(Debug)]
pub struct RuntimeCell {
    first: Option<Loaded>,
}

/// What has failed while an artifact was installed.
#[derive(Debug, PartialEq, Eq)]
pub enum InstallFault {
    /// There is no engine.
    Engine(String),
    /// The artifact is not one of this engine.
    Artifact(String),
    /// The module does not fit its host.
    Link(String),
}

pub enum InstallFaultView {
    Engine(Seq<char>),
    Artifact(Seq<char>),
    Link(Seq<char>),
}

impl InstallFault {
    pub open spec fn view(&self) -> InstallFaultView {
        match self {
            InstallFault::Engine(message) => InstallFaultView::Engine(message@),
            InstallFault::Artifact(message) => InstallFaultView::Artifact(message@),
            InstallFault::Link(message) => InstallFaultView::Link(message@),
        }
    }
}

/// What is said of an artifact that could not be installed.
pub open spec fn install_text(fault: InstallFaultView) -> Seq<char> {
    match fault {
        InstallFaultView::Engine(message) => "wasmtime engine: "@ + message,
        InstallFaultView::Artifact(message) => "deserialize quickjs module: "@ + message,
        InstallFaultView::Link(message) => "link quickjs runtime: "@ + message,
    }
}

/// What is said of an artifact that comes too late.
pub open spec fn already_text() -> Seq<char> {
    "the JavaScript runtime is already initialized in this process"@
}

/// What is known after the runtime was asked for: it is loaded only where nothing was known.
pub open spec fn after_loading(
    known: Option<Result<RuntimeSource, Seq<char>>>,
    loaded: Result<RuntimeSource, Seq<char>>,
) -> Option<Result<RuntimeSource, Seq<char>>> {
    match known {
        Some(_) => known,
        None => Some(loaded),
    }
}

/// What is known after an artifact was installed or could not be: a failure leaves all as it was.
pub open spec fn after_install(
    known: Option<Result<RuntimeSource, Seq<char>>>,
    installed: bool,
) -> Option<Result<RuntimeSource, Seq<char>>> {
    if known is None && installed {
        Some(Ok(RuntimeSource::Precompiled))
    } else {
        known
    }
}

impl RuntimeCell {
    pub closed spec fn view(&self) -> Option<Result<RuntimeSource, Seq<char>>> {
        match self.first {
            Some(loaded) => Some(loaded_view(loaded)),
            None => None,
        }
    }

    pub fn new() -> (r: Self)
        ensures
            r@ is None,
    {
        RuntimeCell { first: None }
    }

    /// What is known of the runtime, if it was set up or could not be.
    pub fn known(&self) -> (r: Option<Result<RuntimeSource, PrecompileError>>)
        ensures
            match self@ {
                Some(loaded) => r matches Some(report) && reports(report, loaded),
                None => r is None,
            },
    {
        match &self.first {
            Some(Ok(source)) => Some(Ok(*source)),
            Some(Err(message)) => Some(Err(PrecompileError::new(message.clone()))),
            None => None,
        }
    }
}

/// Reports where the runtime came from, or why there is none. What was loaded counts only where
/// nothing was known before.
pub fn runtime_source(cell: &mut RuntimeCell, loaded: Loaded) -> (r: Result<
    RuntimeSource,
    PrecompileError,
>)
    ensures
        final(cell)@ == after_loading(old(cell)@, loaded_view(loaded)),
        final(cell)@ matches Some(first) && reports(r, first),
{
    match cell.known() {
        Some(report) => report,
        None => {
            let report = match &loaded {
                Ok(source) => Ok(*source),
                Err(message) => Err(PrecompileError::new(message.clone())),
            };
            cell.first = Some(loaded);
            report
        },
    }
}

/// Checks that an artifact may still be installed: the runtime is set up once per process.
pub fn check_install(cell: &RuntimeCell) -> (r: Result<(), PrecompileError>)
    ensures
        match cell@ {
            Some(_) => r matches Err(err) && err@ == already_text(),
            None => r is Ok,
        },
{
    match cell.known() {
        Some(_) => Err(
            PrecompileError::new(
                text::copy("the JavaScript runtime is already initialized in this process"),
            ),
        ),
        None => Ok(()),
    }
}

/// Takes note of an artifact that was made ready to be installed, or could not be.
pub fn install(cell: &mut RuntimeCell, ready: Result<(), InstallFault>) -> (r: Result<
    (),
    PrecompileError,
>)
    ensures
        final(cell)@ == after_install(old(cell)@, ready is Ok),
        match old(cell)@ {
            Some(_) => r matches Err(err) && err@ == already_text(),
            None => match ready {
                Ok(()) => r is Ok,
                Err(fault) => r matches Err(err) && err@ == install_text(fault@),
            },
        },
{
    match check_install(cell) {
        Ok(()) => {},
        Err(err) => {
            return Err(err);
        },
    }
    match ready {
        Ok(()) => {
            cell.first = Some(Ok(RuntimeSource::Precompiled));
            Ok(())
        },
        Err(InstallFault::Engine(message)) => Err(
            PrecompileError::new(text::concat2("wasmtime engine: ", message.as_str())),
        ),
        Err(InstallFault::Artifact(message)) => Err(
            PrecompileError::new(text::concat2("deserialize quickjs module: ", message.as_str())),
        ),
        Err(InstallFault::Link(message)) => Err(
            PrecompileError::new(text::concat2("link quickjs runtime: ", message.as_str())),
        ),
    }
}

/// What may happen to the runtime of a process.
pub enum RuntimeEvent {
    /// It is asked for, and this is what loading it would come to.
    Asked(Result<RuntimeSource, Seq<char>>),
    /// An artifact is to be installed, and whether it is ready for that.
    Installed(bool),
}

/// What is known after the first `n` events.
pub open spec fn known_after(
    known: Option<Result<RuntimeSource, Seq<char>>>,
    events: Seq<RuntimeEvent>,
    n: int,
) -> Option<Result<RuntimeSource, Seq<char>>>
    decreases n,
{
    if n <= 0 {
        known
    } else {
        let before = known_after(known, events, n - 1);
        match events[n - 1] {
            RuntimeEvent::Asked(loaded) => after_loading(before, loaded),
            RuntimeEvent::Installed(ready) => after_install(before, ready),
        }
    }
}

/// The runtime stays the one that was first set up: once it was asked for, it is reported the same
/// ever after, whatever is loaded or installed in between.
pub proof fn law_runtime_is_set_up_once(
    known: Option<Result<RuntimeSource, Seq<char>>>,
    loaded: Result<RuntimeSource, Seq<char>>,
    events: Seq<RuntimeEvent>,
    n: int,
    later: Result<RuntimeSource, Seq<char>>,
)
    requires
        0 <= n <= events.len(),
    ensures
        known_after(after_loading(known, loaded), events, n) == after_loading(known, loaded),
        after_loading(known_after(after_loading(known, loaded), events, n), later)
            == after_loading(known, loaded),
    decreases n,
{
    if n > 0 {
        law_runtime_is_set_up_once(known, loaded, events, n - 1, later);
    }
}

} // verus!
