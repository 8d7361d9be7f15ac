//! What a shell starts with, and how it is set up.

use vstd::prelude::*;

use crate::builtins;
use crate::builtins::files;
use crate::command::Limits;
use crate::env::Env;
use crate::machine;
use crate::path;
use crate::session;
use crate::session::{Session, SessionView};
use crate::text;
use crate::textmap::TextMap;

verus! {

/// Who runs a command.
#[derive(Debug, Clone, Copy, PartialEq, Eq, Structural)]
pub enum CommandSource {
    /// A native command.
    Builtin,
    /// The shell itself.
    Shell,
    /// What an embedder has registered under this number.
    Custom(usize),
}

/// The names of the native commands.
pub open spec fn native_names() -> Seq<Seq<char>> {
    seq![
        "cat"@,
        "cp"@,
        "echo"@,
        "false"@,
        "grep"@,
        "head"@,
        "jq"@,
        "ls"@,
        "mkdir"@,
        "mv"@,
        "pwd"@,
        "rm"@,
        "sed"@,
        "sort"@,
        "stat"@,
        "tail"@,
        "touch"@,
        "true"@,
        "uniq"@,
        "wc"@,
        "which"@,
    ]
}

/// Who runs a command of a shell that nothing was registered with. `js` says whether scripts can
/// be run.
pub open spec fn default_source(name: Seq<char>, js: bool) -> Option<CommandSource> {
    if session::shell_builtin(name) is Some {
        Some(CommandSource::Shell)
    } else if native_names().contains(name) || (js && name == "js"@) {
        Some(CommandSource::Builtin)
    } else {
        None
    }
}

pub open spec fn default_commands(js: bool) -> Map<Seq<char>, CommandSource> {
    Map::new(
        |name: Seq<char>| default_source(name, js) is Some,
        |name: Seq<char>| default_source(name, js)->0,
    )
}

/// The commands of a shell that nothing was registered with.
pub fn default_registry(js: bool) -> (r: TextMap<CommandSource>)
    ensures
        r@ == default_commands(js),
{
    let names = builtins::builtin_names();
    let ghost all = native_names();
    let mut r: TextMap<CommandSource> = TextMap::new();
    let mut i: usize = 0;
    proof {
        assert(names@.map_values(|s: &'static str| s@) == all);
    }
    while i < names.len()
        invariant
            i <= names@.len(),
            all == native_names(),
            names@.map_values(|s: &'static str| s@) == all,
            forall|name: Seq<char>|
                #[trigger] r@.dom().contains(name) <==> all.take(i as int).contains(name),
            forall|name: Seq<char>|
                r@.dom().contains(name) ==> #[trigger] r@[name] == CommandSource::Builtin,
        decreases names@.len() - i,
    {
        let name = names[i];
        proof {
            assert(all[i as int] == name@);
            let before = all.take(i as int);
            let after = all.take(i + 1);
            assert(after =~= before.push(name@));
            assert forall|n: Seq<char>| after.contains(n) <==> before.contains(n) || n == name@ by {
                if before.contains(n) {
                    let k = choose|k: int| 0 <= k < before.len() && before[k] == n;
                    assert(after[k] == n);
                }
                assert(after[i as int] == name@);
                if after.contains(n) {
                    let k = choose|k: int| 0 <= k < after.len() && after[k] == n;
                    if k < i {
                        assert(before[k] == n);
                    }
                }
            }
        }
        r.insert(text::copy(name), CommandSource::Builtin);
        i = i + 1;
    }
    proof {
        assert(all.take(i as int) =~= all);
    }
    if js {
        r.insert(text::copy("js"), CommandSource::Builtin);
    }
    r.insert(text::copy("cd"), CommandSource::Shell);
    r.insert(text::copy("export"), CommandSource::Shell);
    r.insert(text::copy("unset"), CommandSource::Shell);
    proof {
        assert(r@ =~= default_commands(js));
    }
    r
}

/// The commands, the directory and the variables that a shell starts with.
#[derive(Debug)]
pub struct ShellSetup {
    pub commands: TextMap<CommandSource>,
    pub cwd: String,
    pub env: Env,
}

#[verifier::ext_equal]
pub struct SetupView {
    pub commands: Map<Seq<char>, CommandSource>,
    pub cwd: Seq<char>,
    pub env: Map<Seq<char>, Seq<char>>,
}

/// A setup in another directory: `PWD` tells it.
pub open spec fn moved(setup: SetupView, cwd: Seq<char>) -> SetupView {
    SetupView { cwd, env: setup.env.insert("PWD"@, cwd), ..setup }
}

impl ShellSetup {
    pub open spec fn view(&self) -> SetupView {
        SetupView { commands: self.commands@, cwd: self.cwd@, env: self.env@ }
    }

    /// A setup with the default commands, in a directory.
    pub fn new(cwd: &str, js: bool) -> (r: Self)
        ensures
            r@ == (SetupView {
                commands: default_commands(js),
                cwd: cwd@,
                env: Map::empty().insert("PWD"@, cwd@),
            }),
    {
        let mut env = Env::new();
        env.insert(text::copy("PWD"), text::copy(cwd));
        ShellSetup { commands: default_registry(js), cwd: text::copy(cwd), env }
    }

    /// Registers a command. What the shell runs itself cannot be registered.
    pub fn command(&mut self, name: &str, number: usize)
        requires
            session::shell_builtin(name@) is None,
        ensures
            final(self)@ == (SetupView {
                commands: old(self)@.commands.insert(name@, CommandSource::Custom(number)),
                ..old(self)@
            }),
    {
        self.commands.insert(text::copy(name), CommandSource::Custom(number));
    }

    /// Takes a command away, be it a default one or not.
    pub fn without_command(&mut self, name: &str)
        ensures
            final(self)@ == (SetupView {
                commands: old(self)@.commands.remove(name@),
                ..old(self)@
            }),
    {
        self.commands.remove(name);
    }

    /// Sets a variable.
    pub fn env(&mut self, name: &str, value: &str)
        ensures
            final(self)@ == (SetupView { env: old(self)@.env.insert(name@, value@), ..old(self)@ }),
    {
        self.env.insert(text::copy(name), text::copy(value));
    }

    /// Sets the directory.
    pub fn cwd(&mut self, cwd: &str)
        ensures
            final(self)@ == moved(old(self)@, path::normalized(cwd@)),
    {
        let cwd = path::normalize_absolute(cwd);
        self.env.insert(text::copy("PWD"), cwd.clone());
        self.cwd = cwd;
    }

    /// The names under which commands are found.
    pub fn command_names(&self) -> (r: TextMap<()>)
        ensures
            r@.dom() == self@.commands.dom(),
    {
        let entries = self.commands.entries();
        let ghost p = self.commands.pairs();
        let mut r: TextMap<()> = TextMap::new();
        let mut i: usize = 0;
        while i < entries.len()
            invariant
                i <= entries@.len(),
                p == self.commands.pairs(),
                p == crate::textmap::pairs_view(entries@),
                self.commands@ == crate::textmap::pairs_map(p),
                forall|name: Seq<char>|
                    #[trigger] r@.dom().contains(name) <==> exists|j: int|
                        0 <= j < i && (#[trigger] p[j]).0 == name,
            decreases entries@.len() - i,
        {
            proof {
                assert(p[i as int].0 == entries@[i as int].0@);
            }
            r.insert(entries[i].0.clone(), ());
            i = i + 1;
        }
        proof {
            assert(r@.dom() =~= self@.commands.dom());
        }
        r
    }

    /// The session that executions start from.
    pub fn session(&self) -> (r: Session)
        ensures
            r@ == (SessionView { cwd: self@.cwd, env: self@.env, last_status: 0 }),
    {
        Session { cwd: self.cwd.clone(), env: self.env.clone(), last_status: 0 }
    }
}

/// Builder for a sandbox.
#[derive(Debug)]
pub struct SandboxBuilder {
    pub shell: ShellSetup,
    pub limits: Limits,
    pub persist_session: bool,
}

impl SandboxBuilder {
    /// A sandbox in `/workspace`, with the default commands and limits, whose sessions are not
    /// kept.
    pub fn new(js: bool) -> (r: Self)
        ensures
            r.shell@ == (SetupView {
                commands: default_commands(js),
                cwd: "/workspace"@,
                env: Map::empty().insert("PWD"@, "/workspace"@),
            }),
            r.limits == crate::command::default_limits(),
            !r.persist_session,
    {
        SandboxBuilder {
            shell: ShellSetup::new("/workspace", js),
            limits: Limits::default(),
            persist_session: false,
        }
    }

    /// Goes back to the root, where nothing is mounted any more.
    pub fn clear_mounts(self) -> (r: Self)
        ensures
            r.shell@ == moved(self.shell@, "/"@),
            r.limits == self.limits,
            r.persist_session == self.persist_session,
    {
        let mut shell = self.shell;
        shell.cwd = text::copy("/");
        shell.env.insert(text::copy("PWD"), text::copy("/"));
        SandboxBuilder { shell, limits: self.limits, persist_session: self.persist_session }
    }

    /// Sets resource limits for the sandbox.
    pub fn limits(self, limits: Limits) -> (r: Self)
        ensures
            r == (SandboxBuilder { limits, ..self }),
    {
        SandboxBuilder { shell: self.shell, limits, persist_session: self.persist_session }
    }

    /// Enables or disables shell session persistence across executions.
    pub fn persist_session(self, persist: bool) -> (r: Self)
        ensures
            r == (SandboxBuilder { persist_session: persist, ..self }),
    {
        SandboxBuilder { shell: self.shell, limits: self.limits, persist_session: persist }
    }
}

/// Builder for a machine.
#[derive(Debug)]
pub struct MachineBuilder {
    pub shell: ShellSetup,
    pub limits: machine::Limits,
}

impl MachineBuilder {
    /// A machine at the root, with the default commands and limits.
    pub fn new(js: bool) -> (r: Self)
        ensures
            r.shell@ == (SetupView {
                commands: default_commands(js),
                cwd: "/"@,
                env: Map::empty().insert("PWD"@, "/"@),
            }),
            r.limits == machine::default_limits(),
    {
        MachineBuilder { shell: ShellSetup::new("/", js), limits: machine::Limits::default() }
    }

    /// Sets resource limits for the machine.
    pub fn limits(self, limits: machine::Limits) -> (r: Self)
        ensures
            r == (MachineBuilder { limits, ..self }),
    {
        MachineBuilder { shell: self.shell, limits }
    }
}

/// The message with which a builder refuses a command that the shell runs itself.
pub fn reserved_message(builder: &str, name: &str) -> (r: String)
    ensures
        r@ == builder@ + "::command cannot register reserved shell builtin '"@ + name@
            + "'; cd, export, and unset are interpreted by the shell"@,
{
    text::concat4(
        builder,
        "::command cannot register reserved shell builtin '",
        name,
        "'; cd, export, and unset are interpreted by the shell",
    )
}

/// Whatever embedders register, the shell keeps running its own commands itself, until they are
/// taken away.
pub proof fn law_registering_keeps_what_the_shell_runs(
    setup: SetupView,
    name: Seq<char>,
    number: usize,
    own: Seq<char>,
)
    requires
        session::shell_builtin(name) is None,
        session::shell_builtin(own) is Some,
    ensures
        ({
            let after = setup.commands.insert(name, CommandSource::Custom(number));
            &&& after.dom().contains(own) == setup.commands.dom().contains(own)
            &&& setup.commands.dom().contains(own) ==> after[own] == setup.commands[own]
        }),
{
}

/// A command that was registered is looked up as the builtins are: it stands in `/bin`, and
/// `which` finds it there.
pub proof fn law_registered_commands_are_found(
    setup: SetupView,
    name: Seq<char>,
    number: usize,
)
    requires
        !name.contains('/'),
    ensures
        ({
            let after = setup.commands.insert(name, CommandSource::Custom(number)).dom();
            &&& crate::fs::bin_metadata("/bin/"@ + name, after) == Ok::<
                crate::vfs::Metadata,
                crate::vfs::VfsError,
            >(crate::fs::file_metadata())
            &&& files::which_text(seq![name], 1, after) == "/bin/"@ + name + "\n"@
            &&& files::all_known(seq![name], 1, after)
        }),
{
    reveal_strlit("");
    reveal_strlit("/bin/");
    reveal_strlit("/bin");
    assert(crate::fs::bin_name("/bin/"@ + name) =~= name);
    assert(("/bin/"@ + name).len() != "/bin"@.len());
    let after = setup.commands.insert(name, CommandSource::Custom(number)).dom();
    assert(files::which_text(seq![name], 0, after) =~= ""@);
    assert(""@ + "/bin/"@ =~= "/bin/"@);
}

} // verus!
