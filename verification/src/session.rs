//! The shell session: the directory and the variables that commands run with, and the commands
//! that change them.

use vstd::prelude::*;

use crate::env::Env;
use crate::expand;
use crate::path;
use crate::shell::{AssignmentView, SimpleCommand, SimpleView};
use crate::text;
use crate::vfs;
use crate::vfs::{Errno, FileType, Metadata, VfsError};

verus! {

/// Where commands run, and with which variables.
#[derive(Debug)]
pub struct Session {
    pub cwd: String,
    pub env: Env,
    pub last_status: i32,
}

#[verifier::ext_equal]
pub struct SessionView {
    pub cwd: Seq<char>,
    pub env: Map<Seq<char>, Seq<char>>,
    pub last_status: i32,
}

impl Session {
    pub open spec fn view(&self) -> SessionView {
        SessionView { cwd: self.cwd@, env: self.env@, last_status: self.last_status }
    }
}

impl Clone for Session {
    fn clone(&self) -> (r: Self)
        ensures
            r@ == self@,
    {
        Session { cwd: self.cwd.clone(), env: self.env.clone(), last_status: self.last_status }
    }
}

/// The session that later executions start from. What an execution has changed is kept only
/// where sessions persist and the execution was not cancelled.
pub fn session_to_store(stored: Session, changed: Session, persist: bool, cancelled: bool) -> (r:
    Session)
    ensures
        r == (if persist && !cancelled {
            changed
        } else {
            stored
        }),
{
    if persist && !cancelled {
        changed
    } else {
        stored
    }
}

/// The session that executions start from, and whether it persists.
#[derive(Debug)]
pub struct Sessions {
    pub session: Session,
    pub persist: bool,
}

#[verifier::ext_equal]
pub struct SessionsView {
    pub session: SessionView,
    pub persist: bool,
}

impl Sessions {
    pub open spec fn view(&self) -> SessionsView {
        SessionsView { session: self.session@, persist: self.persist }
    }

    pub fn new(session: Session, persist: bool) -> (r: Self)
        ensures
            r@ == (SessionsView { session: session@, persist }),
    {
        Sessions { session, persist }
    }

    /// The session that an execution starts from, as its own copy.
    pub fn start(&self) -> (r: Session)
        ensures
            r@ == self@.session,
    {
        self.session.clone()
    }

    /// Takes note of what an execution has made of its session.
    pub fn end(&mut self, changed: Session, last_status: i32, cancelled: bool)
        ensures
            final(self)@ == kept(
                old(self)@,
                (SessionView { last_status, ..changed@ }),
                cancelled,
            ),
    {
        let changed = Session { cwd: changed.cwd, env: changed.env, last_status };
        let stored = self.session.clone();
        self.session = session_to_store(stored, changed, self.persist, cancelled);
    }
}

/// What later executions start from once one has ended.
pub open spec fn kept(before: SessionsView, changed: SessionView, cancelled: bool) -> SessionsView {
    SessionsView {
        session: if before.persist && !cancelled {
            changed
        } else {
            before.session
        },
        ..before
    }
}

/// What the next execution starts from after some others: for each, what it has made of its
/// session and whether it was cancelled.
pub open spec fn after_executions(
    start: SessionsView,
    ended: Seq<(SessionView, bool)>,
) -> SessionsView
    decreases ended.len(),
{
    if ended.len() == 0 {
        start
    } else {
        kept(after_executions(start, ended.drop_last()), ended.last().0, ended.last().1)
    }
}

/// Where sessions do not persist, every execution starts from the first session, whatever those
/// before it did. Where they do, it starts from what the one before it has left, or, if that was
/// cancelled, from where that one started.
pub proof fn law_executions_start_afresh_or_go_on(
    start: SessionsView,
    ended: Seq<(SessionView, bool)>,
)
    ensures
        !start.persist ==> after_executions(start, ended).session == start.session,
        start.persist && ended.len() > 0 ==> after_executions(start, ended).session == (
        if ended.last().1 {
            after_executions(start, ended.drop_last()).session
        } else {
            ended.last().0
        }),
        after_executions(start, ended).persist == start.persist,
    decreases ended.len(),
{
    if ended.len() > 0 {
        law_executions_start_afresh_or_go_on(start, ended.drop_last());
    }
}

/// The commands that the shell runs itself, because they change the session.
#[derive(Debug, Clone, Copy, PartialEq, Eq, Structural)]
pub enum ShellBuiltin {
    Cd,
    Export,
    Unset,
}

pub open spec fn shell_builtin(name: Seq<char>) -> Option<ShellBuiltin> {
    if name == "cd"@ {
        Some(ShellBuiltin::Cd)
    } else if name == "export"@ {
        Some(ShellBuiltin::Export)
    } else if name == "unset"@ {
        Some(ShellBuiltin::Unset)
    } else {
        None
    }
}

pub fn shell_builtin_of(name: &str) -> (r: Option<ShellBuiltin>)
    ensures
        r == shell_builtin(name@),
{
    if text::str_eq(name, "cd") {
        Some(ShellBuiltin::Cd)
    } else if text::str_eq(name, "export") {
        Some(ShellBuiltin::Export)
    } else if text::str_eq(name, "unset") {
        Some(ShellBuiltin::Unset)
    } else {
        None
    }
}

/// Whether the shell runs a command itself. Such a name cannot be given to a command of one's
/// own.
pub fn is_shell_builtin_name(name: &str) -> (r: bool)
    ensures
        r == shell_builtin(name@).is_some(),
{
    shell_builtin_of(name).is_some()
}

/// What a command that the shell runs itself has printed, and how it ended.
#[derive(Debug, PartialEq, Eq)]
pub struct BuiltinOutcome {
    pub stdout: String,
    pub stderr: String,
    pub exit_code: i32,
}

#[verifier::ext_equal]
pub struct BuiltinOutcomeView {
    pub stdout: Seq<char>,
    pub stderr: Seq<char>,
    pub exit_code: i32,
}

impl BuiltinOutcome {
    pub open spec fn view(&self) -> BuiltinOutcomeView {
        BuiltinOutcomeView {
            stdout: self.stdout@,
            stderr: self.stderr@,
            exit_code: self.exit_code,
        }
    }
}

/// The outcome of a command that printed nothing and succeeded.
pub open spec fn silent_success() -> BuiltinOutcomeView {
    BuiltinOutcomeView { stdout: Seq::empty(), stderr: Seq::empty(), exit_code: 0 }
}

/// The outcome of a command that failed with a message.
pub open spec fn failed_with(message: Seq<char>) -> BuiltinOutcomeView {
    BuiltinOutcomeView { stdout: Seq::empty(), stderr: message, exit_code: 1 }
}

fn success() -> (r: BuiltinOutcome)
    ensures
        r@ == silent_success(),
{
    let r = BuiltinOutcome { stdout: String::new(), stderr: String::new(), exit_code: 0 };
    proof {
        assert(r@ =~= silent_success());
    }
    r
}

fn failure(message: String) -> (r: BuiltinOutcome)
    ensures
        r@ == failed_with(message@),
{
    let r = BuiltinOutcome { stdout: String::new(), stderr: message, exit_code: 1 };
    proof {
        assert(r@ =~= failed_with(message@));
    }
    r
}

// ---- cd ----

/// The directory that `cd` was asked for, as it was given and as it is looked up.
#[derive(Debug, PartialEq, Eq)]
pub struct CdTarget {
    pub target: String,
    pub path: String,
}

/// What `cd` is asked to change to, or why it cannot be.
pub open spec fn cd_target(args: Seq<Seq<char>>, env: Map<Seq<char>, Seq<char>>) -> Result<
    Seq<char>,
    Seq<char>,
> {
    if args.len() > 1 {
        Err("cd: too many arguments\n"@)
    } else if args.len() == 1 {
        Ok(args[0])
    } else if env.dom().contains("HOME"@) {
        Ok(env["HOME"@])
    } else {
        Err("cd: HOME not set\n"@)
    }
}

/// Plans `cd`: the directory is looked up before anything changes.
pub fn plan_cd(args: &Vec<String>, session: &Session) -> (r: Result<CdTarget, BuiltinOutcome>)
    ensures
        match cd_target(text::texts(args@), session@.env) {
            Ok(target) => r matches Ok(cd) && cd.target@ == target && cd.path@ == path::resolved(
                session@.cwd,
                target,
            ),
            Err(message) => r matches Err(outcome) && outcome@ == failed_with(message),
        },
{
    if args.len() > 1 {
        return Err(failure(text::copy("cd: too many arguments\n")));
    }
    let target = if args.len() == 1 {
        proof {
            assert(text::texts(args@)[0] == args@[0]@);
        }
        args[0].clone()
    } else {
        match session.env.get("HOME") {
            Some(home) => home.clone(),
            None => {
                return Err(failure(text::copy("cd: HOME not set\n")));
            },
        }
    };
    let path = path::resolve(session.cwd.as_str(), target.as_str());
    Ok(CdTarget { target, path })
}

/// The session after `cd` has succeeded: `PWD` is the new directory, `OLDPWD` the one before.
pub open spec fn after_cd(session: SessionView, path: Seq<char>) -> SessionView {
    SessionView {
        cwd: path,
        env: session.env.insert("OLDPWD"@, session.cwd).insert("PWD"@, path),
        last_status: session.last_status,
    }
}

/// Carries `cd` out, once the directory was looked up.
pub fn finish_cd(session: &mut Session, cd: CdTarget, found: Result<Metadata, VfsError>) -> (r:
    BuiltinOutcome)
    ensures
        match found {
            Ok(metadata) if metadata.file_type == FileType::Directory => {
                &&& r@ == silent_success()
                &&& final(session)@ == after_cd(old(session)@, cd.path@)
            },
            Ok(_) => {
                &&& r@ == failed_with("cd: "@ + cd.target@ + ": Not a directory\n"@)
                &&& final(session)@ == old(session)@
            },
            Err(err) => {
                &&& r@ == failed_with(
                    "cd: "@ + cd.target@ + ": "@ + vfs::errno_text(err.errno) + "\n"@,
                )
                &&& final(session)@ == old(session)@
            },
        },
{
    match found {
        Ok(metadata) => {
            match metadata.file_type {
                FileType::Directory => {
                    session.env.insert(text::copy("OLDPWD"), session.cwd.clone());
                    session.env.insert(text::copy("PWD"), cd.path.clone());
                    session.cwd = cd.path;
                    success()
                },
                FileType::File => failure(
                    text::concat3("cd: ", cd.target.as_str(), ": Not a directory\n"),
                ),
            }
        },
        Err(err) => failure(
            text::concat5("cd: ", cd.target.as_str(), ": ", vfs::errno_message(err.errno()), "\n"),
        ),
    }
}

// ---- export and unset ----

/// The lines that `export` prints for the first `n` variables.
pub open spec fn export_listing(pairs: Seq<(Seq<char>, Seq<char>)>, n: int) -> Seq<char>
    decreases n,
{
    if n <= 0 {
        Seq::empty()
    } else {
        export_listing(pairs, n - 1) + ("declare -x "@ + pairs[n - 1].0 + "=\""@ + pairs[n - 1].1
            + "\"\n"@)
    }
}

/// What is said of a name that no variable can have.
pub open spec fn invalid_identifier(cmd: Seq<char>, arg: Seq<char>) -> Seq<char> {
    cmd + ": `"@ + arg + "': not a valid identifier\n"@
}

/// The variables after one argument of `export`, or why it is refused.
pub open spec fn export_step(env: Map<Seq<char>, Seq<char>>, arg: Seq<char>) -> Result<
    Map<Seq<char>, Seq<char>>,
    Seq<char>,
> {
    let equals = text::find_from(arg, '=', 0);
    let name = arg.take(equals);
    if !crate::shell::parse::assignment_name(name) {
        Err(invalid_identifier("export"@, arg))
    } else if equals < arg.len() {
        Ok(env.insert(name, arg.skip(equals + 1)))
    } else if env.dom().contains(arg) {
        Ok(env)
    } else {
        Ok(env.insert(arg, Seq::empty()))
    }
}

/// The variables after the arguments of `export` from `i` on, with the first refusal. What came
/// before a refusal stays.
pub open spec fn exported(
    env: Map<Seq<char>, Seq<char>>,
    args: Seq<Seq<char>>,
    i: int,
) -> (Map<Seq<char>, Seq<char>>, Option<Seq<char>>)
    decreases args.len() - i,
{
    if i < 0 || i >= args.len() {
        (env, None)
    } else {
        match export_step(env, args[i]) {
            Ok(next) => exported(next, args, i + 1),
            Err(message) => (env, Some(message)),
        }
    }
}

/// The variables after the arguments of `unset` from `i` on, with the first refusal.
pub open spec fn unset(
    env: Map<Seq<char>, Seq<char>>,
    args: Seq<Seq<char>>,
    i: int,
) -> (Map<Seq<char>, Seq<char>>, Option<Seq<char>>)
    decreases args.len() - i,
{
    if i < 0 || i >= args.len() {
        (env, None)
    } else if crate::shell::parse::assignment_name(args[i]) {
        unset(env.remove(args[i]), args, i + 1)
    } else {
        (env, Some(invalid_identifier("unset"@, args[i])))
    }
}

/// The outcome of a command that printed nothing and may have refused an argument.
pub open spec fn quiet_outcome(refusal: Option<Seq<char>>) -> BuiltinOutcomeView {
    match refusal {
        None => silent_success(),
        Some(message) => failed_with(message),
    }
}

fn list_exports(env: &Env) -> (r: String)
    ensures
        r@ == export_listing(env.pairs(), env.pairs().len() as int),
{
    let entries = env.entries();
    let ghost p = env.pairs();
    let mut r = String::new();
    let mut i: usize = 0;
    proof {
        assert(r@ =~= export_listing(p, 0));
    }
    while i < entries.len()
        invariant
            i <= entries@.len(),
            p == env.pairs(),
            p.len() == entries@.len(),
            forall|j: int|
                0 <= j < p.len() ==> #[trigger] p[j] == (entries@[j].0@, entries@[j].1@),
            r@ == export_listing(p, i as int),
        decreases entries@.len() - i,
    {
        proof {
            assert(p[i as int] == (entries@[i as int].0@, entries@[i as int].1@));
        }
        let line = text::concat5(
            "declare -x ",
            entries[i].0.as_str(),
            "=\"",
            entries[i].1.as_str(),
            "\"\n",
        );
        r.append(line.as_str());
        i = i + 1;
    }
    r
}

fn invalid(cmd: &str, arg: &str) -> (r: BuiltinOutcome)
    ensures
        r@ == failed_with(invalid_identifier(cmd@, arg@)),
{
    failure(text::concat4(cmd, ": `", arg, "': not a valid identifier\n"))
}

/// Runs `export`: without arguments it lists the variables, otherwise it sets them.
pub fn run_export(session: &mut Session, args: &Vec<String>) -> (r: BuiltinOutcome)
    ensures
        args@.len() == 0 ==> {
            &&& r@ == (BuiltinOutcomeView {
                stdout: export_listing(
                    old(session).env.pairs(),
                    old(session).env.pairs().len() as int,
                ),
                ..silent_success()
            })
            &&& final(session)@ == old(session)@
        },
        args@.len() > 0 ==> {
            let (env, refusal) = exported(old(session)@.env, text::texts(args@), 0);
            &&& r@ == quiet_outcome(refusal)
            &&& final(session)@ == (SessionView { env, ..old(session)@ })
        },
{
    if args.len() == 0 {
        let stdout = list_exports(&session.env);
        let r = BuiltinOutcome { stdout, stderr: String::new(), exit_code: 0 };
        proof {
            assert(r.stderr@ =~= Seq::<char>::empty());
        }
        return r;
    }
    let ghost all = text::texts(args@);
    let ghost start = session@;
    let mut i: usize = 0;
    while i < args.len()
        invariant
            i <= args@.len(),
            args@.len() > 0,
            all == text::texts(args@),
            start == old(session)@,
            session@.cwd == start.cwd,
            session@.last_status == start.last_status,
            exported(session@.env, all, i as int) == exported(start.env, all, 0),
        decreases args@.len() - i,
    {
        let arg = args[i].as_str();
        proof {
            assert(all[i as int] == arg@);
            text::lemma_find_from(arg@, '=', 0);
        }
        let chars = text::to_chars(arg);
        let equals = find_equals(&chars);
        let name = text::from_range(&chars, 0, equals);
        proof {
            assert(name@ =~= arg@.take(equals as int));
        }
        if !crate::shell::parse::is_assignment_name(name.as_str()) {
            return invalid("export", arg);
        }
        if equals < chars.len() {
            let value = text::from_range(&chars, equals + 1, chars.len());
            proof {
                assert(value@ =~= arg@.skip(equals + 1));
            }
            session.env.insert(name, value);
        } else {
            proof {
                assert(name@ =~= arg@);
            }
            let known = session.env.get(arg).is_some();
            if !known {
                let value = String::new();
                proof {
                    assert(value@ =~= Seq::<char>::empty());
                }
                session.env.insert(name, value);
            }
        }
        i = i + 1;
    }
    success()
}

fn find_equals(chars: &Vec<char>) -> (r: usize)
    ensures
        r == text::find_from(chars@, '=', 0),
        r <= chars@.len(),
{
    let mut i: usize = 0;
    while i < chars.len() && chars[i] != '='
        invariant
            i <= chars@.len(),
            text::find_from(chars@, '=', 0) == text::find_from(chars@, '=', i as int),
        decreases chars@.len() - i,
    {
        i = i + 1;
    }
    i
}

/// Runs `unset`.
pub fn run_unset(session: &mut Session, args: &Vec<String>) -> (r: BuiltinOutcome)
    ensures
        ({
            let (env, refusal) = unset(old(session)@.env, text::texts(args@), 0);
            &&& r@ == quiet_outcome(refusal)
            &&& final(session)@ == (SessionView { env, ..old(session)@ })
        }),
{
    let ghost all = text::texts(args@);
    let ghost start = session@;
    let mut i: usize = 0;
    while i < args.len()
        invariant
            i <= args@.len(),
            all == text::texts(args@),
            start == old(session)@,
            session@.cwd == start.cwd,
            session@.last_status == start.last_status,
            unset(session@.env, all, i as int) == unset(start.env, all, 0),
        decreases args@.len() - i,
    {
        let arg = args[i].as_str();
        proof {
            assert(all[i as int] == arg@);
        }
        if !crate::shell::parse::is_assignment_name(arg) {
            return invalid("unset", arg);
        }
        session.env.remove(arg);
        i = i + 1;
    }
    success()
}

/// After `export name=value` the variable has that value, and `unset name` takes it away again.
pub proof fn law_unset_undoes_export(
    env: Map<Seq<char>, Seq<char>>,
    name: Seq<char>,
    value: Seq<char>,
)
    requires
        crate::shell::parse::assignment_name(name),
    ensures
        ({
            let (set, refused) = exported(env, seq![name + "="@ + value], 0);
            let (cleared, refused_too) = unset(set, seq![name], 0);
            &&& refused is None
            &&& set.dom().contains(name) && set[name] == value
            &&& forall|k: Seq<char>| #[trigger] set.dom().contains(k) && k != name ==> env.dom().contains(k) && set[k] == env[k]
            &&& refused_too is None
            &&& cleared == env.remove(name)
        }),
{
    reveal_strlit("=");
    let arg = name + "="@ + value;
    let args = seq![arg];
    let n = name.len() as int;
    assert(arg[n] == '=');
    text::lemma_find_from(arg, '=', 0);
    let e = text::find_from(arg, '=', 0);
    assert(e == n) by {
        if e < n {
            assert(arg[e] == name[e]);
            assert(crate::shell::lex::name_char(name[e]));
        }
    }
    assert(arg.take(e) =~= name);
    assert(arg.skip(e + 1) =~= value);
    reveal_with_fuel(exported, 2);
    reveal_with_fuel(unset, 2);
    assert(args[0] == arg);
    assert(seq![name][0] == name);
    let set = env.insert(name, value);
    assert(set.remove(name) =~= env.remove(name));
}

// ---- what a command runs with ----

/// The variables with the first `n` pairs set.
pub open spec fn with_pairs(
    env: Map<Seq<char>, Seq<char>>,
    pairs: Seq<(Seq<char>, Seq<char>)>,
    n: int,
) -> Map<Seq<char>, Seq<char>>
    decreases n,
{
    if n <= 0 {
        env
    } else {
        with_pairs(env, pairs, n - 1).insert(pairs[n - 1].0, pairs[n - 1].1)
    }
}

/// Setting the names and values of assignments gives the variables after them.
pub proof fn lemma_assigned_pairs(
    assignments: Seq<AssignmentView>,
    n: int,
    env: Map<Seq<char>, Seq<char>>,
    status: int,
)
    requires
        0 <= n <= assignments.len(),
    ensures
        with_pairs(env, expand::assigned_pairs(assignments, env, status), n) == expand::env_after(
            assignments,
            n,
            env,
            status,
        ),
    decreases n,
{
    if n > 0 {
        lemma_assigned_pairs(assignments, n - 1, env, status);
    }
}

/// Sets variables.
pub fn assign(env: &mut Env, pairs: &Vec<(String, String)>)
    ensures
        final(env)@ == with_pairs(
            old(env)@,
            expand::string_pairs_view(pairs@),
            pairs@.len() as int,
        ),
{
    let ghost p = expand::string_pairs_view(pairs@);
    let ghost start = env@;
    let mut i: usize = 0;
    while i < pairs.len()
        invariant
            i <= pairs@.len(),
            p == expand::string_pairs_view(pairs@),
            start == old(env)@,
            env@ == with_pairs(start, p, i as int),
        decreases pairs@.len() - i,
    {
        proof {
            assert(p[i as int] == (pairs@[i as int].0@, pairs@[i as int].1@));
        }
        env.insert(pairs[i].0.clone(), pairs[i].1.clone());
        i = i + 1;
    }
}

/// A command whose words and assignments are expanded.
#[derive(Debug)]
pub struct PreparedCommand {
    pub assignments: Vec<(String, String)>,
    pub words: Vec<String>,
}

impl PreparedCommand {
    /// The arguments behind the command's name.
    pub fn args(&self) -> (r: Vec<String>)
        ensures
            text::texts(r@) == (if self.words@.len() == 0 {
                Seq::empty()
            } else {
                text::texts(self.words@).skip(1)
            }),
    {
        let mut r: Vec<String> = Vec::new();
        let ghost all = text::texts(self.words@);
        if self.words.len() == 0 {
            proof {
                assert(text::texts(r@) =~= Seq::empty());
            }
            return r;
        }
        let mut i: usize = 1;
        proof {
            assert(text::texts(r@) =~= all.subrange(1, 1));
        }
        while i < self.words.len()
            invariant
                1 <= i <= self.words@.len(),
                all == text::texts(self.words@),
                text::texts(r@) == all.subrange(1, i as int),
            decreases self.words@.len() - i,
        {
            let ghost before = r@;
            let word = self.words[i].clone();
            r.push(word);
            proof {
                assert(text::texts(r@) =~= text::texts(before).push(word@));
                assert(all[i as int] == self.words@[i as int]@);
                assert(all.subrange(1, i + 1) =~= all.subrange(1, i as int).push(all[i as int]));
            }
            i = i + 1;
        }
        proof {
            assert(all.subrange(1, i as int) =~= all.skip(1));
        }
        r
    }
}

/// Expands the assignments and the words of a command. The words see the variables as they are;
/// each assignment sees those before it too.
pub fn prepare_command(simple: &SimpleCommand, env: &Env, last_status: i32) -> (r: PreparedCommand)
    ensures
        expand::string_pairs_view(r.assignments@) == expand::assigned_pairs(
            simple@.assignments,
            env@,
            last_status as int,
        ),
        text::texts(r.words@) == expand::words_fields(
            simple@.words,
            simple@.words.len() as int,
            env@,
            last_status as int,
        ),
{
    let assignments = expand::expand_assignments(&simple.assignments, env, last_status);
    let words = expand::expand_words(&simple.words, env, last_status);
    PreparedCommand { assignments, words }
}

/// What the failures of a lone command are reported under.
pub open spec fn command_name(words: Seq<Seq<char>>) -> Seq<char> {
    if words.len() > 0 {
        words[0]
    } else {
        "tinysandbox"@
    }
}

pub fn single_name(command: &PreparedCommand) -> (r: String)
    ensures
        r@ == command_name(text::texts(command.words@)),
{
    if command.words.len() > 0 {
        proof {
            assert(text::texts(command.words@)[0] == command.words@[0]@);
        }
        command.words[0].clone()
    } else {
        text::copy("tinysandbox")
    }
}

/// What a stage of a pipeline is called: its first word, or its first variable.
pub open spec fn stage_name(simple: SimpleView, words: Seq<Seq<char>>) -> Seq<char> {
    if words.len() > 0 {
        words[0]
    } else if simple.assignments.len() > 0 {
        simple.assignments[0].name
    } else {
        "<empty>"@
    }
}

pub fn name_of_stage(simple: &SimpleCommand, command: &PreparedCommand) -> (r: String)
    ensures
        r@ == stage_name(simple@, text::texts(command.words@)),
{
    if command.words.len() > 0 {
        proof {
            assert(text::texts(command.words@)[0] == command.words@[0]@);
        }
        command.words[0].clone()
    } else if simple.assignments.len() > 0 {
        proof {
            assert(simple@.assignments[0] == simple.assignments@[0]@);
        }
        simple.assignments[0].name.clone()
    } else {
        text::copy("<empty>")
    }
}

/// The variables that a command sees: those of the session, its own assignments, and the status
/// before it.
pub open spec fn visible_env(
    env: Map<Seq<char>, Seq<char>>,
    pairs: Seq<(Seq<char>, Seq<char>)>,
    status: int,
) -> Map<Seq<char>, Seq<char>> {
    with_pairs(env, pairs, pairs.len() as int).insert("?"@, text::integer_text(status))
}

pub fn command_env(env: &Env, command: &PreparedCommand, last_status: i32) -> (r: Env)
    ensures
        r@ == visible_env(
            env@,
            expand::string_pairs_view(command.assignments@),
            last_status as int,
        ),
{
    let mut r = env.clone();
    assign(&mut r, &command.assignments);
    r.insert(text::copy("?"), text::integer(last_status as i64));
    r
}

/// Where a command is found.
#[derive(Debug, Clone, Copy, PartialEq, Eq, Structural)]
pub enum Dispatch {
    /// The shell runs it.
    Shell(ShellBuiltin),
    /// It is one of the commands that there are.
    Registered,
    /// There is no such command.
    NotFound,
}

pub open spec fn dispatch(name: Seq<char>, known: bool) -> Dispatch {
    if !known {
        Dispatch::NotFound
    } else {
        match shell_builtin(name) {
            Some(builtin) => Dispatch::Shell(builtin),
            None => Dispatch::Registered,
        }
    }
}

/// Decides who runs a command. A command that was taken away is not found, even if the shell
/// would run it.
pub fn dispatch_command(name: &str, known: bool) -> (r: Dispatch)
    ensures
        r == dispatch(name@, known),
{
    if !known {
        return Dispatch::NotFound;
    }
    match shell_builtin_of(name) {
        Some(builtin) => Dispatch::Shell(builtin),
        None => Dispatch::Registered,
    }
}

/// What is said of a command that there is not.
pub fn not_found_message(name: &str) -> (r: String)
    ensures
        r@ == name@ + ": command not found\n"@,
{
    text::concat2(name, ": command not found\n")
}

/// What is said of a file that a command cannot use.
pub open spec fn file_error_text(name: Seq<char>, path: Seq<char>, errno: Errno) -> Seq<char> {
    name + ": "@ + path + ": "@ + vfs::errno_text(errno) + "\n"@
}

pub fn file_error_message(name: &str, path: &str, err: VfsError) -> (r: String)
    ensures
        r@ == file_error_text(name@, path@, err.errno),
{
    let front = text::concat4(name, ": ", path, ": ");
    text::concat3(front.as_str(), vfs::errno_message(err.errno()), "\n")
}

// ---- what the builtins of a session come to ----

/// Where an argument of `export` has no `=`, it has no place to start a value.
proof fn lemma_no_equals(arg: Seq<char>)
    requires
        !arg.contains('='),
    ensures
        text::find_from(arg, '=', 0) == arg.len(),
        arg.take(arg.len() as int) == arg,
{
    text::lemma_find_from(arg, '=', 0);
    assert(arg.take(arg.len() as int) =~= arg);
}

/// `export` with names alone changes the value of no variable that is set; it makes those that are
/// not set empty, and touches no others.
pub proof fn law_exporting_names_keeps_values(
    env: Map<Seq<char>, Seq<char>>,
    names: Seq<Seq<char>>,
    i: int,
)
    requires
        0 <= i <= names.len(),
        forall|k: int| i <= k < names.len() ==> !(#[trigger] names[k]).contains('='),
    ensures
        ({
            let (after, refusal) = exported(env, names, i);
            &&& forall|name: Seq<char>| #[trigger]
                env.dom().contains(name) ==> after.dom().contains(name) && after[name] == env[name]
            &&& forall|name: Seq<char>| #[trigger]
                after.dom().contains(name) && !env.dom().contains(name) ==> after[name].len() == 0
                    && names.contains(name)
            &&& refusal is None ==> forall|k: int|
                i <= k < names.len() ==> after.dom().contains(#[trigger] names[k])
            &&& refusal is None <==> forall|k: int|
                i <= k < names.len() ==> crate::shell::parse::assignment_name(#[trigger] names[k])
        }),
    decreases names.len() - i,
{
    if i < names.len() {
        let name = names[i];
        lemma_no_equals(name);
        if crate::shell::parse::assignment_name(name) {
            let next = if env.dom().contains(name) {
                env
            } else {
                env.insert(name, Seq::empty())
            };
            assert(export_step(env, name) == Ok::<Map<Seq<char>, Seq<char>>, Seq<char>>(next));
            law_exporting_names_keeps_values(next, names, i + 1);
            assert(names.contains(name));
            assert(next.dom().contains(name));
            let (after, refusal) = exported(next, names, i + 1);
            assert(after.dom().contains(names[i]));
            assert forall|other: Seq<char>| #[trigger] env.dom().contains(other) implies after.dom().contains(
                other,
            ) && after[other] == env[other] by {
                assert(next.dom().contains(other) && next[other] == env[other]);
            }
            assert forall|other: Seq<char>| #[trigger]
                after.dom().contains(other) && !env.dom().contains(other) implies after[other].len()
                == 0 && names.contains(other) by {
                if other == name {
                    assert(next.dom().contains(other) && next[other].len() == 0);
                } else {
                    assert(!next.dom().contains(other));
                }
            }
            if refusal is Some {
                let k = choose|k: int|
                    i + 1 <= k < names.len() && !crate::shell::parse::assignment_name(
                        #[trigger] names[k],
                    );
                assert(!crate::shell::parse::assignment_name(names[k]));
            } else {
                assert forall|k: int|
                    i <= k < names.len() implies crate::shell::parse::assignment_name(
                    #[trigger] names[k],
                ) by {}
            }
        } else {
            assert(!crate::shell::parse::assignment_name(names[i]));
        }
    }
}

/// `export name=value` sets that variable to that value, whatever it was before and whatever else
/// the value holds, and changes no other.
pub proof fn law_export_sets_one_variable(
    env: Map<Seq<char>, Seq<char>>,
    name: Seq<char>,
    value: Seq<char>,
)
    requires
        crate::shell::parse::assignment_name(name),
    ensures
        exported(env, seq![name + seq!['='] + value], 0) == (env.insert(name, value), None::<
            Seq<char>,
        >),
{
    let arg = name + seq!['='] + value;
    let n = name.len() as int;
    text::lemma_find_from(arg, '=', 0);
    let e = text::find_from(arg, '=', 0);
    assert(arg[n] == '=');
    if e < n {
        assert(arg[e] == name[e]);
        assert(crate::shell::lex::name_char(name[e]));
    }
    assert(arg.take(n) =~= name);
    assert(arg.skip(n + 1) =~= value);
    reveal_with_fuel(exported, 2);
    assert(seq![arg][0] == arg);
}

/// The arguments of `export` are taken in turn: what the first ones do, the others go on from,
/// unless one is refused, which ends the command and takes nothing back.
pub proof fn law_exports_are_taken_in_turn(
    env: Map<Seq<char>, Seq<char>>,
    first: Seq<Seq<char>>,
    others: Seq<Seq<char>>,
    i: int,
)
    requires
        0 <= i <= first.len(),
    ensures
        exported(env, first + others, i) == (match exported(env, first, i) {
            (after, None) => exported(after, others, 0),
            (after, Some(message)) => (after, Some(message)),
        }),
    decreases first.len() - i,
{
    let all = first + others;
    if i < first.len() {
        assert(all[i] == first[i]);
        match export_step(env, first[i]) {
            Ok(next) => law_exports_are_taken_in_turn(next, first, others, i + 1),
            Err(_) => {},
        }
    } else {
        lemma_export_shift(env, first, others, 0);
    }
}

proof fn lemma_export_shift(
    env: Map<Seq<char>, Seq<char>>,
    first: Seq<Seq<char>>,
    others: Seq<Seq<char>>,
    i: int,
)
    requires
        0 <= i <= others.len(),
    ensures
        exported(env, first + others, first.len() + i) == exported(env, others, i),
    decreases others.len() - i,
{
    if i < others.len() {
        assert((first + others)[first.len() + i] == others[i]);
        match export_step(env, others[i]) {
            Ok(next) => lemma_export_shift(next, first, others, i + 1),
            Err(_) => {},
        }
    }
}

/// `unset` takes away the variables that it names, and no others; a name that no variable can have
/// is refused, and what was named before it is gone all the same.
pub proof fn law_unset_takes_away_what_it_names(
    env: Map<Seq<char>, Seq<char>>,
    args: Seq<Seq<char>>,
    i: int,
)
    requires
        0 <= i <= args.len(),
    ensures
        ({
            let (after, refusal) = unset(env, args, i);
            &&& forall|name: Seq<char>| #[trigger]
                after.dom().contains(name) ==> env.dom().contains(name) && after[name] == env[name]
            &&& forall|name: Seq<char>| #[trigger]
                env.dom().contains(name) && !args.contains(name) ==> after.dom().contains(name)
            &&& refusal is None <==> forall|k: int|
                i <= k < args.len() ==> crate::shell::parse::assignment_name(#[trigger] args[k])
            &&& refusal is None ==> forall|k: int|
                i <= k < args.len() ==> !after.dom().contains(#[trigger] args[k])
        }),
    decreases args.len() - i,
{
    if i < args.len() {
        let name = args[i];
        if crate::shell::parse::assignment_name(name) {
            let next = env.remove(name);
            law_unset_takes_away_what_it_names(next, args, i + 1);
            assert(args.contains(name));
            let (after, refusal) = unset(next, args, i + 1);
            assert(!next.dom().contains(name));
            assert(!after.dom().contains(name));
            assert forall|other: Seq<char>| #[trigger]
                env.dom().contains(other) && !args.contains(other) implies after.dom().contains(
                other,
            ) by {
                assert(next.dom().contains(other));
            }
            if refusal is Some {
                let k = choose|k: int|
                    i + 1 <= k < args.len() && !crate::shell::parse::assignment_name(
                        #[trigger] args[k],
                    );
                assert(!crate::shell::parse::assignment_name(args[k]));
            } else {
                assert forall|k: int|
                    i <= k < args.len() implies crate::shell::parse::assignment_name(
                    #[trigger] args[k],
                ) by {}
            }
        } else {
            assert(!crate::shell::parse::assignment_name(args[i]));
        }
    }
}

/// `cd` goes where it is asked to, remembers where it was, and changes nothing else.
pub proof fn law_cd_remembers_where_it_was(session: SessionView, path: Seq<char>)
    ensures
        ({
            let after = after_cd(session, path);
            &&& after.cwd == path
            &&& after.env["PWD"@] == path
            &&& after.env["OLDPWD"@] == session.cwd
            &&& after.env.dom() == session.env.dom().insert("PWD"@).insert("OLDPWD"@)
            &&& forall|name: Seq<char>|
                name != "PWD"@ && name != "OLDPWD"@ && #[trigger] session.env.dom().contains(name)
                    ==> after.env[name] == session.env[name]
            &&& after.last_status == session.last_status
        }),
{
    reveal_strlit("PWD");
    reveal_strlit("OLDPWD");
    assert("PWD"@.len() == 3 && "OLDPWD"@.len() == 6);
    assert(after_cd(session, path).env.dom() =~= session.env.dom().insert("PWD"@).insert(
        "OLDPWD"@,
    ));
}

/// `cd` with one argument goes there; without any it goes home, where a home is known.
pub proof fn law_cd_goes_where_it_is_told(
    args: Seq<Seq<char>>,
    env: Map<Seq<char>, Seq<char>>,
)
    ensures
        args.len() == 1 ==> cd_target(args, env) == Ok::<Seq<char>, Seq<char>>(args[0]),
        args.len() == 0 && env.dom().contains("HOME"@) ==> cd_target(args, env) == Ok::<
            Seq<char>,
            Seq<char>,
        >(env["HOME"@]),
        args.len() > 1 || (args.len() == 0 && !env.dom().contains("HOME"@)) <==> cd_target(
            args,
            env,
        ) is Err,
{
}

/// What is set last is what a variable holds, and what is not set stays as it was.
pub proof fn law_later_pairs_win(
    env: Map<Seq<char>, Seq<char>>,
    pairs: Seq<(Seq<char>, Seq<char>)>,
    n: int,
    name: Seq<char>,
)
    requires
        0 <= n <= pairs.len(),
    ensures
        (forall|k: int| 0 <= k < n ==> (#[trigger] pairs[k]).0 != name) ==> {
            &&& with_pairs(env, pairs, n).dom().contains(name) == env.dom().contains(name)
            &&& env.dom().contains(name) ==> with_pairs(env, pairs, n)[name] == env[name]
        },
        forall|k: int|
            0 <= k < n && (#[trigger] pairs[k]).0 == name && (forall|j: int|
                k < j < n ==> (#[trigger] pairs[j]).0 != name) ==> with_pairs(
                env,
                pairs,
                n,
            ).dom().contains(name) && with_pairs(env, pairs, n)[name] == pairs[k].1,
    decreases n,
{
    if n > 0 {
        law_later_pairs_win(env, pairs, n - 1, name);
    }
}

/// A command sees the variables of the session, with its own assignments over them, and the status
/// of what ran before it as `?`.
pub proof fn law_commands_see_their_assignments(
    env: Map<Seq<char>, Seq<char>>,
    pairs: Seq<(Seq<char>, Seq<char>)>,
    status: i32,
    name: Seq<char>,
)
    requires
        name != "?"@,
    ensures
        visible_env(env, pairs, status as int).dom().contains("?"@),
        text::parsed_i32(visible_env(env, pairs, status as int)["?"@]) == Some(status as int),
        (forall|k: int| 0 <= k < pairs.len() ==> (#[trigger] pairs[k]).0 != name) ==> {
            &&& visible_env(env, pairs, status as int).dom().contains(name)
                == env.dom().contains(name)
            &&& env.dom().contains(name) ==> visible_env(env, pairs, status as int)[name]
                == env[name]
        },
        pairs.len() > 0 && pairs.last().0 == name ==> visible_env(
            env,
            pairs,
            status as int,
        )[name] == pairs.last().1,
{
    text::law_written_integers_are_read_back(status);
    law_later_pairs_win(env, pairs, pairs.len() as int, name);
    if pairs.len() > 0 && pairs.last().0 == name {
        assert(pairs[pairs.len() - 1].0 == name);
    }
}

/// What the shell runs itself has the three names that change the session, and a command that
/// there is not is found nowhere.
pub proof fn law_commands_are_found_by_name(name: Seq<char>, known: bool)
    ensures
        shell_builtin(name) is Some <==> name == "cd"@ || name == "export"@ || name == "unset"@,
        dispatch(name, known) == Dispatch::NotFound <==> !known,
        known && shell_builtin(name) is None ==> dispatch(name, known) == Dispatch::Registered,
        dispatch("cd"@, true) == Dispatch::Shell(ShellBuiltin::Cd),
        dispatch("export"@, true) == Dispatch::Shell(ShellBuiltin::Export),
        dispatch("unset"@, true) == Dispatch::Shell(ShellBuiltin::Unset),
{
    reveal_strlit("cd");
    reveal_strlit("export");
    reveal_strlit("unset");
    assert("cd"@.len() == 2 && "export"@.len() == 6 && "unset"@.len() == 5);
}

/// `export` alone lists the variables one to a line, in their order, each with its value in double
/// quotes.
pub proof fn law_export_lists_every_variable(
    pairs: Seq<(Seq<char>, Seq<char>)>,
    more: (Seq<char>, Seq<char>),
)
    ensures
        export_listing(pairs.push(more), pairs.len() as int + 1) == export_listing(
            pairs,
            pairs.len() as int,
        ) + "declare -x "@ + more.0 + "=\""@ + more.1 + "\"\n"@,
{
    lemma_listing_prefix(pairs, more, pairs.len() as int);
    assert(export_listing(pairs.push(more), pairs.len() as int + 1) =~= export_listing(
        pairs,
        pairs.len() as int,
    ) + "declare -x "@ + more.0 + "=\""@ + more.1 + "\"\n"@);
}

proof fn lemma_listing_prefix(
    pairs: Seq<(Seq<char>, Seq<char>)>,
    more: (Seq<char>, Seq<char>),
    n: int,
)
    requires
        0 <= n <= pairs.len(),
    ensures
        export_listing(pairs.push(more), n) == export_listing(pairs, n),
    decreases n,
{
    if n > 0 {
        lemma_listing_prefix(pairs, more, n - 1);
    }
}

} // verus!
