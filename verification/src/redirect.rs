//! Redirects: which files are opened, and where the output of a command goes.

use vstd::prelude::*;

use crate::env::Env;
use crate::expand;
use crate::shell::{
    Redirect, RedirectOp, RedirectTarget, RedirectTargetView, RedirectView, SegmentView, Word,
};
use crate::text;
use crate::vfs;
use crate::vfs::{Errno, OpenMode, VfsError};

verus! {

/// The two outputs that are captured.
#[derive(Debug, Clone, Copy, PartialEq, Eq, Structural)]
pub enum CaptureFd {
    Stdout,
    Stderr,
}

/// Where an output goes: to what is captured, or to the file that the redirect with an index
/// opened. Outputs that go to the same redirect share its file and its position in it.
#[derive(Debug, Clone, Copy, PartialEq, Eq, Structural)]
pub enum OutputDestination {
    Capture(CaptureFd),
    File(usize),
}

/// Where a command reads from and writes to. Input comes from the redirect with an index.
#[derive(Debug, Clone, Copy, PartialEq, Eq, Structural)]
pub struct RedirectTable {
    pub stdin: Option<usize>,
    pub stdout: OutputDestination,
    pub stderr: OutputDestination,
}

/// Without redirects, both outputs are captured.
pub open spec fn plain_table() -> RedirectTable {
    RedirectTable {
        stdin: None,
        stdout: OutputDestination::Capture(CaptureFd::Stdout),
        stderr: OutputDestination::Capture(CaptureFd::Stderr),
    }
}

impl Default for RedirectTable {
    fn default() -> (r: Self)
        ensures
            r == plain_table(),
    {
        RedirectTable {
            stdin: None,
            stdout: OutputDestination::Capture(CaptureFd::Stdout),
            stderr: OutputDestination::Capture(CaptureFd::Stderr),
        }
    }
}

/// What one redirect does.
#[derive(Debug, PartialEq, Eq)]
pub enum RedirectAction {
    /// It lets an output go where another goes at that point.
    Duplicate { fd: u32, target: u32 },
    /// It opens a file to read from.
    Input { path: String },
    /// It opens a file for an output, which is emptied unless it is appended to.
    Output { fd: u32, path: String, append: bool },
}

pub enum ActionView {
    Duplicate { fd: u32, target: u32 },
    Input { path: Seq<char> },
    Output { fd: u32, path: Seq<char>, append: bool },
}

impl RedirectAction {
    pub open spec fn view(&self) -> ActionView {
        match self {
            RedirectAction::Duplicate { fd, target } => ActionView::Duplicate {
                fd: *fd,
                target: *target,
            },
            RedirectAction::Input { path } => ActionView::Input { path: path@ },
            RedirectAction::Output { fd, path, append } => ActionView::Output {
                fd: *fd,
                path: path@,
                append: *append,
            },
        }
    }
}

/// How the file of a redirect is opened.
pub fn redirect_mode(action: &RedirectAction) -> (r: Option<OpenMode>)
    ensures
        r == (match action@ {
            ActionView::Duplicate { .. } => None,
            ActionView::Input { .. } => Some(vfs::open_mode(true, false)),
            ActionView::Output { append, .. } => Some(
                OpenMode { create: true, append, truncate: !append, ..vfs::open_mode(false, true) },
            ),
        }),
{
    match action {
        RedirectAction::Duplicate { .. } => None,
        RedirectAction::Input { .. } => Some(OpenMode::read_only()),
        RedirectAction::Output { append, .. } => Some(crate::fs::write_file_mode(*append)),
    }
}

pub type RedirectFailure = (String, VfsError);

/// The file that a redirect names, or why it names none: its word must expand to one field.
pub open spec fn target_path(
    word: Seq<SegmentView>,
    env: Map<Seq<char>, Seq<char>>,
    status: int,
) -> Result<Seq<char>, (Seq<char>, Errno)> {
    let fields = expand::word_fields(word, env, status);
    if fields.len() == 1 {
        Ok(fields[0])
    } else if fields.len() == 0 {
        Err((Seq::empty(), Errno::ENOENT))
    } else {
        Err((fields[0], Errno::EINVAL))
    }
}

/// The descriptor that a redirect is about where none is given.
pub open spec fn default_fd(op: RedirectOp) -> u32 {
    match op {
        RedirectOp::Read => 0,
        RedirectOp::Write | RedirectOp::Append => 1,
    }
}

pub open spec fn redirect_fd(redirect: RedirectView) -> u32 {
    match redirect.fd {
        Some(fd) => fd,
        None => match redirect.target {
            RedirectTargetView::Fd(_) => 1,
            RedirectTargetView::Word(_) => default_fd(redirect.op),
        },
    }
}

pub open spec fn is_output(fd: u32) -> bool {
    fd == 1 || fd == 2
}

/// What a redirect does, or why it is refused.
pub open spec fn action_of(
    redirect: RedirectView,
    env: Map<Seq<char>, Seq<char>>,
    status: int,
) -> Result<ActionView, (Seq<char>, Errno)> {
    let fd = redirect_fd(redirect);
    match redirect.target {
        RedirectTargetView::Fd(target) => if is_output(fd) && is_output(target) {
            Ok(ActionView::Duplicate { fd, target })
        } else {
            Err((text::decimal_text(target as nat), Errno::EINVAL))
        },
        RedirectTargetView::Word(word) => match target_path(word, env, status) {
            Err(failure) => Err(failure),
            Ok(path) => match redirect.op {
                RedirectOp::Read => if fd == 0 {
                    Ok(ActionView::Input { path })
                } else {
                    Err((path, Errno::EINVAL))
                },
                RedirectOp::Write | RedirectOp::Append => if is_output(fd) {
                    Ok(ActionView::Output { fd, path, append: redirect.op == RedirectOp::Append })
                } else {
                    Err((path, Errno::EINVAL))
                },
            },
        },
    }
}

/// Where an output goes.
pub open spec fn destination(table: RedirectTable, fd: u32) -> OutputDestination {
    if fd == 1 {
        table.stdout
    } else {
        table.stderr
    }
}

/// A table in which one output goes elsewhere.
pub open spec fn redirected(
    table: RedirectTable,
    fd: u32,
    to: OutputDestination,
) -> RedirectTable {
    if fd == 1 {
        RedirectTable { stdout: to, ..table }
    } else {
        RedirectTable { stderr: to, ..table }
    }
}

/// The table after the redirect with index `i` has done its action.
pub open spec fn apply(table: RedirectTable, action: ActionView, i: int) -> RedirectTable {
    match action {
        ActionView::Duplicate { fd, target } => redirected(table, fd, destination(table, target)),
        ActionView::Input { .. } => RedirectTable { stdin: Some(i as usize), ..table },
        ActionView::Output { fd, .. } => redirected(table, fd, OutputDestination::File(i as usize)),
    }
}

/// The number of redirects, from the left, that are not refused.
pub open spec fn accepted(
    redirects: Seq<RedirectView>,
    env: Map<Seq<char>, Seq<char>>,
    status: int,
    i: int,
) -> int
    decreases redirects.len() - i,
{
    if 0 <= i < redirects.len() && action_of(redirects[i], env, status) is Ok {
        accepted(redirects, env, status, i + 1)
    } else {
        i
    }
}

/// The table after the first `n` redirects, taken from left to right.
pub open spec fn table_after(
    redirects: Seq<RedirectView>,
    n: int,
    env: Map<Seq<char>, Seq<char>>,
    status: int,
) -> RedirectTable
    decreases n,
{
    if n <= 0 {
        plain_table()
    } else {
        apply(
            table_after(redirects, n - 1, env, status),
            action_of(redirects[n - 1], env, status)->Ok_0,
            n - 1,
        )
    }
}

pub fn redirect_target(word: &Word, env: &Env, last_status: i32) -> (r: Result<
    String,
    RedirectFailure,
>)
    ensures
        match target_path(word@, env@, last_status as int) {
            Ok(path) => r matches Ok(p) && p@ == path,
            Err((path, errno)) => r matches Err((p, err)) && p@ == path && err.errno == errno,
        },
{
    let fields = expand::expand_word(word, env, last_status);
    if fields.len() == 0 {
        let p = String::new();
        proof {
            assert(p@ =~= Seq::<char>::empty());
        }
        return Err((p, VfsError::new(Errno::ENOENT)));
    }
    proof {
        assert(text::texts(fields@)[0] == fields@[0]@);
    }
    if fields.len() == 1 {
        Ok(fields[0].clone())
    } else {
        Err((fields[0].clone(), VfsError::new(Errno::EINVAL)))
    }
}

pub fn default_redirect_fd(op: RedirectOp) -> (r: u32)
    ensures
        r == default_fd(op),
{
    match op {
        RedirectOp::Read => 0,
        RedirectOp::Write => 1,
        RedirectOp::Append => 1,
    }
}

fn plan_redirect(redirect: &Redirect, env: &Env, last_status: i32) -> (r: Result<
    RedirectAction,
    RedirectFailure,
>)
    ensures
        match action_of(redirect@, env@, last_status as int) {
            Ok(action) => r matches Ok(a) && a@ == action,
            Err((path, errno)) => r matches Err((p, err)) && p@ == path && err.errno == errno,
        },
{
    match &redirect.target {
        RedirectTarget::Fd(target) => {
            let target: u32 = *target;
            let fd: u32 = match redirect.fd {
                Some(fd) => fd,
                None => 1,
            };
            if (fd == 1 || fd == 2) && (target == 1 || target == 2) {
                Ok(RedirectAction::Duplicate { fd, target })
            } else {
                Err((text::decimal(target as u64), VfsError::new(Errno::EINVAL)))
            }
        },
        RedirectTarget::Word(word) => {
            let path = match redirect_target(word, env, last_status) {
                Ok(path) => path,
                Err(failure) => {
                    return Err(failure);
                },
            };
            let fd: u32 = match redirect.fd {
                Some(fd) => fd,
                None => default_redirect_fd(redirect.op),
            };
            let append = match redirect.op {
                RedirectOp::Read => {
                    return if fd == 0 {
                        Ok(RedirectAction::Input { path })
                    } else {
                        Err((path, VfsError::new(Errno::EINVAL)))
                    };
                },
                RedirectOp::Write => false,
                RedirectOp::Append => true,
            };
            if fd == 1 || fd == 2 {
                Ok(RedirectAction::Output { fd, path, append })
            } else {
                Err((path, VfsError::new(Errno::EINVAL)))
            }
        },
    }
}

fn apply_action(table: RedirectTable, action: &RedirectAction, i: usize) -> (r: RedirectTable)
    ensures
        r == apply(table, action@, i as int),
{
    match action {
        RedirectAction::Duplicate { fd, target } => {
            let to = if *target == 1 {
                table.stdout
            } else {
                table.stderr
            };
            if *fd == 1 {
                RedirectTable { stdout: to, ..table }
            } else {
                RedirectTable { stderr: to, ..table }
            }
        },
        RedirectAction::Input { .. } => RedirectTable { stdin: Some(i), ..table },
        RedirectAction::Output { fd, .. } => {
            if *fd == 1 {
                RedirectTable { stdout: OutputDestination::File(i), ..table }
            } else {
                RedirectTable { stderr: OutputDestination::File(i), ..table }
            }
        },
    }
}

/// What the redirects of a command do, in order.
///
/// The actions are carried out from left to right, so that a redirect that comes before one
/// that fails has created or emptied its file. `failure` comes after all of them.
#[derive(Debug)]
pub struct RedirectPlan {
    pub actions: Vec<RedirectAction>,
    pub failure: Option<RedirectFailure>,
    pub table: RedirectTable,
}

/// Plans the redirects of a command.
pub fn plan_redirects(redirects: &Vec<Redirect>, env: &Env, last_status: i32) -> (r: RedirectPlan)
    ensures
        ({
            let all = crate::shell::redirects_view(redirects@);
            let status = last_status as int;
            let n = accepted(all, env@, status, 0);
            &&& r.actions@.len() == n
            &&& n <= all.len()
            &&& forall|i: int|
                0 <= i < n ==> action_of(#[trigger] all[i], env@, status) == Ok::<
                    ActionView,
                    (Seq<char>, Errno),
                >(r.actions@[i]@)
            &&& r.table == table_after(all, n, env@, status)
            &&& n == all.len() <==> r.failure is None
            &&& n < all.len() ==> {
                &&& action_of(all[n], env@, status) matches Err((path, errno))
                &&& r.failure matches Some((p, err))
                &&& p@ == path
                &&& err.errno == errno
            }
        }),
{
    let ghost all = crate::shell::redirects_view(redirects@);
    let ghost status = last_status as int;
    let mut actions: Vec<RedirectAction> = Vec::new();
    let mut table = RedirectTable::default();
    let mut i: usize = 0;
    while i < redirects.len()
        invariant
            i <= redirects@.len(),
            all == crate::shell::redirects_view(redirects@),
            status == last_status as int,
            accepted(all, env@, status, 0) == accepted(all, env@, status, i as int),
            actions@.len() == i,
            forall|j: int|
                0 <= j < i ==> action_of(#[trigger] all[j], env@, status) == Ok::<
                    ActionView,
                    (Seq<char>, Errno),
                >(actions@[j]@),
            table == table_after(all, i as int, env@, status),
        decreases redirects@.len() - i,
    {
        proof {
            assert(all[i as int] == redirects@[i as int]@);
        }
        match plan_redirect(&redirects[i], env, last_status) {
            Ok(action) => {
                table = apply_action(table, &action, i);
                actions.push(action);
            },
            Err(failure) => {
                return RedirectPlan { actions, failure: Some(failure), table };
            },
        }
        i = i + 1;
    }
    RedirectPlan { actions, failure: None, table }
}

/// Whether a redirect opens a file for an output.
pub open spec fn opens_output(action: ActionView) -> bool {
    action is Output
}

/// Whether a redirect opens a file to read from.
pub open spec fn opens_input(action: ActionView) -> bool {
    action is Input
}

/// The files for outputs that were opened and are not used any more: each was superseded by a
/// later redirect. They are closed before the command runs; where the redirects have failed, all
/// are.
pub fn outputs_to_close(plan: &RedirectPlan, opened: usize, failed: bool) -> (r: Vec<usize>)
    requires
        opened <= plan.actions@.len(),
    ensures
        forall|k: int| 0 <= k < r@.len() ==> (#[trigger] r@[k]) < opened,
        forall|a: int, b: int| 0 <= a < b < r@.len() ==> r@[a] < r@[b],
        forall|i: int|
            0 <= i < opened ==> (r@.contains(i as usize) <==> opens_output(
                (#[trigger] plan.actions@[i])@,
            ) && (failed || !(plan.table.stdout == OutputDestination::File(i as usize)
                || plan.table.stderr == OutputDestination::File(i as usize)))),
{
    let mut r: Vec<usize> = Vec::new();
    let mut i: usize = 0;
    while i < opened
        invariant
            i <= opened <= plan.actions@.len(),
            forall|k: int| 0 <= k < r@.len() ==> (#[trigger] r@[k]) < i,
            forall|a: int, b: int| 0 <= a < b < r@.len() ==> r@[a] < r@[b],
            forall|j: int|
                0 <= j < i ==> (r@.contains(j as usize) <==> opens_output(
                    (#[trigger] plan.actions@[j])@,
                ) && (failed || !(plan.table.stdout == OutputDestination::File(j as usize)
                    || plan.table.stderr == OutputDestination::File(j as usize)))),
        decreases opened - i,
    {
        let ghost before = r@;
        let output = match &plan.actions[i] {
            RedirectAction::Output { .. } => true,
            _ => false,
        };
        let used = plan.table.stdout == OutputDestination::File(i) || plan.table.stderr
            == OutputDestination::File(i);
        proof {
            assert(!before.contains(i));
        }
        if output && (failed || !used) {
            r.push(i);
            proof {
                assert(r@[before.len() as int] == i);
                assert forall|j: usize| j < i implies #[trigger] r@.contains(j)
                    == before.contains(j) by {
                    if before.contains(j) {
                        let k = choose|k: int| 0 <= k < before.len() && before[k] == j;
                        assert(r@[k] == j);
                    }
                    if r@.contains(j) {
                        let k = choose|k: int| 0 <= k < r@.len() && r@[k] == j;
                        assert(before[k] == j);
                    }
                }
            }
        }
        i = i + 1;
    }
    r
}

/// The redirect whose input is replaced when the redirect with index `i` opens another.
pub fn replaced_input(plan: &RedirectPlan, i: usize) -> (r: Option<usize>)
    requires
        i < plan.actions@.len(),
    ensures
        match r {
            Some(j) => {
                &&& j < i
                &&& opens_input(plan.actions@[i as int]@)
                &&& opens_input(plan.actions@[j as int]@)
                &&& forall|k: int| j < k < i ==> !opens_input((#[trigger] plan.actions@[k])@)
            },
            None => !opens_input(plan.actions@[i as int]@) || forall|k: int|
                0 <= k < i ==> !opens_input((#[trigger] plan.actions@[k])@),
        },
{
    match &plan.actions[i] {
        RedirectAction::Input { .. } => {},
        _ => {
            return None;
        },
    }
    let mut j: usize = i;
    while j > 0
        invariant
            j <= i < plan.actions@.len(),
            opens_input(plan.actions@[i as int]@),
            forall|k: int| j <= k < i ==> !opens_input((#[trigger] plan.actions@[k])@),
        decreases j,
    {
        j = j - 1;
        match &plan.actions[j] {
            RedirectAction::Input { .. } => {
                return Some(j);
            },
            _ => {},
        }
    }
    None
}

/// An output that was made to go where another goes keeps going there, whatever a later redirect
/// does to the other: redirects are taken from left to right.
pub proof fn law_duplicates_are_taken_from_left_to_right(
    table: RedirectTable,
    fd: u32,
    target: u32,
    later: ActionView,
    i: int,
    j: int,
)
    requires
        is_output(fd),
        is_output(target),
        fd != target,
        match later {
            ActionView::Duplicate { fd: changed, .. } => changed == target,
            ActionView::Input { .. } => true,
            ActionView::Output { fd: changed, .. } => changed == target,
        },
    ensures
        destination(apply(apply(table, ActionView::Duplicate { fd, target }, i), later, j), fd)
            == destination(table, target),
{
}

/// `>f 2>&1` lets both outputs share the file. `2>&1 >f` sends only the first output there, and
/// the second one where the first went before.
pub proof fn law_order_of_redirects_matters(path: Seq<char>, append: bool)
    ensures
        ({
            let file = ActionView::Output { fd: 1, path, append };
            let both = ActionView::Duplicate { fd: 2, target: 1 };
            let file_first = apply(apply(plain_table(), file, 0), both, 1);
            let both_first = apply(apply(plain_table(), both, 0), file, 1);
            &&& file_first.stdout == OutputDestination::File(0)
            &&& file_first.stderr == OutputDestination::File(0)
            &&& both_first.stdout == OutputDestination::File(1)
            &&& both_first.stderr == OutputDestination::Capture(CaptureFd::Stdout)
        }),
{
}

/// Every destination in a table is one of the files that the redirects opened for an output.
pub proof fn law_destinations_are_opened_files(
    redirects: Seq<RedirectView>,
    n: int,
    env: Map<Seq<char>, Seq<char>>,
    status: int,
)
    requires
        0 <= n <= accepted(redirects, env, status, 0),
        accepted(redirects, env, status, 0) <= usize::MAX,
    ensures
        ({
            let table = table_after(redirects, n, env, status);
            &&& table.stdout matches OutputDestination::File(i) ==> i < n && opens_output(
                action_of(redirects[i as int], env, status)->Ok_0,
            )
            &&& table.stderr matches OutputDestination::File(i) ==> i < n && opens_output(
                action_of(redirects[i as int], env, status)->Ok_0,
            )
            &&& table.stdin matches Some(i) ==> i < n && opens_input(
                action_of(redirects[i as int], env, status)->Ok_0,
            )
        }),
    decreases n,
{
    if n > 0 {
        law_destinations_are_opened_files(redirects, n - 1, env, status);
    }
}

// ---- the file behind an output ----

/// The file that one or more outputs share: whether it is open, the position in it, and what has
/// gone wrong.
#[derive(Debug, Clone, Copy, PartialEq, Eq, Structural)]
pub struct RedirectState {
    pub open: bool,
    pub offset: u64,
    pub error: Option<VfsError>,
}

/// What comes after a write to the file.
#[derive(Debug, Clone, Copy, PartialEq, Eq, Structural)]
pub enum WriteStep {
    /// The rest is written next.
    More,
    /// All is written.
    Done,
    /// Nothing more is written.
    Failed,
}

/// How the file is given back.
#[derive(Debug, Clone, Copy, PartialEq, Eq, Structural)]
pub enum Finish {
    Close,
    Abort,
    Nothing,
}

impl RedirectState {
    /// A file that was just opened.
    pub fn opened() -> (r: Self)
        ensures
            r == (RedirectState { open: true, offset: 0, error: None }),
    {
        RedirectState { open: true, offset: 0, error: None }
    }

    /// How many bytes of a write are taken: no more than one piece. Until they are written the
    /// file counts as failed, so that a writer that vanishes does not go unnoticed.
    pub fn accept(&mut self, bytes: usize) -> (r: Result<usize, VfsError>)
        ensures
            match old(self).error {
                Some(err) => r == Err::<usize, VfsError>(err) && *final(self) == *old(self),
                None => if !old(self).open {
                    r == crate::fs::failed::<usize>(Errno::EBADF) && *final(self) == *old(self)
                } else if bytes == 0 {
                    r == Ok::<usize, VfsError>(0) && *final(self) == *old(self)
                } else {
                    &&& r == Ok::<usize, VfsError>(
                        if bytes < crate::fs::STREAM_CHUNK_BYTES {
                            bytes
                        } else {
                            crate::fs::STREAM_CHUNK_BYTES
                        },
                    )
                    &&& *final(self) == (RedirectState {
                        error: Some(VfsError { errno: Errno::EIO }),
                        ..*old(self)
                    })
                },
            },
    {
        match self.error {
            Some(err) => {
                return Err(err);
            },
            None => {},
        }
        if !self.open {
            return Err(VfsError::new(Errno::EBADF));
        }
        if bytes == 0 {
            return Ok(0);
        }
        self.error = Some(VfsError::new(Errno::EIO));
        if bytes < crate::fs::STREAM_CHUNK_BYTES {
            Ok(bytes)
        } else {
            Ok(crate::fs::STREAM_CHUNK_BYTES)
        }
    }

    /// Takes note of a write of `left` bytes, and of whether the execution goes on. The failure
    /// that stands since the bytes were taken is lifted only when the last of them is written.
    pub fn wrote(&mut self, moved: Result<usize, VfsError>, left: usize, going_on: Result<
        (),
        VfsError,
    >) -> (r: WriteStep)
        requires
            moved matches Ok(n) ==> n <= left,
        ensures
            final(self).open == old(self).open,
            match moved {
                Err(err) => {
                    &&& r == WriteStep::Failed
                    &&& final(self).error == Some(err)
                    &&& final(self).offset == old(self).offset
                },
                Ok(n) => if n == 0 {
                    &&& r == WriteStep::Failed
                    &&& final(self).error == Some(VfsError { errno: Errno::ENOSPC })
                    &&& final(self).offset == old(self).offset
                } else {
                    &&& final(self).offset == if old(self).offset + n <= u64::MAX {
                        old(self).offset + n
                    } else {
                        u64::MAX as int
                    }
                    &&& match going_on {
                        Err(err) => r == WriteStep::Failed && final(self).error == Some(err),
                        Ok(()) => if n < left {
                            r == WriteStep::More && final(self).error == old(self).error
                        } else {
                            r == WriteStep::Done && final(self).error is None
                        },
                    }
                },
            },
    {
        let n: usize = match moved {
            Err(err) => {
                self.error = Some(err);
                return WriteStep::Failed;
            },
            Ok(n) => n,
        };
        if n == 0 {
            self.error = Some(VfsError::new(Errno::ENOSPC));
            return WriteStep::Failed;
        }
        self.offset = self.offset.saturating_add(n as u64);
        match going_on {
            Err(err) => {
                self.error = Some(err);
                return WriteStep::Failed;
            },
            Ok(()) => {},
        }
        if n < left {
            WriteStep::More
        } else {
            self.error = None;
            WriteStep::Done
        }
    }

    /// Decides how the file is given back, which is done once.
    pub fn begin_finish(&mut self, cancelled: bool) -> (r: Finish)
        ensures
            *final(self) == (RedirectState { open: false, ..*old(self) }),
            r == (if !old(self).open {
                Finish::Nothing
            } else if old(self).error is Some || cancelled {
                Finish::Abort
            } else {
                Finish::Close
            }),
    {
        if !self.open {
            return Finish::Nothing;
        }
        self.open = false;
        if self.error.is_some() || cancelled {
            Finish::Abort
        } else {
            Finish::Close
        }
    }

    /// What became of the file: the first thing that has gone wrong, if anything has.
    pub fn end_finish(&mut self, given_back: Result<(), VfsError>) -> (r: Result<(), VfsError>)
        ensures
            final(self).open == old(self).open,
            final(self).offset == old(self).offset,
            final(self).error == (match old(self).error {
                Some(err) => Some(err),
                None => match given_back {
                    Ok(()) => None,
                    Err(err) => Some(err),
                },
            }),
            r == (match final(self).error {
                Some(err) => Err::<(), VfsError>(err),
                None => Ok(()),
            }),
    {
        match self.error {
            Some(err) => Err(err),
            None => match given_back {
                Ok(()) => Ok(()),
                Err(err) => {
                    self.error = Some(err);
                    Err(err)
                },
            },
        }
    }
}

/// A redirect without a descriptor is about the standard input where it reads, and about the
/// standard output otherwise; one with a descriptor is about that.
pub proof fn law_redirects_are_about_their_descriptor(
    fd: Option<u32>,
    op: RedirectOp,
    target: RedirectTargetView,
)
    ensures
        ({
            let about = redirect_fd(RedirectView { fd, op, target });
            &&& fd matches Some(n) ==> about == n
            &&& fd is None && target is Fd ==> about == 1
            &&& fd is None && target is Word && op == RedirectOp::Read ==> about == 0
            &&& fd is None && target is Word && op != RedirectOp::Read ==> about == 1
        }),
{
}

/// A redirect to a file that is named by one quoted text opens that file: `<` for the standard
/// input, `>` for an output with the file emptied, `>>` for an output behind what is there. Any
/// other descriptor is refused, with the file.
pub proof fn law_redirects_open_the_named_file(
    path: Seq<char>,
    fd: Option<u32>,
    op: RedirectOp,
    env: Map<Seq<char>, Seq<char>>,
    status: int,
)
    ensures
        ({
            let word = seq![SegmentView::Literal { value: path, quoted: true }];
            let done = action_of(
                RedirectView { fd, op, target: RedirectTargetView::Word(word) },
                env,
                status,
            );
            &&& op == RedirectOp::Read && (fd is None || fd == Some(0u32)) ==> done == Ok::<
                ActionView,
                (Seq<char>, Errno),
            >(ActionView::Input { path })
            &&& op == RedirectOp::Read && !(fd is None || fd == Some(0u32)) ==> done == Err::<
                ActionView,
                (Seq<char>, Errno),
            >((path, Errno::EINVAL))
            &&& op != RedirectOp::Read && (fd is None || fd == Some(1u32)) ==> done == Ok::<
                ActionView,
                (Seq<char>, Errno),
            >(ActionView::Output { fd: 1, path, append: op == RedirectOp::Append })
            &&& op != RedirectOp::Read && fd == Some(2u32) ==> done == Ok::<
                ActionView,
                (Seq<char>, Errno),
            >(ActionView::Output { fd: 2, path, append: op == RedirectOp::Append })
            &&& op != RedirectOp::Read && !(fd is None || fd == Some(1u32) || fd == Some(2u32))
                ==> done == Err::<ActionView, (Seq<char>, Errno)>((path, Errno::EINVAL))
        }),
{
    let word = seq![SegmentView::Literal { value: path, quoted: true }];
    assert(word[0] == SegmentView::Literal { value: path, quoted: true });
    assert(!expand::is_split(word[0]));
    expand::law_quoted_words_stay_whole(word, env, status);
    expand::law_values_are_joined_in_order(word, seq![], env, status);
}

/// A redirect to a word that becomes no field or several is refused: there is no one file to open.
pub proof fn law_targets_are_one_field(
    word: Seq<SegmentView>,
    env: Map<Seq<char>, Seq<char>>,
    status: int,
)
    ensures
        ({
            let fields = expand::word_fields(word, env, status);
            &&& target_path(word, env, status) is Ok <==> fields.len() == 1
            &&& fields.len() == 1 ==> seq![target_path(word, env, status)->Ok_0] == fields
            &&& fields.len() == 0 ==> target_path(word, env, status) == Err::<
                Seq<char>,
                (Seq<char>, Errno),
            >((seq![], Errno::ENOENT))
            &&& fields.len() > 1 ==> target_path(word, env, status) == Err::<
                Seq<char>,
                (Seq<char>, Errno),
            >((fields[0], Errno::EINVAL))
        }),
{
    let fields = expand::word_fields(word, env, status);
    if fields.len() == 1 {
        assert(seq![fields[0]] =~= fields);
    }
}

/// Only the two outputs can go where the other goes; any other descriptor is refused.
pub proof fn law_outputs_can_follow_each_other(
    fd: Option<u32>,
    target: u32,
    env: Map<Seq<char>, Seq<char>>,
    status: int,
)
    ensures
        ({
            let about: u32 = match fd {
                Some(n) => n,
                None => 1,
            };
            let done = action_of(
                RedirectView { fd, op: RedirectOp::Write, target: RedirectTargetView::Fd(target) },
                env,
                status,
            );
            if (about == 1 || about == 2) && (target == 1 || target == 2) {
                done == Ok::<ActionView, (Seq<char>, Errno)>(
                    ActionView::Duplicate { fd: about, target },
                )
            } else {
                done is Err
            }
        }),
{
}

/// A redirect changes the one stream that it is about: to the file that it opened, or to where the
/// other goes at that point. The others stay as they were.
pub proof fn law_a_redirect_changes_one_stream(
    table: RedirectTable,
    path: Seq<char>,
    append: bool,
    i: usize,
)
    ensures
        apply(table, ActionView::Input { path }, i as int) == (RedirectTable {
            stdin: Some(i),
            stdout: table.stdout,
            stderr: table.stderr,
        }),
        apply(table, ActionView::Output { fd: 1, path, append }, i as int) == (RedirectTable {
            stdin: table.stdin,
            stdout: OutputDestination::File(i),
            stderr: table.stderr,
        }),
        apply(table, ActionView::Output { fd: 2, path, append }, i as int) == (RedirectTable {
            stdin: table.stdin,
            stdout: table.stdout,
            stderr: OutputDestination::File(i),
        }),
        apply(table, ActionView::Duplicate { fd: 1, target: 2 }, i as int) == (RedirectTable {
            stdin: table.stdin,
            stdout: table.stderr,
            stderr: table.stderr,
        }),
        apply(table, ActionView::Duplicate { fd: 2, target: 1 }, i as int) == (RedirectTable {
            stdin: table.stdin,
            stdout: table.stdout,
            stderr: table.stdout,
        }),
        apply(table, ActionView::Duplicate { fd: 1, target: 1 }, i as int) == table,
        apply(table, ActionView::Duplicate { fd: 2, target: 2 }, i as int) == table,
{
}

/// The redirects that are accepted are those in front of the first that is refused.
pub proof fn law_the_first_refused_redirect_counts(
    redirects: Seq<RedirectView>,
    env: Map<Seq<char>, Seq<char>>,
    status: int,
)
    ensures
        ({
            let n = accepted(redirects, env, status, 0);
            &&& 0 <= n <= redirects.len()
            &&& forall|i: int|
                0 <= i < n ==> action_of(#[trigger] redirects[i], env, status) is Ok
            &&& n < redirects.len() ==> action_of(redirects[n], env, status) is Err
        }),
{
    lemma_accepted_front(redirects, env, status, 0);
}

proof fn lemma_accepted_front(
    redirects: Seq<RedirectView>,
    env: Map<Seq<char>, Seq<char>>,
    status: int,
    i: int,
)
    requires
        0 <= i <= redirects.len(),
    ensures
        ({
            let n = accepted(redirects, env, status, i);
            &&& i <= n <= redirects.len()
            &&& forall|k: int|
                i <= k < n ==> action_of(#[trigger] redirects[k], env, status) is Ok
            &&& n < redirects.len() ==> action_of(redirects[n], env, status) is Err
        }),
    decreases redirects.len() - i,
{
    if i < redirects.len() && action_of(redirects[i], env, status) is Ok {
        lemma_accepted_front(redirects, env, status, i + 1);
    }
}

/// The last file that is opened for a stream is the one that it goes to: a redirect behind others
/// decides, and the others are opened all the same.
pub proof fn law_the_last_redirect_decides(
    redirects: Seq<RedirectView>,
    last: RedirectView,
    env: Map<Seq<char>, Seq<char>>,
    status: int,
)
    requires
        accepted(redirects, env, status, 0) == redirects.len() <= usize::MAX,
    ensures
        ({
            let n = redirects.len() as int;
            let before = table_after(redirects, n, env, status);
            let after = table_after(redirects.push(last), n + 1, env, status);
            match action_of(last, env, status) {
                Ok(ActionView::Input { .. }) => after == (RedirectTable {
                    stdin: Some(n as usize),
                    ..before
                }),
                Ok(ActionView::Output { fd, .. }) => {
                    &&& fd == 1 ==> after == (RedirectTable {
                        stdout: OutputDestination::File(n as usize),
                        ..before
                    })
                    &&& fd == 2 ==> after == (RedirectTable {
                        stderr: OutputDestination::File(n as usize),
                        ..before
                    })
                },
                _ => true,
            }
        }),
        table_after(seq![], 0, env, status) == (RedirectTable {
            stdin: None,
            stdout: OutputDestination::Capture(CaptureFd::Stdout),
            stderr: OutputDestination::Capture(CaptureFd::Stderr),
        }),
{
    lemma_table_front(redirects, last, redirects.len() as int, env, status);
}

proof fn lemma_table_front(
    redirects: Seq<RedirectView>,
    last: RedirectView,
    n: int,
    env: Map<Seq<char>, Seq<char>>,
    status: int,
)
    requires
        0 <= n <= redirects.len(),
    ensures
        table_after(redirects.push(last), n, env, status) == table_after(redirects, n, env, status),
    decreases n,
{
    if n > 0 {
        lemma_table_front(redirects, last, n - 1, env, status);
    }
}

} // verus!
