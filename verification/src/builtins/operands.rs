//! What a command does when one of its operands fails, and the status it ends with.

use vstd::prelude::*;

use crate::builtins;
use crate::builtins::StreamError;
use crate::text;
use crate::vfs::{FileType, Metadata, VfsError};

verus! {

/// The operands, or the standard input where there are none.
pub open spec fn or_stdin(operands: Seq<Seq<char>>) -> Seq<Seq<char>> {
    if operands.len() == 0 {
        seq![seq!['-']]
    } else {
        operands
    }
}

/// What a command reads, in order: its operands, or the standard input where it has none.
pub fn operands_or_stdin(operands: &Vec<String>) -> (r: Vec<String>)
    ensures
        text::texts(r@) == or_stdin(text::texts(operands@)),
{
    let mut r: Vec<String> = Vec::new();
    if operands.len() == 0 {
        let mut dash = String::new();
        dash.push('-');
        r.push(dash);
        proof {
            assert(dash@ =~= seq!['-']);
            assert(text::texts(r@) =~= seq![seq!['-']]);
        }
        return r;
    }
    let ghost all = text::texts(operands@);
    let mut i: usize = 0;
    proof {
        assert(text::texts(r@) =~= all.take(0));
    }
    while i < operands.len()
        invariant
            i <= operands@.len(),
            all == text::texts(operands@),
            text::texts(r@) == all.take(i as int),
        decreases operands@.len() - i,
    {
        let ghost before = r@;
        let operand = operands[i].clone();
        r.push(operand);
        proof {
            assert(text::texts(r@) =~= text::texts(before).push(operand@));
            assert(all.take(i + 1) =~= all.take(i as int).push(all[i as int]));
        }
        i = i + 1;
    }
    proof {
        assert(all.take(i as int) =~= all);
    }
    r
}

/// The commands that go through operands.
#[derive(Debug, Clone, Copy, PartialEq, Eq, Structural)]
pub enum OperandCommand {
    Cat,
    Cp,
    Grep,
    Head,
    Mkdir,
    Mv,
    Sed,
    Sort,
    Stat,
    Tail,
    Touch,
    Uniq,
    Wc,
}

impl OperandCommand {
    pub open spec fn text(self) -> Seq<char> {
        match self {
            OperandCommand::Cat => "cat"@,
            OperandCommand::Cp => "cp"@,
            OperandCommand::Grep => "grep"@,
            OperandCommand::Head => "head"@,
            OperandCommand::Mkdir => "mkdir"@,
            OperandCommand::Mv => "mv"@,
            OperandCommand::Sed => "sed"@,
            OperandCommand::Sort => "sort"@,
            OperandCommand::Stat => "stat"@,
            OperandCommand::Tail => "tail"@,
            OperandCommand::Touch => "touch"@,
            OperandCommand::Uniq => "uniq"@,
            OperandCommand::Wc => "wc"@,
        }
    }

    pub fn name(self) -> (r: &'static str)
        ensures
            r@ == self.text(),
    {
        match self {
            OperandCommand::Cat => "cat",
            OperandCommand::Cp => "cp",
            OperandCommand::Grep => "grep",
            OperandCommand::Head => "head",
            OperandCommand::Mkdir => "mkdir",
            OperandCommand::Mv => "mv",
            OperandCommand::Sed => "sed",
            OperandCommand::Sort => "sort",
            OperandCommand::Stat => "stat",
            OperandCommand::Tail => "tail",
            OperandCommand::Touch => "touch",
            OperandCommand::Uniq => "uniq",
            OperandCommand::Wc => "wc",
        }
    }

    /// Whether the command goes on with its other operands when one has failed.
    pub open spec fn keeps_going(self) -> bool {
        match self {
            OperandCommand::Sort => false,
            OperandCommand::Uniq => false,
            _ => true,
        }
    }

    /// The status of the command when an operand has failed.
    pub open spec fn failed(self) -> i32 {
        match self {
            OperandCommand::Grep => 2,
            OperandCommand::Sed => 2,
            OperandCommand::Sort => 2,
            _ => 1,
        }
    }

    pub fn goes_on(self) -> (r: bool)
        ensures
            r == self.keeps_going(),
    {
        match self {
            OperandCommand::Sort => false,
            OperandCommand::Uniq => false,
            _ => true,
        }
    }

    pub fn failure_status(self) -> (r: i32)
        ensures
            r == self.failed(),
    {
        match self {
            OperandCommand::Grep => 2,
            OperandCommand::Sed => 2,
            OperandCommand::Sort => 2,
            _ => 1,
        }
    }
}

/// Why an operand has failed.
#[derive(Debug, Clone, Copy, PartialEq, Eq, Structural)]
pub enum OperandFault {
    /// The file system refused it.
    Vfs(VfsError),
    /// It could not be read, or what was made of it could not be written.
    Stream(StreamError),
}

/// What is said of an operand that has failed; nothing where the output's reader has gone.
pub open spec fn fault_text(cmd: OperandCommand, path: Seq<char>, fault: OperandFault) -> Option<
    Seq<char>,
> {
    match fault {
        OperandFault::Vfs(err) => Some(builtins::vfs_error_text(cmd.text(), path, err.errno)),
        OperandFault::Stream(err) => builtins::stream_error_text(cmd.text(), path, err),
    }
}

pub fn fault_message(cmd: OperandCommand, path: &str, fault: OperandFault) -> (r: Option<String>)
    ensures
        match fault_text(cmd, path@, fault) {
            Some(message) => r matches Some(m) && m@ == message,
            None => r is None,
        },
{
    match fault {
        OperandFault::Vfs(err) => Some(builtins::vfs_error_message(cmd.name(), path, err)),
        OperandFault::Stream(err) => builtins::report_stream_error(cmd.name(), path, err),
    }
}

/// What comes after an operand.
#[derive(Debug, PartialEq, Eq)]
pub enum OperandStep {
    /// The next operand, after what is to be said.
    Next(Option<String>),
    /// The end, with a status, after what is to be said.
    Stop(Option<String>, i32),
}

/// A command that goes through its operands.
#[derive(Debug, Clone, Copy, PartialEq, Eq, Structural)]
pub struct OperandRun {
    pub cmd: OperandCommand,
    pub had_error: bool,
}

impl OperandRun {
    pub fn new(cmd: OperandCommand) -> (r: Self)
        ensures
            r == (OperandRun { cmd, had_error: false }),
    {
        OperandRun { cmd, had_error: false }
    }

    /// Decides what comes after an operand. Where the output's reader has gone, the command ends
    /// at once and without a word.
    pub fn after(&mut self, path: &str, fault: Option<OperandFault>) -> (r: OperandStep)
        ensures
            final(self).cmd == old(self).cmd,
            match fault {
                None => r == OperandStep::Next(None) && *final(self) == *old(self),
                Some(fault) => final(self).had_error && (match fault_text(
                    old(self).cmd,
                    path@,
                    fault,
                ) {
                    None => r == OperandStep::Stop(None, 1i32),
                    Some(message) => if old(self).cmd.keeps_going() {
                        r matches OperandStep::Next(Some(m)) && m@ == message
                    } else {
                        r matches OperandStep::Stop(Some(m), status) && m@ == message && status
                            == old(self).cmd.failed()
                    },
                }),
            },
    {
        match fault {
            None => OperandStep::Next(None),
            Some(fault) => {
                self.had_error = true;
                match fault_message(self.cmd, path, fault) {
                    None => OperandStep::Stop(None, 1),
                    Some(message) => {
                        if self.cmd.goes_on() {
                            OperandStep::Next(Some(message))
                        } else {
                            OperandStep::Stop(Some(message), self.cmd.failure_status())
                        }
                    },
                }
            },
        }
    }

    /// The status when all operands were gone through.
    pub fn status(&self) -> (r: i32)
        ensures
            r == (if self.had_error {
                self.cmd.failed()
            } else {
                0i32
            }),
    {
        if self.had_error {
            self.cmd.failure_status()
        } else {
            0
        }
    }
}

/// What `grep` does with an operand.
#[derive(Debug, PartialEq, Eq)]
pub enum GrepOperand {
    Search,
    /// Searches the files in a directory.
    Walk,
    Missing(String),
}

/// Decides what `grep` does with an operand; `found` is what it is, which is not asked of `-`.
pub fn grep_operand(path: &str, found: Result<Metadata, VfsError>, recursive: bool) -> (r:
    GrepOperand)
    ensures
        if builtins::is_dash(path@) {
            r is Search
        } else {
            match found {
                Ok(metadata) => if metadata.file_type == FileType::Directory && recursive {
                    r is Walk
                } else {
                    r is Search
                },
                Err(err) => r matches GrepOperand::Missing(message) && message@
                    == builtins::vfs_error_text("grep"@, path@, err.errno),
            }
        },
{
    if builtins::is_dash_arg(path) {
        return GrepOperand::Search;
    }
    match found {
        Ok(metadata) => {
            if metadata.file_type == FileType::Directory && recursive {
                GrepOperand::Walk
            } else {
                GrepOperand::Search
            }
        },
        Err(err) => GrepOperand::Missing(builtins::vfs_error_message("grep", path, err)),
    }
}

} // verus!
