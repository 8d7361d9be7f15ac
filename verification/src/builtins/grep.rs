//! `grep`: the lines that match a pattern.

use vstd::prelude::*;

use crate::builtins;
use crate::builtins::flags;
use crate::builtins::lines;
use crate::builtins::{Failure, FailureView};
use crate::pattern;
use crate::pattern::LinePattern;
use crate::text;

verus! {

#[derive(Debug, Clone, Copy, PartialEq, Eq, Structural)]
pub struct GrepFlags {
    pub ignore_case: bool,
    pub invert: bool,
    pub line_numbers: bool,
    pub count: bool,
    pub recursive: bool,
}

/// What `grep` is asked to do.
pub struct GrepPlan {
    pub flags: GrepFlags,
    pub pattern: String,
    pub files: Vec<String>,
}

pub open spec fn grep_flags(letters: Seq<char>) -> GrepFlags {
    GrepFlags {
        ignore_case: letters.contains('i'),
        invert: letters.contains('v'),
        line_numbers: letters.contains('n'),
        count: letters.contains('c'),
        recursive: letters.contains('r') || letters.contains('R'),
    }
}

/// Reads the arguments of `grep`: the first operand is the pattern.
pub fn parse_grep_args(args: &Vec<String>) -> (r: Result<GrepPlan, Failure>)
    ensures
        match flags::scanned(text::texts(args@), "ivncrR"@) {
            Err(letter) => r matches Err(failure) && failure@ == (FailureView {
                message: builtins::unsupported_text("grep"@, builtins::letter_option(letter)),
                code: 2,
            }),
            Ok(read) => if read.operands.len() == 0 {
                r matches Err(failure) && failure@ == (FailureView {
                    message: "grep: missing pattern\n"@,
                    code: 2,
                })
            } else {
                r matches Ok(plan) && plan.flags == grep_flags(read.letters) && plan.pattern@
                    == read.operands[0] && text::texts(plan.files@) == read.operands.skip(1)
            },
        },
{
    match flags::split_letters(args, "ivncrR") {
        Err(letter) => Err(builtins::unsupported_letter("grep", letter, 2)),
        Ok(read) => {
            let flags = GrepFlags {
                ignore_case: flags::holds(&read.letters, 'i'),
                invert: flags::holds(&read.letters, 'v'),
                line_numbers: flags::holds(&read.letters, 'n'),
                count: flags::holds(&read.letters, 'c'),
                recursive: flags::holds(&read.letters, 'r') || flags::holds(&read.letters, 'R'),
            };
            let mut operands = read.operands;
            let ghost all = operands@;
            if operands.len() == 0 {
                return Err(builtins::failure("grep: missing pattern\n", 2));
            }
            let pattern = operands.remove(0);
            proof {
                assert(text::texts(all)[0] == all[0]@);
                assert(text::texts(operands@) =~= text::texts(all).skip(1));
            }
            Ok(GrepPlan { flags, pattern, files: operands })
        },
    }
}

/// Compiles a pattern for a command, which reports why it cannot.
pub fn compile_pattern(cmd: &str, source: &str, ignore_case: bool, code: i32) -> (r: Result<
    LinePattern,
    Failure,
>)
    ensures
        match pattern::regex_error(source@, ignore_case) {
            None => r matches Ok(p) && p.source() == source@ && p.ignore_case() == ignore_case,
            Some(error) => r matches Err(failure) && failure@ == (FailureView {
                message: cmd@ + ": "@ + error + "\n"@,
                code,
            }),
        },
{
    match pattern::compile(source, ignore_case) {
        Ok(compiled) => Ok(compiled),
        Err(error) => Err(
            Failure::new(text::concat4(cmd, ": ", error.as_str(), "\n"), code),
        ),
    }
}

/// Whether the path stands before each line: for several files, or where directories are
/// searched, but not for the standard input alone.
pub fn shows_path(recursive: bool, files: usize, operands: usize) -> (r: bool)
    ensures
        r == (operands > 0 && (recursive || files > 1 || operands > 1)),
{
    operands > 0 && (recursive || files > 1 || operands > 1)
}

/// The name under which a file is shown.
pub open spec fn label_of(path: Seq<char>) -> Seq<char> {
    if builtins::is_dash(path) {
        "(standard input)"@
    } else {
        path
    }
}

pub fn file_label(path: &str) -> (r: String)
    ensures
        r@ == label_of(path@),
{
    if builtins::is_dash_arg(path) {
        text::copy("(standard input)")
    } else {
        text::copy(path)
    }
}

pub open spec fn path_prefix(label: Seq<char>, show_path: bool) -> Seq<char> {
    if show_path {
        label + ":"@
    } else {
        ""@
    }
}

/// A line as it is printed.
pub open spec fn printed_line(
    label: Seq<char>,
    show_path: bool,
    line_numbers: bool,
    number: nat,
    line: Seq<char>,
) -> Seq<char> {
    path_prefix(label, show_path) + (if line_numbers {
        text::decimal_text(number) + ":"@
    } else {
        ""@
    }) + line + "\n"@
}

/// The search of one input, line by line.
pub struct GrepSearch {
    pub flags: GrepFlags,
    pub label: String,
    pub show_path: bool,
    pub matched: usize,
    pub line_no: usize,
}

impl GrepSearch {
    pub fn new(flags: GrepFlags, label: String, show_path: bool) -> (r: Self)
        ensures
            r.flags == flags,
            r.label@ == label@,
            r.show_path == show_path,
            r.matched == 0,
            r.line_no == 0,
    {
        GrepSearch { flags, label, show_path, matched: 0, line_no: 0 }
    }

    /// Notes whether a line holds a match, and gives what is printed of it.
    pub fn note(&mut self, line: &str, found: bool) -> (r: Option<String>)
        requires
            old(self).line_no < usize::MAX,
            old(self).matched <= old(self).line_no,
        ensures
            final(self).flags == old(self).flags,
            final(self).label@ == old(self).label@,
            final(self).show_path == old(self).show_path,
            final(self).line_no == old(self).line_no + 1,
            ({
                let selected = found != old(self).flags.invert;
                &&& final(self).matched == old(self).matched + if selected {
                    1int
                } else {
                    0int
                }
                &&& final(self).matched <= final(self).line_no
                &&& if selected && !old(self).flags.count {
                    r matches Some(out) && out@ == printed_line(
                        old(self).label@,
                        old(self).show_path,
                        old(self).flags.line_numbers,
                        final(self).line_no as nat,
                        line@,
                    )
                } else {
                    r is None
                }
            }),
    {
        self.line_no = self.line_no + 1;
        if found == self.flags.invert {
            return None;
        }
        self.matched = self.matched + 1;
        if self.flags.count {
            return None;
        }
        let mut out = self.prefix();
        if self.flags.line_numbers {
            let number = text::decimal(self.line_no as u64);
            let shown = text::concat2(number.as_str(), ":");
            out.append(shown.as_str());
        } else {
            out.append("");
        }
        out.append(line);
        out.append("\n");
        Some(out)
    }

    fn prefix(&self) -> (r: String)
        ensures
            r@ == path_prefix(self.label@, self.show_path),
    {
        if self.show_path {
            text::concat2(self.label.as_str(), ":")
        } else {
            text::copy("")
        }
    }

    /// Searches a line of input for the pattern, and gives what is printed of it.
    pub fn search(&mut self, line: &[u8], pattern: &LinePattern) -> (r: Option<String>)
        requires
            old(self).line_no < usize::MAX,
            old(self).matched <= old(self).line_no,
        ensures
            final(self).flags == old(self).flags,
            final(self).label@ == old(self).label@,
            final(self).show_path == old(self).show_path,
            final(self).line_no == old(self).line_no + 1,
            ({
                let body = lines::line_body(lines::lossy_text(line@));
                let found = pattern::regex_is_match(
                    pattern.source(),
                    pattern.ignore_case(),
                    body,
                );
                let selected = found != old(self).flags.invert;
                &&& final(self).matched == old(self).matched + if selected {
                    1int
                } else {
                    0int
                }
                &&& final(self).matched <= final(self).line_no
                &&& if selected && !old(self).flags.count {
                    r matches Some(out) && out@ == printed_line(
                        old(self).label@,
                        old(self).show_path,
                        old(self).flags.line_numbers,
                        final(self).line_no as nat,
                        body,
                    )
                } else {
                    r is None
                }
            }),
    {
        let body = lines::line_text_lossy(line);
        let found = pattern.is_match(body.as_str());
        self.note(body.as_str(), found)
    }

    /// What is printed when the input has ended: the number of lines, where that is asked for.
    pub fn finish(&self) -> (r: Option<String>)
        ensures
            if self.flags.count {
                r matches Some(out) && out@ == path_prefix(self.label@, self.show_path)
                    + text::decimal_text(self.matched as nat) + "\n"@
            } else {
                r is None
            },
    {
        if !self.flags.count {
            return None;
        }
        let prefix = self.prefix();
        let number = text::decimal(self.matched as u64);
        Some(text::concat3(prefix.as_str(), number.as_str(), "\n"))
    }
}

/// The exit code of `grep`.
pub fn grep_status(had_error: bool, matched: bool) -> (r: i32)
    ensures
        r == (if had_error {
            2i32
        } else if matched {
            0i32
        } else {
            1i32
        }),
{
    if had_error {
        2
    } else if matched {
        0
    } else {
        1
    }
}

/// What stands in front of a printed line: the name of its file where names are shown, then its
/// number where numbers are, each with a colon behind it. The line itself is printed as it is.
pub proof fn law_prefixes_stand_in_front(
    label: Seq<char>,
    show_path: bool,
    line_numbers: bool,
    number: nat,
    line: Seq<char>,
)
    ensures
        printed_line(label, false, false, number, line) == line.push('\n'),
        printed_line(label, false, true, number, line) == text::decimal_text(number) + seq![':']
            + printed_line(label, false, false, number, line),
        printed_line(label, true, line_numbers, number, line) == label + seq![':'] + printed_line(
            label,
            false,
            line_numbers,
            number,
            line,
        ),
        printed_line(label, show_path, line_numbers, number, line) == path_prefix(label, show_path)
            + printed_line(label, false, line_numbers, number, line),
{
    reveal_strlit("");
    reveal_strlit(":");
    reveal_strlit("\n");
    assert(printed_line(label, false, false, number, line) =~= line.push('\n'));
    assert(printed_line(label, false, true, number, line) =~= text::decimal_text(number) + seq![':']
        + printed_line(label, false, false, number, line));
    assert(printed_line(label, true, line_numbers, number, line) =~= label + seq![':']
        + printed_line(label, false, line_numbers, number, line));
    assert(printed_line(label, show_path, line_numbers, number, line) =~= path_prefix(
        label,
        show_path,
    ) + printed_line(label, false, line_numbers, number, line));
}

/// A file is shown under its own name, and only the standard input, which is written as a dash,
/// under another.
pub proof fn law_files_are_shown_by_name(path: Seq<char>)
    ensures
        path != seq!['-'] ==> label_of(path) == path,
        label_of(seq!['-']) == "(standard input)"@,
{
}

/// Each letter of `grep` switches on what it stands for and nothing else, wherever it stands.
pub proof fn law_grep_letters_add_up(a: Seq<char>, b: Seq<char>)
    ensures
        ({
            let x = grep_flags(a);
            let y = grep_flags(b);
            grep_flags(a + b) == (GrepFlags {
                ignore_case: x.ignore_case || y.ignore_case,
                invert: x.invert || y.invert,
                line_numbers: x.line_numbers || y.line_numbers,
                count: x.count || y.count,
                recursive: x.recursive || y.recursive,
            })
        }),
        forall|c: char|
            #[trigger] grep_flags(seq![c]) == (GrepFlags {
                ignore_case: c == 'i',
                invert: c == 'v',
                line_numbers: c == 'n',
                count: c == 'c',
                recursive: c == 'r' || c == 'R',
            }),
{
    flags::lemma_contains_concat(a, b, 'i');
    flags::lemma_contains_concat(a, b, 'v');
    flags::lemma_contains_concat(a, b, 'n');
    flags::lemma_contains_concat(a, b, 'c');
    flags::lemma_contains_concat(a, b, 'r');
    flags::lemma_contains_concat(a, b, 'R');
    assert forall|c: char|
        #[trigger] grep_flags(seq![c]) == (GrepFlags {
            ignore_case: c == 'i',
            invert: c == 'v',
            line_numbers: c == 'n',
            count: c == 'c',
            recursive: c == 'r' || c == 'R',
        }) by {
        flags::lemma_contains_one(c);
    }
}

} // verus!
