//! `head` and `tail`: the first lines, the last lines, or the lines from one on.

use std::collections::VecDeque;
use vstd::prelude::*;

use crate::builtins;
use crate::builtins::operands;
use crate::builtins::{Failure, FailureView};
use crate::text;

verus! {

#[derive(Debug, Clone, Copy, PartialEq, Eq, Structural)]
pub enum TailCount {
    /// So many lines.
    Last(usize),
    /// All the lines from one on, counted from one.
    From(usize),
}

/// What `head` or `tail` is asked to do.
pub struct HeadTailPlan {
    pub count: TailCount,
    pub verbose: bool,
    pub files: Vec<String>,
}

#[verifier::ext_equal]
pub struct PlanView {
    pub count: TailCount,
    pub verbose: bool,
    pub files: Seq<Seq<char>>,
}

impl View for HeadTailPlan {
    type V = PlanView;

    open spec fn view(&self) -> PlanView {
        PlanView {
            count: self.count,
            verbose: self.verbose,
            files: text::texts(self.files@),
        }
    }
}

/// The number of lines that a text asks for; `tail` reads a number behind a plus sign as the
/// line to start from.
pub open spec fn count_of(value: Seq<char>, head_mode: bool) -> Option<TailCount> {
    if value.len() > 0 && value[0] == '+' {
        if head_mode {
            None
        } else {
            match text::parsed_unsigned(value.skip(1), usize::MAX as nat) {
                Some(n) => Some(
                    TailCount::From(
                        if n == 0 {
                            1
                        } else {
                            n as usize
                        },
                    ),
                ),
                None => None,
            }
        }
    } else {
        match text::parsed_unsigned(value, usize::MAX as nat) {
            Some(n) => Some(TailCount::Last(n as usize)),
            None => None,
        }
    }
}

pub fn parse_head_tail_count(value: &str, head_mode: bool) -> (r: Option<TailCount>)
    ensures
        r == count_of(value@, head_mode),
{
    let chars = text::to_chars(value);
    if chars.len() > 0 && chars[0] == '+' {
        if head_mode {
            return None;
        }
        let rest = text::from_range(&chars, 1, chars.len());
        proof {
            assert(rest@ =~= value@.skip(1));
        }
        match text::parse_unsigned(rest.as_str(), usize::MAX as u64) {
            Some(n) => Some(
                TailCount::From(
                    if n == 0 {
                        1
                    } else {
                        n as usize
                    },
                ),
            ),
            None => None,
        }
    } else {
        match text::parse_unsigned(value, usize::MAX as u64) {
            Some(n) => Some(TailCount::Last(n as usize)),
            None => None,
        }
    }
}

/// The plan that the arguments from `i` on complete, or why they are refused.
pub open spec fn plan_from(
    args: Seq<Seq<char>>,
    i: int,
    cmd: Seq<char>,
    head_mode: bool,
    plan: PlanView,
) -> Result<PlanView, FailureView>
    decreases args.len() - i,
{
    if i < 0 || i >= args.len() {
        Ok(plan)
    } else if args[i] == "-v"@ {
        plan_from(args, i + 1, cmd, head_mode, PlanView { verbose: true, ..plan })
    } else if args[i] == "-n"@ {
        if i + 1 >= args.len() {
            Err(
                FailureView {
                    message: cmd + ": option requires an argument -- 'n'\n"@,
                    code: 1,
                },
            )
        } else {
            match count_of(args[i + 1], head_mode) {
                Some(count) => plan_from(
                    args,
                    i + 2,
                    cmd,
                    head_mode,
                    PlanView { count, ..plan },
                ),
                None => Err(
                    FailureView {
                        message: cmd + ": invalid number of lines: '"@ + args[i + 1] + "'\n"@,
                        code: 1,
                    },
                ),
            }
        }
    } else if builtins::is_option(args[i]) {
        Err(FailureView { message: builtins::unsupported_text(cmd, args[i]), code: 1 })
    } else {
        plan_from(
            args,
            i + 1,
            cmd,
            head_mode,
            PlanView { files: plan.files.push(args[i]), ..plan },
        )
    }
}

pub open spec fn default_plan() -> PlanView {
    PlanView { count: TailCount::Last(10), verbose: false, files: seq![] }
}

pub open spec fn command_name(head_mode: bool) -> Seq<char> {
    if head_mode {
        "head"@
    } else {
        "tail"@
    }
}

/// Reads the arguments of `head` or `tail`.
pub fn parse_head_tail_args(args: &Vec<String>, head_mode: bool) -> (r: Result<
    HeadTailPlan,
    Failure,
>)
    ensures
        match plan_from(
            text::texts(args@),
            0,
            command_name(head_mode),
            head_mode,
            default_plan(),
        ) {
            Ok(plan) => r matches Ok(p) && p@ == plan,
            Err(failure) => r matches Err(f) && f@ == failure,
        },
{
    let ghost all = text::texts(args@);
    let cmd = if head_mode {
        "head"
    } else {
        "tail"
    };
    let mut count = TailCount::Last(10);
    let mut verbose = false;
    let mut files: Vec<String> = Vec::new();
    let mut i: usize = 0;
    proof {
        assert(text::texts(files@) =~= seq![]);
        assert(args.len() == args@.len());
    }
    while i < args.len()
        invariant
            i <= args@.len(),
            args@.len() <= usize::MAX,
            all == text::texts(args@),
            cmd@ == command_name(head_mode),
            plan_from(
                all,
                i as int,
                cmd@,
                head_mode,
                PlanView { count, verbose, files: text::texts(files@) },
            ) == plan_from(all, 0, cmd@, head_mode, default_plan()),
        decreases args@.len() - i,
    {
        let arg = &args[i];
        proof {
            assert(all[i as int] == arg@);
        }
        if text::str_eq(arg.as_str(), "-v") {
            verbose = true;
            i = i + 1;
        } else if text::str_eq(arg.as_str(), "-n") {
            if i + 1 >= args.len() {
                return Err(
                    Failure::new(
                        text::concat2(cmd, ": option requires an argument -- 'n'\n"),
                        1,
                    ),
                );
            }
            let value = &args[i + 1];
            proof {
                assert(all[i + 1] == value@);
            }
            match parse_head_tail_count(value.as_str(), head_mode) {
                Some(parsed) => {
                    count = parsed;
                },
                None => {
                    return Err(
                        Failure::new(
                            text::concat4(
                                cmd,
                                ": invalid number of lines: '",
                                value.as_str(),
                                "'\n",
                            ),
                            1,
                        ),
                    );
                },
            }
            i = i + 2;
        } else if builtins::is_option_arg(arg.as_str()) {
            return Err(builtins::unsupported(cmd, arg.as_str(), 1));
        } else {
            let ghost before = files@;
            files.push(arg.clone());
            proof {
                assert(text::texts(files@) =~= text::texts(before).push(arg@));
            }
            i = i + 1;
        }
    }
    Ok(HeadTailPlan { count, verbose, files })
}

impl HeadTailPlan {
    /// What is read, in order.
    pub fn operands(&self) -> (r: Vec<String>)
        ensures
            text::texts(r@) == operands::or_stdin(self@.files),
    {
        operands::operands_or_stdin(&self.files)
    }

    /// What comes in front of an operand's lines, where `before` headers have come already: a
    /// header where several files are read, or where it is asked for.
    pub fn header(&self, operand: &str, before: usize) -> (r: Option<String>)
        ensures
            if self.verbose || self@.files.len() > 1 {
                r matches Some(header) && header@ == header_text(
                    operand_label(operand@),
                    before as nat,
                )
            } else {
                r is None
            },
    {
        if self.verbose || self.files.len() > 1 {
            let label = if text::str_eq(operand, "-") {
                "standard input"
            } else {
                operand
            };
            Some(format_header(label, before))
        } else {
            None
        }
    }
}

/// What an operand is called in a header.
pub open spec fn operand_label(operand: Seq<char>) -> Seq<char> {
    if operand == "-"@ {
        "standard input"@
    } else {
        operand
    }
}

/// The header in front of a file's lines, with an empty line in front of all but the first.
pub open spec fn header_text(label: Seq<char>, before: nat) -> Seq<char> {
    (if before > 0 {
        "\n"@
    } else {
        ""@
    }) + "==> "@ + label + " <==\n"@
}

pub fn format_header(label: &str, before: usize) -> (r: String)
    ensures
        r@ == header_text(label@, before as nat),
{
    if before > 0 {
        text::concat4("\n", "==> ", label, " <==\n")
    } else {
        text::concat4("", "==> ", label, " <==\n")
    }
}

pub open spec fn smaller(a: int, b: int) -> int {
    if a < b {
        a
    } else {
        b
    }
}

/// Which of the lines are printed.
pub open spec fn selected_lines(
    lines: Seq<Seq<u8>>,
    count: TailCount,
    head_mode: bool,
) -> Seq<Seq<u8>> {
    let n = lines.len() as int;
    match count {
        TailCount::Last(limit) => if head_mode {
            lines.take(smaller(limit as int, n))
        } else {
            lines.skip(n - smaller(limit as int, n))
        },
        TailCount::From(start) => lines.skip(
            smaller(
                if start == 0 {
                    0
                } else {
                    start - 1
                },
                n,
            ),
        ),
    }
}

/// Whether lines are printed as they arrive; only the last lines have to wait for the end.
pub open spec fn prints_at_once(count: TailCount, head_mode: bool) -> bool {
    head_mode || count is From
}

/// What happens to a line that has arrived.
#[derive(Debug, PartialEq, Eq)]
pub enum Taken {
    /// It is printed.
    Print(Vec<u8>),
    /// It is not printed now.
    Keep,
    /// It would make the window of last lines hold more bytes than it may.
    TooLarge,
}

/// The bytes of the first `n` lines.
pub open spec fn total_bytes(lines: Seq<Seq<u8>>, n: int) -> int
    decreases n,
{
    if n <= 0 {
        0
    } else {
        total_bytes(lines, n - 1) + lines[n - 1].len()
    }
}

pub open spec fn window_view(v: Seq<Vec<u8>>) -> Seq<Seq<u8>> {
    v.map_values(|line: Vec<u8>| line@)
}

proof fn lemma_total_split(lines: Seq<Seq<u8>>, n: int)
    requires
        0 < n <= lines.len(),
    ensures
        total_bytes(lines, n) == lines[0].len() + total_bytes(lines.skip(1), n - 1),
    decreases n,
{
    if n > 1 {
        lemma_total_split(lines, n - 1);
        assert(lines.skip(1)[n - 2] == lines[n - 1]);
    } else {
        assert(total_bytes(lines, 0) == 0);
        assert(total_bytes(lines.skip(1), 0) == 0);
    }
}

proof fn lemma_total_prefix(a: Seq<Seq<u8>>, b: Seq<Seq<u8>>, n: int)
    requires
        0 <= n <= a.len(),
        n <= b.len(),
        forall|i: int| 0 <= i < n ==> a[i] == b[i],
    ensures
        total_bytes(a, n) == total_bytes(b, n),
    decreases n,
{
    if n > 0 {
        lemma_total_prefix(a, b, n - 1);
    }
}

proof fn lemma_total_nonneg(lines: Seq<Seq<u8>>, n: int)
    ensures
        0 <= total_bytes(lines, n),
    decreases n,
{
    if n > 0 {
        lemma_total_nonneg(lines, n - 1);
    }
}

/// Selects lines that arrive one after another.
pub struct LineSelector {
    count: TailCount,
    head_mode: bool,
    /// The most bytes that the window may hold.
    max_bytes: usize,
    window: VecDeque<Vec<u8>>,
    /// The bytes in the window.
    held: usize,
    /// The number of lines so far, as far as it matters.
    taken: usize,
    seen: Ghost<Seq<Seq<u8>>>,
}

impl LineSelector {
    #[verifier::type_invariant]
    spec fn inv(&self) -> bool {
        let n = self.seen@.len() as int;
        &&& prints_at_once(self.count, self.head_mode) ==> self.window@.len() == 0 && self.held
            == 0 && self.taken == smaller(n, usize::MAX as int)
        &&& !prints_at_once(self.count, self.head_mode) ==> window_view(self.window@)
            == selected_lines(self.seen@, self.count, self.head_mode) && self.held == total_bytes(
            window_view(self.window@),
            self.window@.len() as int,
        ) && self.held <= self.max_bytes
    }

    /// The lines so far.
    pub closed spec fn seen(&self) -> Seq<Seq<u8>> {
        self.seen@
    }

    pub closed spec fn count(&self) -> TailCount {
        self.count
    }

    pub closed spec fn head_mode(&self) -> bool {
        self.head_mode
    }

    pub closed spec fn max_bytes(&self) -> usize {
        self.max_bytes
    }

    /// A selector for `head` or `tail`, whose window of last lines holds at most `max_bytes`.
    pub fn new(count: TailCount, head_mode: bool, max_bytes: usize) -> (r: Self)
        ensures
            r.seen() == Seq::<Seq<u8>>::empty(),
            r.count() == count,
            r.head_mode() == head_mode,
            r.max_bytes() == max_bytes,
    {
        let window: VecDeque<Vec<u8>> = VecDeque::new();
        proof {
            assert(window_view(window@) =~= selected_lines(
                Seq::<Seq<u8>>::empty(),
                count,
                head_mode,
            ));
        }
        LineSelector {
            count,
            head_mode,
            max_bytes,
            window,
            held: 0,
            taken: 0,
            seen: Ghost(Seq::<Seq<u8>>::empty()),
        }
    }

    /// Whether no further line will be printed, so that the input need not be read on.
    pub fn done(&self) -> (r: bool)
        ensures
            r == (self.head_mode() && match self.count() {
                TailCount::Last(limit) => self.seen().len() >= limit,
                TailCount::From(_) => false,
            }),
    {
        proof {
            use_type_invariant(self);
        }
        match self.count {
            TailCount::Last(limit) => self.head_mode && self.taken >= limit,
            TailCount::From(_) => false,
        }
    }

    /// Takes a line. What is printed at once, with the window at the end, is the selection.
    pub fn push(&mut self, line: Vec<u8>) -> (r: Taken)
        ensures
            final(self).count() == old(self).count(),
            final(self).head_mode() == old(self).head_mode(),
            final(self).max_bytes() == old(self).max_bytes(),
            ({
                let all = old(self).seen().push(line@);
                let count = old(self).count();
                let head_mode = old(self).head_mode();
                if prints_at_once(count, head_mode) {
                    &&& final(self).seen() == all
                    &&& match r {
                        Taken::Print(printed) => printed@ == line@ && selected_lines(
                            all,
                            count,
                            head_mode,
                        ) == selected_lines(old(self).seen(), count, head_mode).push(line@),
                        Taken::Keep => selected_lines(all, count, head_mode) == selected_lines(
                            old(self).seen(),
                            count,
                            head_mode,
                        ),
                        Taken::TooLarge => false,
                    }
                } else {
                    let window = selected_lines(all, count, head_mode);
                    if total_bytes(window, window.len() as int) <= old(self).max_bytes() {
                        r is Keep && final(self).seen() == all
                    } else {
                        r is TooLarge && final(self).seen() == old(self).seen()
                    }
                }
            }),
    {
        proof {
            use_type_invariant(&*self);
        }
        let ghost before = self.seen@;
        let ghost all = before.push(line@);
        let count = self.count;
        let head_mode = self.head_mode;
        let max_bytes: usize = self.max_bytes;
        let mut next = LineSelector::new(count, head_mode, max_bytes);
        std::mem::swap(self, &mut next);
        let LineSelector { count: _, head_mode: _, max_bytes: _, mut window, mut held, taken, seen: _ } =
            next;
        if head_mode {
            let more: usize = if taken < usize::MAX {
                taken + 1
            } else {
                taken
            };
            let prints = match count {
                TailCount::Last(limit) => taken < limit,
                TailCount::From(start) => taken == usize::MAX || taken + 1 >= start,
            };
            *self = LineSelector {
                count,
                head_mode,
                max_bytes,
                window,
                held,
                taken: more,
                seen: Ghost(all),
            };
            proof {
                lemma_selected_grows(before, line@, count, head_mode);
            }
            if prints {
                return Taken::Print(line);
            }
            return Taken::Keep;
        }
        match count {
            TailCount::From(start) => {
                let more: usize = if taken < usize::MAX {
                    taken + 1
                } else {
                    taken
                };
                *self = LineSelector {
                    count,
                    head_mode,
                    max_bytes,
                    window,
                    held,
                    taken: more,
                    seen: Ghost(all),
                };
                proof {
                    lemma_selected_grows(before, line@, count, head_mode);
                }
                if taken == usize::MAX || taken + 1 >= start {
                    Taken::Print(line)
                } else {
                    Taken::Keep
                }
            },
            TailCount::Last(limit) => {
                let ghost old_window = window_view(window@);
                let ghost new_window = selected_lines(all, count, head_mode);
                let ghost n = old_window.len() as int;
                if limit == 0 {
                    proof {
                        assert(new_window =~= Seq::<Seq<u8>>::empty());
                        assert(window_view(window@) =~= new_window);
                    }
                    *self = LineSelector {
                        count,
                        head_mode,
                        max_bytes,
                        window,
                        held,
                        taken,
                        seen: Ghost(all),
                    };
                    return Taken::Keep;
                }
                let full = window.len() >= limit;
                let oldest: usize = if full {
                    window[0].len()
                } else {
                    0
                };
                proof {
                    lemma_total_nonneg(old_window, n);
                    if full {
                        assert(old_window[0] == window@[0]@);
                        assert(before.len() >= limit);
                        assert(n == limit);
                        lemma_total_split(old_window, n);
                        lemma_total_nonneg(old_window.skip(1), n - 1);
                        assert(new_window =~= old_window.skip(1).push(line@));
                        lemma_total_prefix(new_window, old_window.skip(1), n - 1);
                    } else {
                        assert(new_window =~= old_window.push(line@));
                        lemma_total_prefix(new_window, old_window, n);
                    }
                    assert(total_bytes(new_window, new_window.len() as int) == held - oldest
                        + line@.len());
                }
                if line.len() > max_bytes - (held - oldest) {
                    proof {
                        assert(window_view(window@) == selected_lines(before, count, head_mode));
                    }
                    *self = LineSelector {
                        count,
                        head_mode,
                        max_bytes,
                        window,
                        held,
                        taken,
                        seen: Ghost(before),
                    };
                    return Taken::TooLarge;
                }
                let ghost kept = window@;
                held = held - oldest + line.len();
                if full {
                    let _ = window.pop_front();
                }
                window.push_back(line);
                proof {
                    assert(window_view(window@) =~= new_window);
                }
                *self = LineSelector {
                    count,
                    head_mode,
                    max_bytes,
                    window,
                    held,
                    taken,
                    seen: Ghost(all),
                };
                Taken::Keep
            },
        }
    }

    /// The last lines, when there are no more.
    pub fn finish(self) -> (r: VecDeque<Vec<u8>>)
        ensures
            window_view(r@) == if prints_at_once(self.count(), self.head_mode()) {
                Seq::<Seq<u8>>::empty()
            } else {
                selected_lines(self.seen(), self.count(), self.head_mode())
            },
    {
        proof {
            use_type_invariant(&self);
            if prints_at_once(self.count, self.head_mode) {
                assert(window_view(self.window@) =~= Seq::<Seq<u8>>::empty());
            }
        }
        self.window
    }
}

proof fn lemma_selected_grows(
    lines: Seq<Seq<u8>>,
    line: Seq<u8>,
    count: TailCount,
    head_mode: bool,
)
    requires
        prints_at_once(count, head_mode),
    ensures
        ({
            let n = lines.len() as int;
            let prints = match count {
                TailCount::Last(limit) => n < limit,
                TailCount::From(start) => n + 1 >= start,
            };
            selected_lines(lines.push(line), count, head_mode) == if prints {
                selected_lines(lines, count, head_mode).push(line)
            } else {
                selected_lines(lines, count, head_mode)
            }
        }),
{
    let n = lines.len() as int;
    let all = lines.push(line);
    match count {
        TailCount::Last(limit) => {
            if n < limit {
                assert(all.take(n + 1) =~= lines.take(n).push(line));
            } else {
                assert(all.take(limit as int) =~= lines.take(limit as int));
            }
        },
        TailCount::From(start) => {
            let k: int = if start == 0 {
                0
            } else {
                start - 1
            };
            if n + 1 >= start {
                assert(all.skip(k) =~= lines.skip(k).push(line));
            } else {
                assert(all.skip(n + 1) =~= lines.skip(n));
            }
        },
    }
}

/// What `head` takes and what `tail` goes on with from the next line make up the input.
pub proof fn law_head_and_tail_split_the_input(lines: Seq<Seq<u8>>, n: usize)
    requires
        n < usize::MAX,
    ensures
        selected_lines(lines, TailCount::Last(n), true) + selected_lines(
            lines,
            TailCount::From((n + 1) as usize),
            false,
        ) == lines,
{
    let k = smaller(n as int, lines.len() as int);
    assert(lines.take(k) + lines.skip(k) =~= lines);
}

/// `tail` takes the end of the input, and `head` its start: as many lines as are asked for, or
/// all where there are fewer.
pub proof fn law_ends_of_the_input(lines: Seq<Seq<u8>>, n: usize)
    ensures
        ({
            let head = selected_lines(lines, TailCount::Last(n), true);
            let tail = selected_lines(lines, TailCount::Last(n), false);
            &&& head.len() == smaller(n as int, lines.len() as int) == tail.len()
            &&& head.is_prefix_of(lines)
            &&& tail.is_suffix_of(lines)
        }),
{
}

/// `head` takes the first lines and `tail` the last: exactly as many as are asked for where there
/// are so many, and all of them otherwise. `tail` from a line on leaves out the lines before it.
pub proof fn law_counts_choose_lines(lines: Seq<Seq<u8>>, n: usize)
    ensures
        n <= lines.len() ==> selected_lines(lines, TailCount::Last(n), true) == lines.take(
            n as int,
        ),
        n <= lines.len() ==> selected_lines(lines, TailCount::Last(n), false) == lines.skip(
            lines.len() - n,
        ),
        n >= lines.len() ==> selected_lines(lines, TailCount::Last(n), true) == lines,
        n >= lines.len() ==> selected_lines(lines, TailCount::Last(n), false) == lines,
        1 <= n <= lines.len() ==> selected_lines(lines, TailCount::From(n), false) == lines.skip(
            n - 1,
        ),
        n > lines.len() ==> selected_lines(lines, TailCount::From(n), false).len() == 0,
{
    assert(lines.take(lines.len() as int) =~= lines);
    assert(lines.skip(0) =~= lines);
    if n == 0 {
        assert(lines.take(0) =~= Seq::<Seq<u8>>::empty());
    }
}

/// A number is read as a number of lines; with a plus sign in front it is the line to start from,
/// which `head` does not know, and there is no line before the first.
pub proof fn law_numbers_count_lines(n: usize, head_mode: bool)
    ensures
        count_of(text::decimal_text(n as nat), head_mode) == Some(TailCount::Last(n)),
        count_of(seq!['+'] + text::decimal_text(n as nat), true) is None,
        count_of(seq!['+'] + text::decimal_text(n as nat), false) == Some(
            TailCount::From(
                if n == 0 {
                    1
                } else {
                    n
                },
            ),
        ),
{
    let s = text::decimal_text(n as nat);
    text::law_written_numbers_are_read_back(n as nat, usize::MAX as nat);
    text::lemma_decimal_text(n as nat);
    assert(text::is_digit(s[0]));
    assert((seq!['+'] + s).skip(1) =~= s);
}

/// What an argument of `head` or `tail` asks for.
pub enum Asked {
    Verbose,
    Count(Seq<char>),
    File(Seq<char>),
}

/// The arguments that ask for something.
pub open spec fn asked_args(asked: Seq<Asked>) -> Seq<Seq<char>>
    decreases asked.len(),
{
    if asked.len() == 0 {
        seq![]
    } else {
        (match asked[0] {
            Asked::Verbose => seq![seq!['-', 'v']],
            Asked::Count(value) => seq![seq!['-', 'n'], value],
            Asked::File(name) => seq![name],
        }) + asked_args(asked.skip(1))
    }
}

/// The plan with what is asked for: files come in order, and of several numbers the last counts.
pub open spec fn asked_plan(asked: Seq<Asked>, head_mode: bool, plan: PlanView) -> PlanView
    decreases asked.len(),
{
    if asked.len() == 0 {
        plan
    } else {
        asked_plan(
            asked.skip(1),
            head_mode,
            match asked[0] {
                Asked::Verbose => PlanView { verbose: true, ..plan },
                Asked::Count(value) => PlanView { count: count_of(value, head_mode)->Some_0, ..plan },
                Asked::File(name) => PlanView { files: plan.files.push(name), ..plan },
            },
        )
    }
}

/// The options and the files of `head` and `tail` may come in any order, each is taken for what
/// it is, and nothing else is in the plan.
pub proof fn law_plans_hold_what_is_asked_for(asked: Seq<Asked>, head_mode: bool)
    requires
        forall|i: int|
            0 <= i < asked.len() ==> match #[trigger] asked[i] {
                Asked::Verbose => true,
                Asked::Count(value) => count_of(value, head_mode) is Some,
                Asked::File(name) => name.len() < 2 || name[0] != '-',
            },
    ensures
        plan_from(
            asked_args(asked),
            0,
            command_name(head_mode),
            head_mode,
            PlanView { count: TailCount::Last(10), verbose: false, files: seq![] },
        ) == Ok::<PlanView, FailureView>(
            asked_plan(
                asked,
                head_mode,
                PlanView { count: TailCount::Last(10), verbose: false, files: seq![] },
            ),
        ),
{
    assert(asked_args(asked).skip(0) =~= asked_args(asked));
    lemma_asked(
        asked_args(asked),
        0,
        asked,
        head_mode,
        PlanView { count: TailCount::Last(10), verbose: false, files: seq![] },
    );
}

proof fn lemma_asked(
    args: Seq<Seq<char>>,
    i: int,
    asked: Seq<Asked>,
    head_mode: bool,
    plan: PlanView,
)
    requires
        0 <= i <= args.len(),
        args.skip(i) == asked_args(asked),
        forall|k: int|
            0 <= k < asked.len() ==> match #[trigger] asked[k] {
                Asked::Verbose => true,
                Asked::Count(value) => count_of(value, head_mode) is Some,
                Asked::File(name) => name.len() < 2 || name[0] != '-',
            },
    ensures
        plan_from(args, i, command_name(head_mode), head_mode, plan) == Ok::<PlanView, FailureView>(
            asked_plan(asked, head_mode, plan),
        ),
    decreases asked.len(),
{
    reveal_strlit("-v");
    reveal_strlit("-n");
    if asked.len() == 0 {
        assert(args.skip(i).len() == 0);
    } else {
        let rest = asked.skip(1);
        let own: Seq<Seq<char>> = match asked[0] {
            Asked::Verbose => seq![seq!['-', 'v']],
            Asked::Count(value) => seq![seq!['-', 'n'], value],
            Asked::File(name) => seq![name],
        };
        assert(args.skip(i) == own + asked_args(rest));
        assert(args.skip(i + own.len()) =~= args.skip(i).skip(own.len() as int));
        assert(args.skip(i + own.len()) =~= asked_args(rest));
        assert(args[i] == args.skip(i)[0]);
        assert(args[i] == own[0]);
        if own.len() == 2 {
            assert(args[i + 1] == args.skip(i)[1]);
        }
        assert("-v"@ =~= seq!['-', 'v']);
        assert("-n"@ =~= seq!['-', 'n']);
        assert("-n"@[1] != "-v"@[1]);
        let next = match asked[0] {
            Asked::Verbose => PlanView { verbose: true, ..plan },
            Asked::Count(value) => PlanView { count: count_of(value, head_mode)->Some_0, ..plan },
            Asked::File(name) => PlanView { files: plan.files.push(name), ..plan },
        };
        assert forall|k: int| 0 <= k < rest.len() implies match #[trigger] rest[k] {
            Asked::Verbose => true,
            Asked::Count(value) => count_of(value, head_mode) is Some,
            Asked::File(name) => name.len() < 2 || name[0] != '-',
        } by {
            assert(rest[k] == asked[k + 1]);
        }
        lemma_asked(args, i + own.len(), rest, head_mode, next);
    }
}

/// A header names its file, and all but the first stand behind an empty line.
pub proof fn law_headers_stand_behind_an_empty_line(label: Seq<char>, before: nat)
    requires
        before > 0,
    ensures
        header_text(label, before) == "\n"@ + header_text(label, 0),
        header_text(label, 0) == "==> "@ + label + " <==\n"@,
{
    reveal_strlit("");
    assert(""@ + "==> "@ =~= "==> "@);
    assert("\n"@ + "==> "@ + label + " <==\n"@ =~= "\n"@ + ("==> "@ + label + " <==\n"@));
}

/// A file is called by its own name in its header, and only the standard input is not.
pub proof fn law_headers_name_their_files(operand: Seq<char>)
    ensures
        operand != seq!['-'] ==> operand_label(operand) == operand,
        operand_label(seq!['-']) == "standard input"@,
{
    reveal_strlit("-");
    assert("-"@ =~= seq!['-']);
}

} // verus!
