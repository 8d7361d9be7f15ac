//! `uniq`: runs of equal lines.

use vstd::prelude::*;

use crate::builtins;
use crate::builtins::{Failure, FailureView};
use crate::text;

verus! {

/// What `uniq` prints of a run.
#[derive(Debug, Clone, Copy, PartialEq, Eq, Structural)]
pub struct UniqModes {
    /// The number of lines in front of each run.
    pub count: bool,
    /// Only runs of several lines.
    pub repeated: bool,
    /// Only runs of one line.
    pub unique_only: bool,
}

/// What `uniq` is asked to do: its file is the standard input where there is none.
pub struct UniqPlan {
    pub modes: UniqModes,
    pub file: Option<String>,
}

/// The arguments as far as they have been read: the modes and the operands, or the first option
/// that is not known.
pub open spec fn uniq_scan(args: Seq<Seq<char>>, n: int) -> Result<
    (UniqModes, Seq<Seq<char>>),
    Seq<char>,
>
    decreases n,
{
    if n <= 0 {
        Ok((UniqModes { count: false, repeated: false, unique_only: false }, seq![]))
    } else {
        match uniq_scan(args, n - 1) {
            Err(flag) => Err(flag),
            Ok((modes, files)) => {
                let arg = args[n - 1];
                if arg == "-c"@ {
                    Ok((UniqModes { count: true, ..modes }, files))
                } else if arg == "-d"@ {
                    Ok((UniqModes { repeated: true, ..modes }, files))
                } else if arg == "-u"@ {
                    Ok((UniqModes { unique_only: true, ..modes }, files))
                } else if builtins::is_option(arg) {
                    Err(arg)
                } else {
                    Ok((modes, files.push(arg)))
                }
            },
        }
    }
}

proof fn lemma_uniq_error(args: Seq<Seq<char>>, n: int, m: int)
    requires
        0 <= n <= m,
        uniq_scan(args, n) is Err,
    ensures
        uniq_scan(args, m) == uniq_scan(args, n),
    decreases m - n,
{
    if n < m {
        lemma_uniq_error(args, n, m - 1);
    }
}

pub open spec fn file_view(file: Option<String>) -> Option<Seq<char>> {
    match file {
        Some(file) => Some(file@),
        None => None,
    }
}

/// Reads the arguments of `uniq`.
pub fn parse_uniq_args(args: &Vec<String>) -> (r: Result<UniqPlan, Failure>)
    ensures
        match uniq_scan(text::texts(args@), args@.len() as int) {
            Err(flag) => r matches Err(failure) && failure@ == (FailureView {
                message: builtins::unsupported_text("uniq"@, flag),
                code: 1,
            }),
            Ok((modes, files)) => if files.len() > 1 {
                r matches Err(failure) && failure@ == (FailureView {
                    message: "uniq: extra operand\n"@,
                    code: 1,
                })
            } else {
                r matches Ok(plan) && plan.modes == modes && file_view(plan.file) == if files.len()
                    == 1 {
                    Some(files[0])
                } else {
                    None
                }
            },
        },
{
    let ghost all = text::texts(args@);
    let mut modes = UniqModes { count: false, repeated: false, unique_only: false };
    let mut files: Vec<String> = Vec::new();
    let mut i: usize = 0;
    proof {
        assert(text::texts(files@) =~= seq![]);
    }
    while i < args.len()
        invariant
            i <= args@.len(),
            all == text::texts(args@),
            uniq_scan(all, i as int) == Ok::<(UniqModes, Seq<Seq<char>>), Seq<char>>(
                (modes, text::texts(files@)),
            ),
        decreases args@.len() - i,
    {
        let arg = &args[i];
        proof {
            assert(all[i as int] == arg@);
        }
        if text::str_eq(arg.as_str(), "-c") {
            modes.count = true;
        } else if text::str_eq(arg.as_str(), "-d") {
            modes.repeated = true;
        } else if text::str_eq(arg.as_str(), "-u") {
            modes.unique_only = true;
        } else if builtins::is_option_arg(arg.as_str()) {
            proof {
                assert(uniq_scan(all, i + 1) == Err::<(UniqModes, Seq<Seq<char>>), Seq<char>>(
                    arg@,
                ));
                lemma_uniq_error(all, i + 1, args@.len() as int);
            }
            return Err(builtins::unsupported("uniq", arg.as_str(), 1));
        } else {
            let ghost before = files@;
            files.push(arg.clone());
            proof {
                assert(text::texts(files@) =~= text::texts(before).push(arg@));
            }
        }
        i = i + 1;
    }
    proof {
        assert(files@.len() == text::texts(files@).len());
        if files@.len() > 0 {
            assert(text::texts(files@).last() == files@.last()@);
        }
    }
    if files.len() > 1 {
        return Err(builtins::failure("uniq: extra operand\n", 1));
    }
    Ok(UniqPlan { modes, file: files.pop() })
}

/// The runs of equal lines among the first `n`: each line with the number of times it stands in
/// a row.
pub open spec fn runs(lines: Seq<Seq<char>>, n: int) -> Seq<(Seq<char>, nat)>
    decreases n,
{
    if n <= 0 {
        seq![]
    } else {
        let before = runs(lines, n - 1);
        if before.len() > 0 && before.last().0 == lines[n - 1] {
            before.drop_last().push((lines[n - 1], before.last().1 + 1))
        } else {
            before.push((lines[n - 1], 1))
        }
    }
}

/// The runs that are known to have ended.
pub open spec fn ended_runs(lines: Seq<Seq<char>>) -> Seq<(Seq<char>, nat)> {
    let all = runs(lines, lines.len() as int);
    if all.len() == 0 {
        all
    } else {
        all.drop_last()
    }
}

pub open spec fn run_view(run: (String, usize)) -> (Seq<char>, nat) {
    (run.0@, run.1 as nat)
}

/// Groups lines that arrive one after another into runs.
pub struct Runs {
    current: Option<(String, usize)>,
    seen: Ghost<Seq<Seq<char>>>,
}

proof fn lemma_runs_extend(lines: Seq<Seq<char>>, line: Seq<char>, n: int)
    requires
        0 <= n <= lines.len(),
    ensures
        runs(lines.push(line), n) == runs(lines, n),
    decreases n,
{
    if n > 0 {
        lemma_runs_extend(lines, line, n - 1);
        assert(lines.push(line)[n - 1] == lines[n - 1]);
    }
}

proof fn lemma_runs_bound(lines: Seq<Seq<char>>, n: int)
    requires
        0 <= n <= lines.len(),
    ensures
        n > 0 ==> runs(lines, n).len() > 0 && runs(lines, n).last().1 <= n,
        n == 0 ==> runs(lines, n).len() == 0,
    decreases n,
{
    if n > 0 {
        lemma_runs_bound(lines, n - 1);
    }
}

impl Runs {
    #[verifier::type_invariant]
    spec fn inv(&self) -> bool {
        let all = runs(self.seen@, self.seen@.len() as int);
        &&& self.seen@.len() <= usize::MAX
        &&& match self.current {
            Some(run) => all.len() > 0 && run_view(run) == all.last(),
            None => all.len() == 0,
        }
    }

    /// The lines so far.
    pub closed spec fn seen(&self) -> Seq<Seq<char>> {
        self.seen@
    }

    pub fn new() -> (r: Self)
        ensures
            r.seen() == Seq::<Seq<char>>::empty(),
    {
        Runs { current: None, seen: Ghost(Seq::<Seq<char>>::empty()) }
    }

    /// Takes a line, and gives the run that it ends.
    pub fn push(&mut self, line: String) -> (r: Option<(String, usize)>)
        requires
            old(self).seen().len() < usize::MAX,
        ensures
            final(self).seen() == old(self).seen().push(line@),
            ended_runs(final(self).seen()) == match r {
                Some(run) => ended_runs(old(self).seen()).push(run_view(run)),
                None => ended_runs(old(self).seen()),
            },
    {
        proof {
            use_type_invariant(&*self);
        }
        let ghost before = self.seen@;
        let ghost all = before.push(line@);
        let ghost old_runs = runs(before, before.len() as int);
        proof {
            lemma_runs_extend(before, line@, before.len() as int);
            lemma_runs_bound(before, before.len() as int);
            assert(all.len() == before.len() + 1);
            assert(all[before.len() as int] == line@);
            if old_runs.len() > 0 {
                assert(old_runs.drop_last().push(old_runs.last()) =~= old_runs);
            }
        }
        let mut next = Runs::new();
        std::mem::swap(self, &mut next);
        let Runs { current, seen: _ } = next;
        match current {
            Some((last, n)) => {
                if text::str_eq(last.as_str(), line.as_str()) {
                    *self = Runs { current: Some((last, n + 1)), seen: Ghost(all) };
                    proof {
                        assert(runs(all, all.len() as int).drop_last() =~= old_runs.drop_last());
                    }
                    None
                } else {
                    *self = Runs { current: Some((line, 1)), seen: Ghost(all) };
                    proof {
                        assert(runs(all, all.len() as int).drop_last() =~= old_runs);
                    }
                    Some((last, n))
                }
            },
            None => {
                *self = Runs { current: Some((line, 1)), seen: Ghost(all) };
                proof {
                    assert(runs(all, all.len() as int).drop_last() =~= old_runs);
                }
                None
            },
        }
    }

    /// The last run, when there are no more lines.
    pub fn finish(self) -> (r: Option<(String, usize)>)
        ensures
            ({
                let all = runs(self.seen(), self.seen().len() as int);
                match r {
                    Some(run) => all == ended_runs(self.seen()).push(run_view(run)),
                    None => all.len() == 0,
                }
            }),
    {
        proof {
            use_type_invariant(&self);
            let all = runs(self.seen@, self.seen@.len() as int);
            if all.len() > 0 {
                assert(all.drop_last().push(all.last()) =~= all);
            }
        }
        self.current
    }
}

/// What is printed of a run, if it is printed at all.
pub open spec fn run_text(line: Seq<char>, n: nat, modes: UniqModes) -> Option<Seq<char>> {
    if (modes.repeated && n == 1) || (modes.unique_only && n != 1) {
        None
    } else if modes.count {
        Some(text::pad_left(text::decimal_text(n), 7) + " "@ + line + "\n"@)
    } else {
        Some(line + "\n"@)
    }
}

/// What is printed of a run.
pub fn format_run(line: &str, n: usize, modes: UniqModes) -> (r: Option<String>)
    ensures
        match run_text(line@, n as nat, modes) {
            Some(printed) => r matches Some(s) && s@ == printed,
            None => r is None,
        },
{
    if modes.repeated && n == 1 {
        return None;
    }
    if modes.unique_only && n != 1 {
        return None;
    }
    if modes.count {
        let number = text::decimal(n as u64);
        let padded = text::padded(number.as_str(), 7);
        Some(text::concat4(padded.as_str(), " ", line, "\n"))
    } else {
        Some(text::concat2(line, "\n"))
    }
}

/// The lines that runs stand for.
pub open spec fn spelled_out(all: Seq<(Seq<char>, nat)>) -> Seq<Seq<char>>
    decreases all.len(),
{
    if all.len() == 0 {
        seq![]
    } else {
        spelled_out(all.drop_last()) + Seq::new(all.last().1, |i: int| all.last().0)
    }
}

proof fn lemma_runs(lines: Seq<Seq<char>>, n: int)
    requires
        0 <= n <= lines.len(),
    ensures
        spelled_out(runs(lines, n)) == lines.take(n),
        n > 0 ==> runs(lines, n).len() > 0 && runs(lines, n).last().0 == lines[n - 1],
        forall|i: int|
            0 <= i < runs(lines, n).len() - 1 ==> (#[trigger] runs(lines, n)[i]).0 != runs(
                lines,
                n,
            )[i + 1].0,
        forall|i: int| 0 <= i < runs(lines, n).len() ==> (#[trigger] runs(lines, n)[i]).1 > 0,
    decreases n,
{
    let all = runs(lines, n);
    if n == 0 {
        assert(spelled_out(all) =~= lines.take(0));
    } else {
        lemma_runs(lines, n - 1);
        let before = runs(lines, n - 1);
        let line = lines[n - 1];
        assert(lines.take(n) =~= lines.take(n - 1).push(line));
        if before.len() > 0 && before.last().0 == line {
            assert(all.drop_last() =~= before.drop_last());
            let count = before.last().1;
            let shorter = Seq::new(count, |i: int| before.last().0);
            let longer = Seq::new(count + 1, |i: int| all.last().0);
            assert(longer =~= shorter.push(line));
            assert(spelled_out(before) == spelled_out(before.drop_last()) + shorter);
            assert(spelled_out(all) == spelled_out(before.drop_last()) + longer);
            assert(spelled_out(all) =~= spelled_out(before).push(line));
            assert forall|i: int| 0 <= i < all.len() - 1 implies (#[trigger] all[i]).0 != all[i
                + 1].0 by {
                assert(before[i].0 != before[i + 1].0);
            }
        } else {
            assert(all.drop_last() =~= before);
            assert(Seq::new(1, |i: int| all.last().0) =~= seq![line]);
            assert(spelled_out(all) =~= spelled_out(before).push(line));
            assert forall|i: int| 0 <= i < all.len() - 1 implies (#[trigger] all[i]).0 != all[i
                + 1].0 by {
                if i < before.len() - 1 {
                    assert(before[i].0 != before[i + 1].0);
                }
            }
        }
    }
}

/// Runs lose nothing: spelled out they are the lines again, none is empty, and the runs next to
/// each other are of different lines.
pub proof fn law_runs_make_up_the_input(lines: Seq<Seq<char>>)
    ensures
        ({
            let all = runs(lines, lines.len() as int);
            &&& spelled_out(all) == lines
            &&& forall|i: int| 0 <= i < all.len() ==> (#[trigger] all[i]).1 > 0
            &&& forall|i: int|
                0 <= i < all.len() - 1 ==> (#[trigger] all[i]).0 != all[i + 1].0
        }),
{
    lemma_runs(lines, lines.len() as int);
    assert(lines.take(lines.len() as int) =~= lines);
}

/// A run is printed once, as its line. With the repeated lines alone asked for, a run of one is
/// left out, and with the unrepeated ones alone every other run is: each run is printed in exactly
/// one of the two ways, and in none where both are asked for. A count stands in front of the line,
/// and changes nothing else.
pub proof fn law_every_run_is_repeated_or_not(line: Seq<char>, n: nat)
    requires
        n > 0,
    ensures
        ({
            let all = UniqModes { count: false, repeated: false, unique_only: false };
            let repeated = UniqModes { count: false, repeated: true, unique_only: false };
            let unique = UniqModes { count: false, repeated: false, unique_only: true };
            let both = UniqModes { count: false, repeated: true, unique_only: true };
            &&& run_text(line, n, all) == Some(line + "\n"@)
            &&& n > 1 ==> run_text(line, n, repeated) == run_text(line, n, all) && run_text(
                line,
                n,
                unique,
            ) is None
            &&& n == 1 ==> run_text(line, n, unique) == run_text(line, n, all) && run_text(
                line,
                n,
                repeated,
            ) is None
            &&& run_text(line, n, both) is None
        }),
        forall|modes: UniqModes|
            ({
                let plain = #[trigger] run_text(line, n, UniqModes { count: false, ..modes });
                run_text(line, n, UniqModes { count: true, ..modes }) == (match plain {
                    Some(shown) => Some(
                        text::pad_left(text::decimal_text(n), 7) + " "@ + shown,
                    ),
                    None => None::<Seq<char>>,
                })
            }),
{
    let number = text::pad_left(text::decimal_text(n), 7) + " "@;
    assert(number + line + "\n"@ =~= number + (line + "\n"@));
}

/// Each option of `uniq` may stand anywhere and is kept, and the operands come in their order:
/// what two rows of arguments give together is what each gives.
pub proof fn law_uniq_arguments_are_read_in_turn(a: Seq<Seq<char>>, b: Seq<Seq<char>>)
    ensures
        uniq_scan(a + b, (a + b).len() as int) == (match (
            uniq_scan(a, a.len() as int),
            uniq_scan(b, b.len() as int),
        ) {
            (Err(flag), _) => Err(flag),
            (Ok(_), Err(flag)) => Err(flag),
            (Ok((x, files)), Ok((y, more))) => Ok::<(UniqModes, Seq<Seq<char>>), Seq<char>>(
                (
                    UniqModes {
                        count: x.count || y.count,
                        repeated: x.repeated || y.repeated,
                        unique_only: x.unique_only || y.unique_only,
                    },
                    files + more,
                ),
            ),
        }),
{
    lemma_scan_in_turn(a, b, b.len() as int);
}

proof fn lemma_scan_front(a: Seq<Seq<char>>, b: Seq<Seq<char>>, n: int)
    requires
        0 <= n <= a.len(),
    ensures
        uniq_scan(a + b, n) == uniq_scan(a, n),
    decreases n,
{
    if n > 0 {
        lemma_scan_front(a, b, n - 1);
        assert((a + b)[n - 1] == a[n - 1]);
    }
}

proof fn lemma_scan_in_turn(a: Seq<Seq<char>>, b: Seq<Seq<char>>, n: int)
    requires
        0 <= n <= b.len(),
    ensures
        uniq_scan(a + b, a.len() + n) == (match (
            uniq_scan(a, a.len() as int),
            uniq_scan(b, n),
        ) {
            (Err(flag), _) => Err(flag),
            (Ok(_), Err(flag)) => Err(flag),
            (Ok((x, files)), Ok((y, more))) => Ok::<(UniqModes, Seq<Seq<char>>), Seq<char>>(
                (
                    UniqModes {
                        count: x.count || y.count,
                        repeated: x.repeated || y.repeated,
                        unique_only: x.unique_only || y.unique_only,
                    },
                    files + more,
                ),
            ),
        }),
    decreases n,
{
    if n == 0 {
        lemma_scan_front(a, b, a.len() as int);
        if let Ok((_, files)) = uniq_scan(a, a.len() as int) {
            assert(files + Seq::<Seq<char>>::empty() =~= files);
        }
    } else {
        lemma_scan_in_turn(a, b, n - 1);
        assert((a + b)[a.len() + n - 1] == b[n - 1]);
        match (uniq_scan(a, a.len() as int), uniq_scan(b, n - 1)) {
            (Ok((_, files)), Ok((_, more))) => {
                assert((files + more).push(b[n - 1]) =~= files + more.push(b[n - 1]));
            },
            _ => {},
        }
    }
}

/// The three options of `uniq`, each alone; any other argument that starts with a dash and goes on
/// is refused, and the rest are operands.
pub proof fn law_uniq_knows_three_options(arg: Seq<char>)
    ensures
        uniq_scan(seq![arg], 1) == (if arg == seq!['-', 'c'] {
            Ok::<(UniqModes, Seq<Seq<char>>), Seq<char>>(
                (UniqModes { count: true, repeated: false, unique_only: false }, seq![]),
            )
        } else if arg == seq!['-', 'd'] {
            Ok((UniqModes { count: false, repeated: true, unique_only: false }, seq![]))
        } else if arg == seq!['-', 'u'] {
            Ok((UniqModes { count: false, repeated: false, unique_only: true }, seq![]))
        } else if arg.len() > 1 && arg[0] == '-' {
            Err(arg)
        } else {
            Ok((UniqModes { count: false, repeated: false, unique_only: false }, seq![arg]))
        }),
{
    reveal_with_fuel(uniq_scan, 2);
    reveal_strlit("-c");
    reveal_strlit("-d");
    reveal_strlit("-u");
    assert("-c"@ =~= seq!['-', 'c']);
    assert("-d"@ =~= seq!['-', 'd']);
    assert("-u"@ =~= seq!['-', 'u']);
    assert(Seq::<Seq<char>>::empty().push(arg) =~= seq![arg]);
    assert(seq!['-', 'c'][1] != seq!['-', 'd'][1]);
    assert(seq!['-', 'c'][1] != seq!['-', 'u'][1]);
    assert(seq!['-', 'd'][1] != seq!['-', 'u'][1]);
}

/// A line that repeats the one before it makes the last run longer, and any other starts a run.
pub proof fn law_lines_go_on_with_their_run(lines: Seq<Seq<char>>, line: Seq<char>)
    ensures
        ({
            let before = runs(lines, lines.len() as int);
            let after = runs(lines.push(line), lines.len() as int + 1);
            &&& lines.len() > 0 && lines.last() == line ==> after.len() == before.len()
                && after.last() == (line, before.last().1 + 1) && after.drop_last()
                == before.drop_last()
            &&& lines.len() == 0 || lines.last() != line ==> after == before.push((line, 1nat))
        }),
{
    let all = lines.push(line);
    lemma_runs_front(lines, line, lines.len() as int);
    if lines.len() > 0 {
        lemma_last_run(lines, lines.len() as int);
    }
    let before = runs(lines, lines.len() as int);
    let after = runs(all, lines.len() as int + 1);
    assert(all[lines.len() as int] == line);
    if lines.len() > 0 && lines.last() == line {
        assert(after.drop_last() =~= before.drop_last());
    }
}

proof fn lemma_runs_front(lines: Seq<Seq<char>>, line: Seq<char>, n: int)
    requires
        0 <= n <= lines.len(),
    ensures
        runs(lines.push(line), n) == runs(lines, n),
    decreases n,
{
    if n > 0 {
        lemma_runs_front(lines, line, n - 1);
    }
}

proof fn lemma_last_run(lines: Seq<Seq<char>>, n: int)
    requires
        0 < n <= lines.len(),
    ensures
        runs(lines, n).len() > 0,
        runs(lines, n).last().0 == lines[n - 1],
{
}

} // verus!
