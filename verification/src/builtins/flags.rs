//! Options made of single letters, which may be given together behind one dash.

use vstd::prelude::*;

use crate::builtins;
use crate::text;

verus! {

/// The letters given as options and the operands, in the order of the arguments.
pub struct Letters {
    pub letters: Vec<char>,
    pub operands: Vec<String>,
}

#[verifier::ext_equal]
pub struct LettersView {
    pub letters: Seq<char>,
    pub operands: Seq<Seq<char>>,
}

impl View for Letters {
    type V = LettersView;

    open spec fn view(&self) -> LettersView {
        LettersView { letters: self.letters@, operands: text::texts(self.operands@) }
    }
}

/// The first character from index `i` on that is not among those allowed.
pub open spec fn first_outside(s: Seq<char>, i: int, allowed: Seq<char>) -> Option<char>
    decreases s.len() - i,
{
    if i < 0 || i >= s.len() {
        None
    } else if allowed.contains(s[i]) {
        first_outside(s, i + 1, allowed)
    } else {
        Some(s[i])
    }
}

/// What the first `n` arguments give: the letters and the operands, or the first letter that is
/// not allowed.
pub open spec fn scan(args: Seq<Seq<char>>, n: int, allowed: Seq<char>) -> Result<
    LettersView,
    char,
>
    decreases n,
{
    if n <= 0 {
        Ok(LettersView { letters: seq![], operands: seq![] })
    } else {
        match scan(args, n - 1, allowed) {
            Err(letter) => Err(letter),
            Ok(read) => {
                let arg = args[n - 1];
                if builtins::is_option(arg) {
                    match first_outside(arg, 1, allowed) {
                        Some(letter) => Err(letter),
                        None => Ok(
                            LettersView {
                                letters: read.letters + arg.skip(1),
                                operands: read.operands,
                            },
                        ),
                    }
                } else {
                    Ok(
                        LettersView {
                            letters: read.letters,
                            operands: read.operands.push(arg),
                        },
                    )
                }
            },
        }
    }
}

/// What the arguments of a command give.
pub open spec fn scanned(args: Seq<Seq<char>>, allowed: Seq<char>) -> Result<LettersView, char> {
    scan(args, args.len() as int, allowed)
}

/// Whether a character is among others.
pub fn holds(chars: &Vec<char>, c: char) -> (r: bool)
    ensures
        r == chars@.contains(c),
{
    let mut i: usize = 0;
    while i < chars.len()
        invariant
            i <= chars@.len(),
            forall|k: int| 0 <= k < i ==> chars@[k] != c,
        decreases chars@.len() - i,
    {
        if chars[i] == c {
            return true;
        }
        i = i + 1;
    }
    false
}

proof fn lemma_scan_error(args: Seq<Seq<char>>, n: int, m: int, allowed: Seq<char>)
    requires
        0 <= n <= m,
        scan(args, n, allowed) is Err,
    ensures
        scan(args, m, allowed) == scan(args, n, allowed),
    decreases m - n,
{
    if n < m {
        lemma_scan_error(args, n, m - 1, allowed);
    }
}

/// Separates the letters given as options from the operands.
pub fn split_letters(args: &Vec<String>, allowed: &str) -> (r: Result<Letters, char>)
    ensures
        match scanned(text::texts(args@), allowed@) {
            Ok(expected) => r matches Ok(found) && found@ == expected,
            Err(letter) => r == Err::<Letters, char>(letter),
        },
{
    let ghost all = text::texts(args@);
    let allowed_chars = text::to_chars(allowed);
    let mut letters: Vec<char> = Vec::new();
    let mut operands: Vec<String> = Vec::new();
    let mut i: usize = 0;
    proof {
        assert(letters@ =~= seq![]);
        assert(text::texts(operands@) =~= seq![]);
    }
    while i < args.len()
        invariant
            i <= args@.len(),
            all == text::texts(args@),
            allowed_chars@ == allowed@,
            scan(all, i as int, allowed@) == Ok::<LettersView, char>(
                LettersView { letters: letters@, operands: text::texts(operands@) },
            ),
        decreases args@.len() - i,
    {
        let arg = &args[i];
        proof {
            assert(all[i as int] == arg@);
        }
        if builtins::is_option_arg(arg.as_str()) {
            let chars = text::to_chars(arg.as_str());
            let ghost before = letters@;
            let mut k: usize = 1;
            proof {
                assert(before + arg@.subrange(1, 1) =~= before);
            }
            while k < chars.len()
                invariant
                    1 <= k <= chars@.len(),
                    i < args@.len(),
                    all == text::texts(args@),
                    all[i as int] == arg@,
                    chars@ == arg@,
                    builtins::is_option(arg@),
                    allowed_chars@ == allowed@,
                    letters@ == before + arg@.subrange(1, k as int),
                    first_outside(arg@, k as int, allowed@) == first_outside(arg@, 1, allowed@),
                    scan(all, i as int, allowed@) == Ok::<LettersView, char>(
                        LettersView { letters: before, operands: text::texts(operands@) },
                    ),
                decreases chars@.len() - k,
            {
                let letter = chars[k];
                if !holds(&allowed_chars, letter) {
                    proof {
                        assert(scan(all, i + 1, allowed@) == Err::<LettersView, char>(letter));
                        lemma_scan_error(all, i + 1, all.len() as int, allowed@);
                    }
                    return Err(letter);
                }
                letters.push(letter);
                proof {
                    assert(letters@ =~= before + arg@.subrange(1, k + 1));
                }
                k = k + 1;
            }
            proof {
                assert(arg@.subrange(1, k as int) =~= arg@.skip(1));
            }
        } else {
            let ghost before = operands@;
            operands.push(arg.clone());
            proof {
                assert(text::texts(operands@) =~= text::texts(before).push(arg@));
            }
        }
        i = i + 1;
    }
    Ok(Letters { letters, operands })
}

proof fn lemma_first_outside(s: Seq<char>, i: int, allowed: Seq<char>)
    requires
        0 <= i,
    ensures
        first_outside(s, i, allowed) is Some <==> exists|k: int|
            i <= k < s.len() && !allowed.contains(#[trigger] s[k]),
    decreases s.len() - i,
{
    if i < s.len() {
        if allowed.contains(s[i]) {
            lemma_first_outside(s, i + 1, allowed);
        } else {
            assert(!allowed.contains(s[i]));
        }
    }
}

proof fn lemma_refused(args: Seq<Seq<char>>, n: int, allowed: Seq<char>)
    requires
        0 <= n <= args.len(),
    ensures
        scan(args, n, allowed) is Err <==> exists|a: int, k: int|
            0 <= a < n && builtins::is_option(args[a]) && 1 <= k < args[a].len()
                && !allowed.contains(#[trigger] args[a][k]),
    decreases n,
{
    if n > 0 {
        lemma_refused(args, n - 1, allowed);
        let arg = args[n - 1];
        lemma_first_outside(arg, 1, allowed);
        if scan(args, n - 1, allowed) is Err {
            let (a, k) = choose|a: int, k: int|
                0 <= a < n - 1 && builtins::is_option(args[a]) && 1 <= k < args[a].len()
                    && !allowed.contains(#[trigger] args[a][k]);
            assert(!allowed.contains(args[a][k]));
        } else if scan(args, n, allowed) is Err {
            let k = choose|k: int| 1 <= k < arg.len() && !allowed.contains(#[trigger] arg[k]);
            assert(!allowed.contains(args[n - 1][k]));
        }
    }
}

/// A command is refused exactly where one of its options holds a letter that it does not know:
/// no letter is passed over in silence, and no operand is taken for an option.
pub proof fn law_unknown_letters_are_refused(args: Seq<Seq<char>>, allowed: Seq<char>)
    ensures
        scanned(args, allowed) is Err <==> exists|a: int, k: int|
            0 <= a < args.len() && builtins::is_option(args[a]) && 1 <= k < args[a].len()
                && !allowed.contains(#[trigger] args[a][k]),
{
    lemma_refused(args, args.len() as int, allowed);
}

/// The arguments are read from left to right, and each for itself: what two rows of arguments
/// give together is what they give one after the other, and a refused letter in the first is the
/// one that is reported.
pub proof fn law_arguments_are_read_in_turn(
    a: Seq<Seq<char>>,
    b: Seq<Seq<char>>,
    allowed: Seq<char>,
)
    ensures
        scanned(a + b, allowed) == (match (scanned(a, allowed), scanned(b, allowed)) {
            (Err(letter), _) => Err(letter),
            (Ok(_), Err(letter)) => Err(letter),
            (Ok(x), Ok(y)) => Ok::<LettersView, char>(
                LettersView { letters: x.letters + y.letters, operands: x.operands + y.operands },
            ),
        }),
{
    lemma_in_turn(a, b, b.len() as int, allowed);
}

proof fn lemma_front(a: Seq<Seq<char>>, b: Seq<Seq<char>>, n: int, allowed: Seq<char>)
    requires
        0 <= n <= a.len(),
    ensures
        scan(a + b, n, allowed) == scan(a, n, allowed),
    decreases n,
{
    if n > 0 {
        lemma_front(a, b, n - 1, allowed);
        assert((a + b)[n - 1] == a[n - 1]);
    }
}

proof fn lemma_in_turn(a: Seq<Seq<char>>, b: Seq<Seq<char>>, n: int, allowed: Seq<char>)
    requires
        0 <= n <= b.len(),
    ensures
        scan(a + b, a.len() + n, allowed) == (match (scanned(a, allowed), scan(b, n, allowed)) {
            (Err(letter), _) => Err(letter),
            (Ok(_), Err(letter)) => Err(letter),
            (Ok(x), Ok(y)) => Ok::<LettersView, char>(
                LettersView { letters: x.letters + y.letters, operands: x.operands + y.operands },
            ),
        }),
    decreases n,
{
    if n == 0 {
        lemma_front(a, b, a.len() as int, allowed);
        if let Ok(x) = scanned(a, allowed) {
            assert(x.letters + Seq::<char>::empty() =~= x.letters);
            assert(x.operands + Seq::<Seq<char>>::empty() =~= x.operands);
        }
    } else {
        lemma_in_turn(a, b, n - 1, allowed);
        assert((a + b)[a.len() + n - 1] == b[n - 1]);
        let arg = b[n - 1];
        match (scanned(a, allowed), scan(b, n - 1, allowed)) {
            (Ok(x), Ok(y)) => {
                assert((x.letters + y.letters) + arg.skip(1) =~= x.letters + (y.letters
                    + arg.skip(1)));
                assert((x.operands + y.operands).push(arg) =~= x.operands + y.operands.push(arg));
            },
            _ => {},
        }
    }
}

/// An argument that starts with a dash and goes on gives its letters, or the first of them that
/// is not known; any other, the dash alone too, is an operand.
pub proof fn law_an_argument_is_letters_or_an_operand(arg: Seq<char>, allowed: Seq<char>)
    ensures
        !(arg.len() > 1 && arg[0] == '-') ==> scanned(seq![arg], allowed) == Ok::<
            LettersView,
            char,
        >(LettersView { letters: seq![], operands: seq![arg] }),
        arg.len() > 1 && arg[0] == '-' && (forall|i: int|
            1 <= i < arg.len() ==> allowed.contains(#[trigger] arg[i])) ==> scanned(
            seq![arg],
            allowed,
        ) == Ok::<LettersView, char>(LettersView { letters: arg.skip(1), operands: seq![] }),
        forall|k: int|
            arg.len() > 1 && arg[0] == '-' && 1 <= k < arg.len() && !allowed.contains(
                #[trigger] arg[k],
            ) && (forall|i: int| 1 <= i < k ==> allowed.contains(#[trigger] arg[i])) ==> scanned(
                seq![arg],
                allowed,
            ) == Err::<LettersView, char>(arg[k]),
{
    reveal_with_fuel(scan, 2);
    let none: Seq<char> = seq![];
    assert(none + arg.skip(1) =~= arg.skip(1));
    assert(Seq::<Seq<char>>::empty().push(arg) =~= seq![arg]);
    assert(seq![arg][0] == arg);
    if forall|i: int| 1 <= i < arg.len() ==> allowed.contains(#[trigger] arg[i]) {
        if arg.len() > 1 {
            lemma_first_outside_at(arg, 1, arg.len() as int, allowed);
        }
    }
    assert forall|k: int|
        arg.len() > 1 && arg[0] == '-' && 1 <= k < arg.len() && !allowed.contains(#[trigger] arg[k])
            && (forall|i: int| 1 <= i < k ==> allowed.contains(#[trigger] arg[i])) implies scanned(
        seq![arg],
        allowed,
    ) == Err::<LettersView, char>(arg[k]) by {
        lemma_first_outside_at(arg, 1, k, allowed);
    }
}

proof fn lemma_first_outside_at(s: Seq<char>, i: int, k: int, allowed: Seq<char>)
    requires
        0 <= i <= k <= s.len(),
        forall|x: int| i <= x < k ==> allowed.contains(#[trigger] s[x]),
        k < s.len() ==> !allowed.contains(s[k]),
    ensures
        first_outside(s, i, allowed) == (if k < s.len() {
            Some(s[k])
        } else {
            None::<char>
        }),
    decreases k - i,
{
    if i < k {
        assert(allowed.contains(s[i]));
        lemma_first_outside_at(s, i + 1, k, allowed);
    }
}

/// The letters of two rows are the letters of either.
pub proof fn lemma_contains_concat(a: Seq<char>, b: Seq<char>, c: char)
    ensures
        (a + b).contains(c) == (a.contains(c) || b.contains(c)),
{
    let all = a + b;
    if a.contains(c) {
        let i = a.index_of(c);
        assert(all[i] == c);
    }
    if b.contains(c) {
        let i = b.index_of(c);
        assert(all[a.len() + i] == c);
    }
    if all.contains(c) {
        let i = all.index_of(c);
        if i < a.len() {
            assert(a[i] == c);
        } else {
            assert(b[i - a.len()] == c);
        }
    }
}

/// A row of one letter holds that letter alone.
pub proof fn lemma_contains_one(c: char)
    ensures
        forall|d: char| #[trigger] seq![c].contains(d) == (c == d),
{
    assert(seq![c][0] == c);
}

} // verus!
