//! The command line of `jq`.

use vstd::prelude::*;

use crate::text;

verus! {

/// A variable that is given on the command line.
#[derive(Debug, PartialEq, Eq)]
pub struct JqVariable {
    /// The name, with its dollar sign.
    pub name: String,
    pub value: String,
    /// Whether the value is JSON, or a text.
    pub json: bool,
}

#[verifier::ext_equal]
pub struct VariableView {
    pub name: Seq<char>,
    pub value: Seq<char>,
    pub json: bool,
}

impl JqVariable {
    pub open spec fn view(&self) -> VariableView {
        VariableView { name: self.name@, value: self.value@, json: self.json }
    }
}

pub open spec fn variables_view(vars: Seq<JqVariable>) -> Seq<VariableView> {
    vars.map_values(|v: JqVariable| v@)
}

/// What `jq` was asked to do.
#[derive(Debug, PartialEq, Eq)]
pub struct JqOptions {
    pub filter: String,
    pub files: Vec<String>,
    pub raw_output: bool,
    pub join_output: bool,
    pub compact_output: bool,
    pub exit_status: bool,
    pub null_input: bool,
    pub slurp: bool,
    pub sort_keys: bool,
    pub indent: String,
    pub vars: Vec<JqVariable>,
}

#[verifier::ext_equal]
pub struct OptionsView {
    pub filter: Seq<char>,
    pub files: Seq<Seq<char>>,
    pub raw_output: bool,
    pub join_output: bool,
    pub compact_output: bool,
    pub exit_status: bool,
    pub null_input: bool,
    pub slurp: bool,
    pub sort_keys: bool,
    pub indent: Seq<char>,
    pub vars: Seq<VariableView>,
}

impl JqOptions {
    pub open spec fn view(&self) -> OptionsView {
        OptionsView {
            filter: self.filter@,
            files: text::texts(self.files@),
            raw_output: self.raw_output,
            join_output: self.join_output,
            compact_output: self.compact_output,
            exit_status: self.exit_status,
            null_input: self.null_input,
            slurp: self.slurp,
            sort_keys: self.sort_keys,
            indent: self.indent@,
            vars: variables_view(self.vars@),
        }
    }
}

/// The options before any argument is read.
pub open spec fn no_options() -> OptionsView {
    OptionsView {
        filter: Seq::empty(),
        files: Seq::empty(),
        raw_output: false,
        join_output: false,
        compact_output: false,
        exit_status: false,
        null_input: false,
        slurp: false,
        sort_keys: false,
        indent: "  "@,
        vars: Seq::empty(),
    }
}

/// The options with one letter more, if there is such an option.
pub open spec fn with_letter(opts: OptionsView, letter: char) -> Option<OptionsView> {
    if letter == 'r' {
        Some(OptionsView { raw_output: true, ..opts })
    } else if letter == 'j' {
        Some(OptionsView { raw_output: true, join_output: true, ..opts })
    } else if letter == 'c' {
        Some(OptionsView { compact_output: true, ..opts })
    } else if letter == 'e' {
        Some(OptionsView { exit_status: true, ..opts })
    } else if letter == 'n' {
        Some(OptionsView { null_input: true, ..opts })
    } else if letter == 's' {
        Some(OptionsView { slurp: true, ..opts })
    } else if letter == 'S' {
        Some(OptionsView { sort_keys: true, ..opts })
    } else {
        None
    }
}

/// The options with the letters of an argument from index `k` on, or why they are refused.
pub open spec fn with_letters(opts: OptionsView, arg: Seq<char>, k: int) -> Result<
    OptionsView,
    Seq<char>,
>
    decreases arg.len() - k,
{
    if k < 0 || k >= arg.len() {
        Ok(opts)
    } else {
        match with_letter(opts, arg[k]) {
            Some(next) => with_letters(next, arg, k + 1),
            None => Err("jq: unsupported option '-"@ + seq![arg[k]] + "'\n"@),
        }
    }
}

/// The indentation that `--indent` asks for: at most eight spaces.
pub open spec fn indent_of(value: Seq<char>) -> Result<Seq<char>, Seq<char>> {
    match text::parsed_unsigned(value, 8) {
        Some(n) => Ok(text::repeated(' ', n)),
        None => Err("jq: invalid indent '"@ + value + "'\n"@),
    }
}

/// The name and the value behind `--arg` or `--argjson` at index `i`, or why they are refused.
pub open spec fn pair_at(args: Seq<Seq<char>>, i: int, option: Seq<char>) -> Result<
    (Seq<char>, Seq<char>),
    Seq<char>,
> {
    if i + 1 >= args.len() {
        Err("jq: option "@ + option + " requires a name\n"@)
    } else if i + 2 >= args.len() {
        Err("jq: option "@ + option + " requires a value\n"@)
    } else if !crate::shell::parse::assignment_name(args[i + 1]) {
        Err("jq: invalid variable name '"@ + args[i + 1] + "'\n"@)
    } else {
        Ok((args[i + 1], args[i + 2]))
    }
}

pub open spec fn with_variable(
    opts: OptionsView,
    name: Seq<char>,
    value: Seq<char>,
    json: bool,
) -> OptionsView {
    OptionsView {
        vars: opts.vars.push(VariableView { name: "$"@ + name, value, json }),
        ..opts
    }
}

/// The options once the filter is found at index `i`: what follows are files. Without
/// indentation the output is compact.
pub open spec fn with_filter(opts: OptionsView, args: Seq<Seq<char>>, i: int) -> OptionsView {
    OptionsView {
        filter: args[i],
        files: args.skip(i + 1),
        compact_output: opts.compact_output || opts.indent.len() == 0,
        ..opts
    }
}

/// What the arguments from index `i` on come to, on top of the options read before. `done` tells
/// that `--` has ended the options.
pub open spec fn options_from(
    args: Seq<Seq<char>>,
    i: int,
    opts: OptionsView,
    done: bool,
) -> Result<OptionsView, Seq<char>>
    decreases args.len() - i,
{
    if i < 0 || i >= args.len() {
        Err("jq: missing filter\n"@)
    } else {
        let arg = args[i];
        if done || !text::starts_with(arg, "-"@) || arg == "-"@ {
            Ok(with_filter(opts, args, i))
        } else if arg == "--"@ {
            options_from(args, i + 1, opts, true)
        } else if arg == "--tab"@ {
            options_from(args, i + 1, OptionsView { indent: "\t"@, ..opts }, done)
        } else if arg == "--indent"@ {
            if i + 1 >= args.len() {
                Err("jq: option --indent requires an argument\n"@)
            } else {
                match indent_of(args[i + 1]) {
                    Ok(indent) => options_from(args, i + 2, OptionsView { indent, ..opts }, done),
                    Err(message) => Err(message),
                }
            }
        } else if arg == "--arg"@ || arg == "--argjson"@ {
            match pair_at(args, i, arg) {
                Ok((name, value)) => options_from(
                    args,
                    i + 3,
                    with_variable(opts, name, value, arg == "--argjson"@),
                    done,
                ),
                Err(message) => Err(message),
            }
        } else if text::starts_with(arg, "--"@) {
            Err("jq: unsupported option '"@ + arg + "'\n"@)
        } else {
            match with_letters(opts, arg, 1) {
                Ok(next) => options_from(args, i + 1, next, done),
                Err(message) => Err(message),
            }
        }
    }
}

pub fn is_jq_var_name(name: &str) -> (r: bool)
    ensures
        r == crate::shell::parse::assignment_name(name@),
{
    crate::shell::parse::is_assignment_name(name)
}

pub fn parse_jq_indent(value: &str) -> (r: Result<String, String>)
    ensures
        match indent_of(value@) {
            Ok(indent) => r matches Ok(t) && t@ == indent,
            Err(message) => r matches Err(t) && t@ == message,
        },
{
    match text::parse_unsigned(value, 8) {
        Some(n) => {
            proof {
                assert(n <= 8);
            }
            Ok(text::repeat_char(' ', n as usize))
        },
        None => Err(text::concat3("jq: invalid indent '", value, "'\n")),
    }
}

fn parse_jq_arg_pair(args: &Vec<String>, i: usize, option: &str) -> (r: Result<(), String>)
    requires
        i < args@.len(),
    ensures
        match pair_at(text::texts(args@), i as int, option@) {
            Ok((name, value)) => r is Ok && i + 2 < args@.len() && args@[i + 1]@ == name && args@[i
                + 2]@ == value,
            Err(message) => r matches Err(t) && t@ == message,
        },
{
    let left: usize = args.len() - i;
    if left < 2 {
        return Err(text::concat3("jq: option ", option, " requires a name\n"));
    }
    if left < 3 {
        return Err(text::concat3("jq: option ", option, " requires a value\n"));
    }
    proof {
        assert(text::texts(args@)[i + 1] == args@[i + 1]@);
        assert(text::texts(args@)[i + 2] == args@[i + 2]@);
    }
    if !is_jq_var_name(args[i + 1].as_str()) {
        return Err(
            text::concat3("jq: invalid variable name '", args[i + 1].as_str(), "'\n"),
        );
    }
    Ok(())
}

fn set_letter(opts: &mut JqOptions, letter: char) -> (r: bool)
    ensures
        match with_letter(old(opts)@, letter) {
            Some(next) => r && final(opts)@ == next,
            None => !r && final(opts)@ == old(opts)@,
        },
{
    if letter == 'r' {
        opts.raw_output = true;
    } else if letter == 'j' {
        opts.raw_output = true;
        opts.join_output = true;
    } else if letter == 'c' {
        opts.compact_output = true;
    } else if letter == 'e' {
        opts.exit_status = true;
    } else if letter == 'n' {
        opts.null_input = true;
    } else if letter == 's' {
        opts.slurp = true;
    } else if letter == 'S' {
        opts.sort_keys = true;
    } else {
        return false;
    }
    true
}

fn set_letters(opts: &mut JqOptions, arg: &str) -> (r: Result<(), String>)
    ensures
        match with_letters(old(opts)@, arg@, 1) {
            Ok(next) => r is Ok && final(opts)@ == next,
            Err(message) => r matches Err(t) && t@ == message,
        },
{
    let chars = text::to_chars(arg);
    let mut k: usize = 1;
    while k < chars.len()
        invariant
            chars@ == arg@,
            k >= 1,
            with_letters(opts@, arg@, k as int) == with_letters(old(opts)@, arg@, 1),
        decreases chars@.len() - k,
    {
        if !set_letter(opts, chars[k]) {
            let mut message = text::copy("jq: unsupported option '-");
            message.push(chars[k]);
            message.append("'\n");
            proof {
                assert(message@ =~= "jq: unsupported option '-"@ + seq![arg@[k as int]] + "'\n"@);
            }
            return Err(message);
        }
        k = k + 1;
    }
    Ok(())
}

/// The arguments from an index on.
pub fn rest_of(args: &Vec<String>, from: usize) -> (r: Vec<String>)
    requires
        from <= args@.len(),
    ensures
        text::texts(r@) == text::texts(args@).skip(from as int),
{
    let mut r: Vec<String> = Vec::new();
    let ghost all = text::texts(args@);
    let mut i: usize = from;
    proof {
        assert(text::texts(r@) =~= all.subrange(from as int, from as int));
    }
    while i < args.len()
        invariant
            from <= i <= args@.len(),
            all == text::texts(args@),
            text::texts(r@) == all.subrange(from as int, i as int),
        decreases args@.len() - i,
    {
        let ghost before = r@;
        let copied = args[i].clone();
        r.push(copied);
        proof {
            assert(all[i as int] == copied@);
            assert(text::texts(r@) =~= text::texts(before).push(copied@));
            assert(all.subrange(from as int, i + 1) =~= all.subrange(from as int, i as int).push(
                all[i as int],
            ));
        }
        i = i + 1;
    }
    proof {
        assert(all.subrange(from as int, i as int) =~= all.skip(from as int));
    }
    r
}

fn push_variable(opts: &mut JqOptions, name: &str, value: &str, json: bool)
    ensures
        final(opts)@ == with_variable(old(opts)@, name@, value@, json),
{
    let variable = JqVariable { name: text::concat2("$", name), value: text::copy(value), json };
    let ghost before = opts@;
    let ghost vars = opts.vars@;
    opts.vars.push(variable);
    proof {
        assert(variables_view(opts.vars@) =~= variables_view(vars).push(variable@));
    }
}

/// Reads the arguments of `jq`.
pub fn parse_jq_args(args: &Vec<String>) -> (r: Result<JqOptions, String>)
    ensures
        match options_from(text::texts(args@), 0, no_options(), false) {
            Ok(options) => r matches Ok(o) && o@ == options,
            Err(message) => r matches Err(t) && t@ == message,
        },
{
    let ghost all = text::texts(args@);
    let mut opts = JqOptions {
        filter: String::new(),
        files: Vec::new(),
        raw_output: false,
        join_output: false,
        compact_output: false,
        exit_status: false,
        null_input: false,
        slurp: false,
        sort_keys: false,
        indent: text::copy("  "),
        vars: Vec::new(),
    };
    let mut done = false;
    let mut i: usize = 0;
    proof {
        assert(opts@ =~= no_options());
    }
    while i < args.len()
        invariant
            i <= args@.len(),
            all == text::texts(args@),
            options_from(all, i as int, opts@, done) == options_from(all, 0, no_options(), false),
        decreases args@.len() - i,
    {
        let arg = args[i].as_str();
        proof {
            assert(all[i as int] == arg@);
        }
        if done || !text::has_prefix(arg, "-") || text::str_eq(arg, "-") {
            let ghost before = opts@;
            opts.filter = text::copy(arg);
            opts.files = rest_of(args, i + 1);
            if opts.indent.as_str().is_empty() {
                opts.compact_output = true;
            }
            proof {
                assert(opts@ =~= with_filter(before, all, i as int));
            }
            return Ok(opts);
        }
        if text::str_eq(arg, "--") {
            done = true;
            i = i + 1;
        } else if text::str_eq(arg, "--tab") {
            opts.indent = text::copy("\t");
            i = i + 1;
        } else if text::str_eq(arg, "--indent") {
            if args.len() - i < 2 {
                return Err(text::copy("jq: option --indent requires an argument\n"));
            }
            proof {
                assert(all[i + 1] == args@[i + 1]@);
            }
            match parse_jq_indent(args[i + 1].as_str()) {
                Ok(indent) => {
                    opts.indent = indent;
                },
                Err(message) => {
                    return Err(message);
                },
            }
            i = i + 2;
        } else if text::str_eq(arg, "--arg") || text::str_eq(arg, "--argjson") {
            let json = text::str_eq(arg, "--argjson");
            match parse_jq_arg_pair(args, i, arg) {
                Ok(()) => {},
                Err(message) => {
                    return Err(message);
                },
            }
            push_variable(&mut opts, args[i + 1].as_str(), args[i + 2].as_str(), json);
            i = i + 3;
        } else if text::has_prefix(arg, "--") {
            return Err(text::concat3("jq: unsupported option '", arg, "'\n"));
        } else {
            match set_letters(&mut opts, arg) {
                Ok(()) => {},
                Err(message) => {
                    return Err(message);
                },
            }
            i = i + 1;
        }
    }
    Err(text::copy("jq: missing filter\n"))
}

// ---- arguments as they are asked for ----

/// What can be asked of `jq`.
pub enum Request {
    /// Letters behind one dash.
    Letters(Seq<char>),
    Tab,
    Indent(nat),
    /// A variable that holds a text, or the value that a text writes.
    Variable { name: Seq<char>, value: Seq<char>, json: bool },
}

pub open spec fn request_args(request: Request) -> Seq<Seq<char>> {
    match request {
        Request::Letters(letters) => seq![seq!['-'] + letters],
        Request::Tab => seq!["--tab"@],
        Request::Indent(n) => seq!["--indent"@, text::decimal_text(n)],
        Request::Variable { name, value, json: false } => seq!["--arg"@, name, value],
        Request::Variable { name, value, json: true } => seq!["--argjson"@, name, value],
    }
}

/// The options with a request more: each letter switches on what it stands for, the last
/// indentation counts, and variables come in their order.
pub open spec fn with_request(opts: OptionsView, request: Request) -> OptionsView {
    match request {
        Request::Letters(letters) => OptionsView {
            raw_output: opts.raw_output || letters.contains('r') || letters.contains('j'),
            join_output: opts.join_output || letters.contains('j'),
            compact_output: opts.compact_output || letters.contains('c'),
            exit_status: opts.exit_status || letters.contains('e'),
            null_input: opts.null_input || letters.contains('n'),
            slurp: opts.slurp || letters.contains('s'),
            sort_keys: opts.sort_keys || letters.contains('S'),
            ..opts
        },
        Request::Tab => OptionsView { indent: seq!['\t'], ..opts },
        Request::Indent(n) => OptionsView { indent: Seq::new(n, |i: int| ' '), ..opts },
        Request::Variable { name, value, json } => OptionsView {
            vars: opts.vars.push(VariableView { name: seq!['$'] + name, value, json }),
            ..opts
        },
    }
}

pub open spec fn known_letter(c: char) -> bool {
    c == 'r' || c == 'j' || c == 'c' || c == 'e' || c == 'n' || c == 's' || c == 'S'
}

pub open spec fn request_fits(request: Request) -> bool {
    match request {
        Request::Letters(letters) => letters.len() > 0 && forall|i: int|
            0 <= i < letters.len() ==> known_letter(#[trigger] letters[i]),
        Request::Tab => true,
        Request::Indent(n) => n <= 8,
        Request::Variable { name, .. } => crate::shell::written::variable_name(name),
    }
}

pub open spec fn requests_args(requests: Seq<Request>) -> Seq<Seq<char>>
    decreases requests.len(),
{
    if requests.len() == 0 {
        seq![]
    } else {
        request_args(requests[0]) + requests_args(requests.skip(1))
    }
}

pub open spec fn with_requests(opts: OptionsView, requests: Seq<Request>) -> OptionsView
    decreases requests.len(),
{
    if requests.len() == 0 {
        opts
    } else {
        with_requests(with_request(opts, requests[0]), requests.skip(1))
    }
}

proof fn lemma_contains_skip(s: Seq<char>, k: int, c: char)
    requires
        0 <= k < s.len(),
    ensures
        s.skip(k).contains(c) <==> s[k] == c || s.skip(k + 1).contains(c),
{
    let here = s.skip(k);
    let rest = s.skip(k + 1);
    if here.contains(c) {
        let i = here.index_of(c);
        if i > 0 {
            assert(rest[i - 1] == c);
        }
    }
    if s[k] == c {
        assert(here[0] == c);
    }
    if rest.contains(c) {
        let i = rest.index_of(c);
        assert(here[i + 1] == c);
    }
}

proof fn lemma_letters(opts: OptionsView, arg: Seq<char>, k: int)
    requires
        0 <= k <= arg.len(),
        forall|i: int| k <= i < arg.len() ==> known_letter(#[trigger] arg[i]),
    ensures
        with_letters(opts, arg, k) == Ok::<OptionsView, Seq<char>>(
            with_request(opts, Request::Letters(arg.skip(k))),
        ),
    decreases arg.len() - k,
{
    if k == arg.len() {
        assert(arg.skip(k).len() == 0);
    } else {
        assert(known_letter(arg[k]));
        lemma_contains_skip(arg, k, 'r');
        lemma_contains_skip(arg, k, 'j');
        lemma_contains_skip(arg, k, 'c');
        lemma_contains_skip(arg, k, 'e');
        lemma_contains_skip(arg, k, 'n');
        lemma_contains_skip(arg, k, 's');
        lemma_contains_skip(arg, k, 'S');
        lemma_letters(with_letter(opts, arg[k])->Some_0, arg, k + 1);
    }
}

/// The texts of the long options.
proof fn lemma_option_texts()
    ensures
        "-"@ == seq!['-'],
        "--"@ == seq!['-', '-'],
        "--tab"@ == seq!['-', '-', 't', 'a', 'b'],
        "--indent"@ == seq!['-', '-', 'i', 'n', 'd', 'e', 'n', 't'],
        "--arg"@ == seq!['-', '-', 'a', 'r', 'g'],
        "--argjson"@ == seq!['-', '-', 'a', 'r', 'g', 'j', 's', 'o', 'n'],
        "\t"@ == seq!['\t'],
        "$"@ == seq!['$'],
{
    reveal_strlit("-");
    reveal_strlit("--");
    reveal_strlit("--tab");
    reveal_strlit("--indent");
    reveal_strlit("--arg");
    reveal_strlit("--argjson");
    reveal_strlit("\t");
    reveal_strlit("$");
    assert("-"@ =~= seq!['-']);
    assert("--"@ =~= seq!['-', '-']);
    assert("--tab"@ =~= seq!['-', '-', 't', 'a', 'b']);
    assert("--indent"@ =~= seq!['-', '-', 'i', 'n', 'd', 'e', 'n', 't']);
    assert("--arg"@ =~= seq!['-', '-', 'a', 'r', 'g']);
    assert("--argjson"@ =~= seq!['-', '-', 'a', 'r', 'g', 'j', 's', 'o', 'n']);
    assert("\t"@ =~= seq!['\t']);
    assert("$"@ =~= seq!['$']);
}

proof fn lemma_request(args: Seq<Seq<char>>, i: int, request: Request, opts: OptionsView)
    requires
        request_fits(request),
        0 <= i,
        i + request_args(request).len() <= args.len(),
        forall|k: int|
            0 <= k < request_args(request).len() ==> #[trigger] args[i + k] == request_args(
                request,
            )[k],
    ensures
        options_from(args, i, opts, false) == options_from(
            args,
            i + request_args(request).len(),
            with_request(opts, request),
            false,
        ),
{
    lemma_option_texts();
    let own = request_args(request);
    assert(args[i + 0] == own[0]);
    assert(args[i] == own[0]);
    assert(own[0][0] == '-');
    assert(own[0].take(1) =~= seq!['-']);
    assert(text::starts_with(own[0], "-"@));
    assert(own[0].len() > 1);
    match request {
        Request::Letters(letters) => {
            let arg = own[0];
            assert(known_letter(letters[0]));
            assert(arg[1] == letters[0]);
            assert(arg[1] != '-');
            assert("--"@[1] == '-' && "--tab"@[1] == '-' && "--indent"@[1] == '-' && "--arg"@[1]
                == '-' && "--argjson"@[1] == '-');
            assert(!text::starts_with(arg, "--"@)) by {
                if text::starts_with(arg, "--"@) {
                    assert(arg.take(2)[1] == arg[1]);
                }
            }
            assert forall|k: int| 1 <= k < arg.len() implies known_letter(#[trigger] arg[k]) by {
                assert(arg[k] == letters[k - 1]);
            }
            lemma_letters(opts, arg, 1);
            assert(arg.skip(1) =~= letters);
        },
        Request::Tab => {
            assert("--tab"@.len() == 5);
        },
        Request::Indent(n) => {
            assert(args[i + 1] == own[1]);
            text::law_written_numbers_are_read_back(n, 8);
            assert(text::repeated(' ', n) =~= Seq::new(n, |i: int| ' '));
            assert("--indent"@.len() == 8);
        },
        Request::Variable { name, value, json } => {
            assert(args[i + 1] == own[1]);
            assert(args[i + 2] == own[2]);
            assert("--arg"@.len() == 5 && "--argjson"@.len() == 9);
            assert("--arg"@[2] != "--tab"@[2]);
            assert("--argjson"@[2] != "--indent"@[2]);
            assert forall|k: int| 0 <= k < name.len() implies crate::shell::lex::name_char(
                #[trigger] name[k],
            ) by {}
            assert(crate::shell::lex::name_start_char(name[0]));
            assert(crate::shell::parse::assignment_name(name));
        },
    }
}

proof fn lemma_requests(args: Seq<Seq<char>>, i: int, requests: Seq<Request>, opts: OptionsView)
    requires
        forall|k: int| 0 <= k < requests.len() ==> request_fits(#[trigger] requests[k]),
        0 <= i,
        i + requests_args(requests).len() <= args.len(),
        args.subrange(i, i + requests_args(requests).len()) == requests_args(requests),
    ensures
        options_from(args, i, opts, false) == options_from(
            args,
            i + requests_args(requests).len(),
            with_requests(opts, requests),
            false,
        ),
    decreases requests.len(),
{
    if requests.len() > 0 {
        let own = request_args(requests[0]);
        let rest = requests.skip(1);
        let all = requests_args(requests);
        let more = requests_args(rest);
        assert(all == own + more);
        assert forall|k: int| 0 <= k < own.len() implies #[trigger] args[i + k] == own[k] by {
            assert(args.subrange(i, i + all.len())[k] == all[k]);
        }
        assert(request_fits(requests[0]));
        lemma_request(args, i, requests[0], opts);
        let j = i + own.len();
        assert(args.subrange(j, j + more.len()) =~= more) by {
            assert forall|k: int| 0 <= k < more.len() implies args.subrange(j, j + more.len())[k]
                == #[trigger] more[k] by {
                assert(args.subrange(i, i + all.len())[own.len() + k] == all[own.len() + k]);
            }
        }
        assert forall|k: int| 0 <= k < rest.len() implies request_fits(#[trigger] rest[k]) by {
            assert(rest[k] == requests[k + 1]);
        }
        lemma_requests(args, j, rest, with_request(opts, requests[0]));
    }
}

/// `jq` is asked by its arguments: options in any order, then the filter, then the files. The first
/// argument that is no option is the filter, and behind `--` any is; what follows it are files, even
/// where it looks like an option. Without indentation the output is compact.
pub proof fn law_arguments_ask_for_options(
    requests: Seq<Request>,
    filter: Seq<char>,
    files: Seq<Seq<char>>,
)
    requires
        forall|k: int| 0 <= k < requests.len() ==> request_fits(#[trigger] requests[k]),
    ensures
        ({
            let opts = with_requests(no_options(), requests);
            let found = OptionsView {
                filter,
                files,
                compact_output: opts.compact_output || opts.indent.len() == 0,
                ..opts
            };
            &&& filter.len() < 2 || filter[0] != '-' ==> options_from(
                requests_args(requests) + seq![filter] + files,
                0,
                no_options(),
                false,
            ) == Ok::<OptionsView, Seq<char>>(found)
            &&& options_from(
                requests_args(requests) + seq![seq!['-', '-']] + seq![filter] + files,
                0,
                no_options(),
                false,
            ) == Ok::<OptionsView, Seq<char>>(found)
            &&& options_from(requests_args(requests), 0, no_options(), false) is Err
        }),
{
    lemma_option_texts();
    let own = requests_args(requests);
    let n = own.len() as int;
    let opts = with_requests(no_options(), requests);
    assert(own.subrange(0, n) =~= own);
    lemma_requests(own, 0, requests, no_options());
    let args = own + seq![filter] + files;
    assert(args.subrange(0, n) =~= own);
    lemma_requests(args, 0, requests, no_options());
    assert(args[n] == filter);
    assert(args.skip(n + 1) =~= files);
    if filter.len() < 2 || filter[0] != '-' {
        if text::starts_with(filter, "-"@) {
            assert(filter.take(1)[0] == filter[0]);
            assert(filter =~= seq!['-']);
        }
    }
    let marked = own + seq![seq!['-', '-']] + seq![filter] + files;
    assert(marked.subrange(0, n) =~= own);
    lemma_requests(marked, 0, requests, no_options());
    assert(marked[n] == seq!['-', '-']);
    assert(marked[n + 1] == filter);
    assert(marked.skip(n + 2) =~= files);
    assert(seq!['-', '-'].take(1) =~= seq!['-']);
    assert(text::starts_with(marked[n], "-"@));
    let found = OptionsView {
        filter,
        files,
        compact_output: opts.compact_output || opts.indent.len() == 0,
        ..opts
    };
    assert(with_filter(opts, marked, n + 1) == found);
    assert(options_from(marked, n + 1, opts, true) == Ok::<OptionsView, Seq<char>>(found));
    assert(options_from(marked, n, opts, false) == options_from(marked, n + 1, opts, true));
    assert(with_filter(opts, args, n) == found);
    assert(options_from(own, n, opts, false) is Err);
}

} // verus!
