//! The command line of `js`.

use vstd::prelude::*;
use vstd::utf8::{decode_utf8, valid_utf8};

use crate::js::node;
use crate::text;
use crate::vfs::VfsError;

verus! {

/// Reads bytes as text with `String::from_utf8`, which succeeds exactly where they are valid
/// UTF-8.
#[verifier::external_body]
fn decode_strict(data: Vec<u8>) -> (r: Option<String>)
    ensures
        match r {
            Some(text) => valid_utf8(data@) && text@ == decode_utf8(data@),
            None => !valid_utf8(data@),
        },
{
    String::from_utf8(data).ok()
}

/// A script to run.
#[derive(Debug, PartialEq, Eq)]
pub struct Invocation {
    pub code: String,
    pub script_path: String,
    pub argv: Vec<String>,
}

/// What `js` was asked to run.
#[derive(Debug, PartialEq, Eq)]
pub enum InvocationPlan {
    /// The code itself is given.
    Eval(Invocation),
    /// The code is in a file.
    Script { script: String, argv: Vec<String> },
}

/// The arguments that a script sees.
pub open spec fn script_argv(first: Seq<char>, rest: Seq<Seq<char>>) -> Seq<Seq<char>> {
    seq!["js"@, first] + rest
}

pub open spec fn too_long(limit: usize) -> Seq<char> {
    "js: script source exceeded limit of "@ + text::decimal_text(limit as nat) + " bytes\n"@
}

fn argv_of(first: &str, args: &Vec<String>, from: usize) -> (r: Vec<String>)
    requires
        from <= args@.len(),
    ensures
        text::texts(r@) == script_argv(first@, text::texts(args@).skip(from as int)),
{
    let ghost all = text::texts(args@);
    let mut r: Vec<String> = Vec::new();
    r.push(text::copy("js"));
    r.push(text::copy(first));
    let mut i: usize = from;
    proof {
        assert(text::texts(r@) =~= seq!["js"@, first@] + all.subrange(from as int, from as int));
    }
    while i < args.len()
        invariant
            from <= i <= args@.len(),
            all == text::texts(args@),
            text::texts(r@) == seq!["js"@, first@] + all.subrange(from as int, i as int),
        decreases args@.len() - i,
    {
        let ghost before = r@;
        let copied = args[i].clone();
        r.push(copied);
        proof {
            assert(all[i as int] == copied@);
            assert(text::texts(r@) =~= text::texts(before).push(copied@));
            assert(seq!["js"@, first@] + all.subrange(from as int, i + 1) =~= (seq![
                "js"@,
                first@,
            ] + all.subrange(from as int, i as int)).push(all[i as int]));
        }
        i = i + 1;
    }
    proof {
        assert(all.subrange(from as int, i as int) =~= all.skip(from as int));
    }
    r
}

/// Reads the arguments of `js`.
pub fn plan_invocation(args: &Vec<String>, source_bytes: usize) -> (r: Result<
    InvocationPlan,
    String,
>)
    ensures
        ({
            let all = text::texts(args@);
            if all.len() == 0 {
                r matches Err(m) && m@ == "js: usage: js [-e code] script.js [args...]\n"@
            } else if all[0] == "-e"@ {
                if all.len() < 2 {
                    r matches Err(m) && m@ == "js: option requires an argument -- e\n"@
                } else if text::byte_len(all[1]) > source_bytes {
                    r matches Err(m) && m@ == too_long(source_bytes)
                } else {
                    r matches Ok(InvocationPlan::Eval(run)) && run.code@ == all[1]
                        && run.script_path@ == "[eval]"@ && text::texts(run.argv@) == script_argv(
                        "-e"@,
                        all.skip(2),
                    )
                }
            } else if text::starts_with(all[0], "-"@) {
                r matches Err(m) && m@ == "js: unsupported option "@ + all[0] + "\n"@
            } else {
                r matches Ok(InvocationPlan::Script { script, argv }) && script@ == all[0]
                    && text::texts(argv@) == script_argv(all[0], all.skip(1))
            }
        }),
{
    if args.len() == 0 {
        return Err(text::copy("js: usage: js [-e code] script.js [args...]\n"));
    }
    let first = args[0].as_str();
    proof {
        assert(text::texts(args@)[0] == first@);
    }
    if text::str_eq(first, "-e") {
        if args.len() < 2 {
            return Err(text::copy("js: option requires an argument -- e\n"));
        }
        proof {
            assert(text::texts(args@)[1] == args@[1]@);
        }
        if text::str_bytes(args[1].as_str()) > source_bytes {
            let number = text::decimal(source_bytes as u64);
            return Err(
                text::concat3("js: script source exceeded limit of ", number.as_str(), " bytes\n"),
            );
        }
        let run = Invocation {
            code: args[1].clone(),
            script_path: text::copy("[eval]"),
            argv: argv_of("-e", args, 2),
        };
        return Ok(InvocationPlan::Eval(run));
    }
    if text::has_prefix(first, "-") {
        return Err(text::concat3("js: unsupported option ", first, "\n"));
    }
    Ok(InvocationPlan::Script { script: args[0].clone(), argv: argv_of(first, args, 1) })
}

/// Makes a script of a file that was read.
pub fn load_script(
    script: &str,
    argv: Vec<String>,
    resolved: String,
    data: Result<Vec<u8>, VfsError>,
) -> (r: Result<Invocation, String>)
    ensures
        match data {
            Err(err) => r matches Err(m) && m@ == "js: "@ + script@ + ": "@ + node::node_text(
                err.errno,
            ) + "\n"@,
            Ok(bytes) => if valid_utf8(bytes@) {
                r matches Ok(run) && run.code@ == decode_utf8(bytes@) && run.script_path@
                    == resolved@ && run.argv == argv
            } else {
                r matches Err(m) && m@ == "js: "@ + script@ + ": script is not valid UTF-8\n"@
            },
        },
{
    match data {
        Err(err) => Err(
            text::concat5("js: ", script, ": ", node::node_errno_message(err.errno()), "\n"),
        ),
        Ok(bytes) => match decode_strict(bytes) {
            Some(code) => Ok(Invocation { code, script_path: resolved, argv }),
            None => Err(text::concat3("js: ", script, ": script is not valid UTF-8\n")),
        },
    }
}

} // verus!
