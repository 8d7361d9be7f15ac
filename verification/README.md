# tinysandbox

The decision-making core of an in-process shell sandbox, written in Verus: a shell and its
commands run inside the host process, over a file system that the embedder provides. The library
decides; it does no input or output. What it decides is stated in the contracts of its functions
and proved.

## Layout

- `src/shell`: from text to programs (`lex`, `parse`), and what holds of both (`laws`, and
  `newlines` on line continuation, which rests on `moved`).
- `src/expand`, `src/admission`, `src/fit`, `src/budget`: expanding words, what that may cost, and
  that it costs no more.
- `src/exec`, `src/session`, `src/redirect`, `src/pipeline`, `src/machine`: which pipeline runs
  next, what a command sees, where its outputs go, and what it comes to.
- `src/fs`, `src/path`, `src/pools`, `src/walk`, `src/vfs`: paths, `/bin`, open files, and walks
  through directories.
- `src/builtins`: the native commands, from their arguments to what they print.
- `src/jq`: the bounds on filters and inputs, and what outputs and failures of filters come to.
- `src/js`: the calls of JavaScript guests to their host, and the memory they may touch.
- `src/output`, `src/control`, `src/globals`, `src/host`, `src/builder`, `src/command`,
  `src/prompts`: output caps, deadlines, host functions, setup and limits.
- `src/text`, `src/bytes`, `src/order`, `src/sorting`, `src/textmap`, `src/env`, `src/pattern`:
  the ground that the rest stands on.
- `tests`: tests of the library.
- `app`: the runtime around the library, with its streams, timers, threads and engines.

Proof functions whose names start with `law_` state what holds of several functions together, or of
all inputs. Functions marked `external_body`, `assume_specification` items and functions without a
body state what is taken from outside crates and from the standard library; each says in its
comment what it claims.

## What stays outside

A filter of `jq` need not come to an end, so filters are evaluated in `app`, where their thread can
be left behind; the library checks and compiles them, reads their inputs and prints their outputs. What an error
that a filter raises holds cannot be looked into, so `app` shows it too.
The keys of a numeric sort are floating-point numbers: `app` turns them into ranks, which the
library sorts by.
