# just-bash

A small, deterministic shell runtime over an in-memory filesystem, written in
Verus: every function of the library carries a contract that Verus proves,
except one trusted wrapper (`text::push_char`, around std's `String::push`,
which vstd does not specify).

## Layout

- `src/text.rs` — character-sequence helpers (conversion, search, splitting,
  joining, decimal numerals, `str::lines`-style line splitting).
- `src/strmap.rs` — `StringMap`, a map from strings to values kept in key
  order; its type invariant is that keys strictly increase.
- `src/fs.rs` — path normalization and `InMemoryFs`, modelled as a sorted
  sequence of paths with their files or directories.
- `src/lexer.rs`, `src/parser.rs` — the tokenizer and recursive-descent parser
  (pipelines, `&&`/`||`, redirections, quoting, command substitution, `if`,
  `while`, `for`), each specified by a function from input to result.
- `src/expand.rs` — variable expansion, assignments and `printf` formatting.
- `src/semantics.rs` — what each built-in command and each statement does, and
  what a whole `exec` does, as spec functions with a budget of commands.
- `src/shell.rs` — `Bash`: the executable interpreter, proved to follow
  `semantics.rs` exactly.
- `app/main.rs` — a command-line runner: the script comes from the arguments or
  standard input.

Laws of the library (read after write, sorted listings, idempotent
normalization, `mkdir -p` succeeding when no file is on the way, failing at the
first file otherwise without changing anything, touching only the path and its
ancestors and being idempotent, a non-recursive remove taking only a file or an
empty directory, seeded files reading back, the filesystem staying a tree under
every operation and every script, isolation of `exec` calls, subshells for
pipelines and command substitutions, the budget never growing, every built-in
being recognized, unset names expanding to nothing, a larger nesting limit
never changing a parse, well-formed parse results) are public proof functions
named `law_*`.
