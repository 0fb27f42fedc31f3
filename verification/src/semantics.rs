use vstd::prelude::*;

use crate::expand::{
    expand_text_spec, format_printf_spec, is_assignment_spec, split_key, split_value, EnvModel,
};
use crate::fs::{
    is_dir_in, lemma_step_after, path_stack, fs_tree, law_operations_keep_tree, append_spec, create_all_spec, create_dir_spec, is_file_in, list_spec, normalize, parent_of,
    read_spec, remove_spec, write_spec, FsModel, FsNode, drop_under, under, lemma_lookup_drop_under,
    law_normalize_idempotent, law_parent_of_normalized,
};
use crate::lexer::find_from;
use crate::parser::{
    word_text, script_spec, CommandV, ForV, IfV, KindV, ParseLimits, PartV, PipelineConnector, RedirectMode,
    RedirectV, StmtV, WhileV, WordPartKind,
};
use crate::shell::BashExecutionLimits;
use crate::strmap::{law_lookup_after_insert, lookup, sorted_insert};
use crate::text::{
    concat, contains_seq, count_char, decimal, join, lines_of, parse_i32_spec, word_count,
};

verus! {

// ─── Shell state ────────────────────────────────────────────────────────────

/// What a shell holds between commands: its filesystem, environment and directory.
pub struct Sh {
    pub fs: FsModel,
    pub env: EnvModel,
    pub cwd: Seq<char>,
}

/// What one command prints and its exit status.
pub struct CmdOut {
    pub stdout: Seq<char>,
    pub stderr: Seq<char>,
    pub code: i32,
}

/// How execution goes on after a statement.
#[derive(Debug, Clone, Copy, PartialEq, Eq, Structural)]
pub enum Flow {
    /// On to the next statement.
    Next,
    /// `exit` ran: nothing more runs.
    Exit,
    /// The budget of execution steps ran out: nothing more runs.
    OutOfBudget,
}

pub open spec fn err_line(prefix: Seq<char>, msg: Seq<char>) -> Seq<char> {
    prefix + msg + seq!['\n']
}

/// `path` made absolute against the working directory `cwd`.
pub open spec fn resolve_spec(cwd: Seq<char>, p: Seq<char>) -> Seq<char> {
    if p.len() > 0 && p[0] == '/' {
        normalize(p)
    } else if p == seq!['.'] {
        cwd
    } else if p == seq!['.', '.'] {
        parent_of(cwd)
    } else {
        normalize(cwd + seq!['/'] + p)
    }
}

// ─── Built-in commands ──────────────────────────────────────────────────────

pub open spec fn echo_spec(args: Seq<Seq<char>>) -> Seq<char> {
    if args.len() > 0 && args[0] == "-n"@ {
        join(args.drop_first(), seq![' '])
    } else {
        join(args, seq![' ']) + seq!['\n']
    }
}

/// Reads the files `files` (resolved against `cwd`) in turn: their contents
/// joined, the error lines for those that cannot be read, and the status.
pub open spec fn read_files(fs: FsModel, cwd: Seq<char>, files: Seq<Seq<char>>, prefix: Seq<char>) -> (
    Seq<char>,
    Seq<char>,
    i32,
)
    decreases files.len(),
{
    if files.len() == 0 {
        (Seq::empty(), Seq::empty(), 0)
    } else {
        let (o, e, c) = read_files(fs, cwd, files.drop_last(), prefix);
        match read_spec(fs, resolve_spec(cwd, files.last())) {
            Ok(t) => (o + t, e, c),
            Err(m) => (o, e + err_line(prefix, m), 1),
        }
    }
}

/// The contents of each readable file, one entry per file.
pub open spec fn read_each(fs: FsModel, cwd: Seq<char>, files: Seq<Seq<char>>) -> Seq<Seq<char>>
    decreases files.len(),
{
    if files.len() == 0 {
        Seq::empty()
    } else {
        let r = read_each(fs, cwd, files.drop_last());
        match read_spec(fs, resolve_spec(cwd, files.last())) {
            Ok(t) => r.push(t),
            Err(_) => r,
        }
    }
}

/// The lines of `lines` that contain `pat`, each ended by a newline.
pub open spec fn matching_lines(lines: Seq<Seq<char>>, pat: Seq<char>) -> Seq<char>
    decreases lines.len(),
{
    if lines.len() == 0 {
        Seq::empty()
    } else {
        matching_lines(lines.drop_last(), pat) + if contains_seq(lines.last(), pat) {
            lines.last() + seq!['\n']
        } else {
            Seq::empty()
        }
    }
}

pub open spec fn grep_all(hays: Seq<Seq<char>>, pat: Seq<char>) -> Seq<char>
    decreases hays.len(),
{
    if hays.len() == 0 {
        Seq::empty()
    } else {
        grep_all(hays.drop_last(), pat) + matching_lines(lines_of(hays.last()), pat)
    }
}

pub open spec fn grep_spec(fs: FsModel, cwd: Seq<char>, args: Seq<Seq<char>>, stdin: Seq<char>) -> CmdOut {
    if args.len() == 0 {
        CmdOut { stdout: Seq::empty(), stderr: "grep: usage: grep PATTERN [FILE...]\n"@, code: 2 }
    } else {
        let pat = args[0];
        let files = args.drop_first();
        let (hays, err, code) = if args.len() == 1 {
            (seq![stdin], Seq::<char>::empty(), 0i32)
        } else {
            let (_, e, c) = read_files(fs, cwd, files, "grep: "@);
            (read_each(fs, cwd, files), e, c)
        };
        if code != 0 {
            CmdOut { stdout: Seq::empty(), stderr: err, code: code }
        } else {
            let out = grep_all(hays, pat);
            CmdOut { stdout: out, stderr: err, code: if out.len() == 0 { 1 } else { 0 } }
        }
    }
}

pub open spec fn wc_line(input: Seq<char>) -> Seq<char> {
    decimal(count_char(input, '\n')) + seq![' '] + decimal(word_count(input)) + seq![' '] + decimal(
        (vstd::utf8::encode_utf8(input).len() as usize) as nat,
    ) + seq!['\n']
}

pub open spec fn wc_spec(fs: FsModel, cwd: Seq<char>, args: Seq<Seq<char>>, stdin: Seq<char>) -> CmdOut {
    let (input, err, code) = if args.len() == 0 {
        (stdin, Seq::<char>::empty(), 0i32)
    } else {
        read_files(fs, cwd, args, "wc: "@)
    };
    CmdOut { stdout: if code == 0 { wc_line(input) } else { Seq::empty() }, stderr: err, code: code }
}

pub open spec fn ls_spec(fs: FsModel, cwd: Seq<char>, args: Seq<Seq<char>>) -> CmdOut {
    let target = if args.len() > 0 { args[0] } else { seq!['.'] };
    let path = resolve_spec(cwd, target);
    if is_file_in(fs, path) {
        CmdOut { stdout: target + seq!['\n'], stderr: Seq::empty(), code: 0 }
    } else {
        match list_spec(fs, path) {
            Ok(names) => CmdOut {
                stdout: join(names, seq!['\n']) + if names.len() > 0 {
                    seq!['\n']
                } else {
                    Seq::empty()
                },
                stderr: Seq::empty(),
                code: 0,
            },
            Err(m) => CmdOut { stdout: Seq::empty(), stderr: err_line("ls: "@, m), code: 1 },
        }
    }
}

/// `mkdir` over `args[i..]`: `-p` turns on creating parents for what follows.
pub open spec fn mkdir_from(
    fs: FsModel,
    cwd: Seq<char>,
    args: Seq<Seq<char>>,
    i: int,
    parents: bool,
    saw: bool,
    err: Seq<char>,
    code: i32,
) -> (FsModel, Seq<char>, i32)
    decreases args.len() - i,
{
    if i < 0 || i >= args.len() {
        if !saw {
            (fs, err + "mkdir: usage: mkdir [-p] DIRECTORY...\n"@, 1)
        } else {
            (fs, err, code)
        }
    } else if args[i] == "-p"@ {
        mkdir_from(fs, cwd, args, i + 1, true, saw, err, code)
    } else {
        let path = resolve_spec(cwd, args[i]);
        if parents {
            let (m, e) = create_all_spec(fs, path);
            match e {
                None => mkdir_from(m, cwd, args, i + 1, parents, true, err, code),
                Some(msg) => mkdir_from(m, cwd, args, i + 1, parents, true, err + err_line("mkdir: "@, msg), 1),
            }
        } else {
            match create_dir_spec(fs, path) {
                Ok(m) => mkdir_from(m, cwd, args, i + 1, parents, true, err, code),
                Err(msg) => mkdir_from(fs, cwd, args, i + 1, parents, true, err + err_line("mkdir: "@, msg), 1),
            }
        }
    }
}

pub open spec fn touch_all(fs: FsModel, cwd: Seq<char>, args: Seq<Seq<char>>) -> (FsModel, Seq<char>, i32)
    decreases args.len(),
{
    if args.len() == 0 {
        (fs, Seq::empty(), 0)
    } else {
        let (m, e, c) = touch_all(fs, cwd, args.drop_last());
        let path = resolve_spec(cwd, args.last());
        let existing = match read_spec(m, path) {
            Ok(t) => t,
            Err(_) => Seq::empty(),
        };
        match write_spec(m, path, existing) {
            Ok(m2) => (m2, e, c),
            Err(msg) => (m, e + err_line("touch: "@, msg), 1),
        }
    }
}

pub open spec fn cp_spec(fs: FsModel, cwd: Seq<char>, args: Seq<Seq<char>>) -> (FsModel, CmdOut) {
    if args.len() != 2 {
        (fs, CmdOut { stdout: Seq::empty(), stderr: "cp: usage: cp SOURCE DEST\n"@, code: 1 })
    } else {
        let source = resolve_spec(cwd, args[0]);
        let dest = resolve_spec(cwd, args[1]);
        match read_spec(fs, source) {
            Ok(c) => match write_spec(fs, dest, c) {
                Ok(m) => (m, CmdOut { stdout: Seq::empty(), stderr: Seq::empty(), code: 0 }),
                Err(msg) => (fs, CmdOut { stdout: Seq::empty(), stderr: err_line("cp: "@, msg), code: 1 }),
            },
            Err(msg) => (fs, CmdOut { stdout: Seq::empty(), stderr: err_line("cp: "@, msg), code: 1 }),
        }
    }
}

pub open spec fn is_rm_flag(c: char) -> bool {
    c == 'r' || c == 'R' || c == 'f'
}

/// An `rm` option: starts with `-` and is not `-` itself.
pub open spec fn is_option(a: Seq<char>) -> bool {
    a.len() > 0 && a[0] == '-' && a != seq!['-']
}

pub open spec fn option_ok(a: Seq<char>) -> bool {
    forall|j: int| 1 <= j < a.len() ==> is_rm_flag(#[trigger] a[j])
}

pub open spec fn option_recursive(a: Seq<char>) -> bool {
    exists|j: int| 1 <= j < a.len() && (#[trigger] a[j] == 'r' || a[j] == 'R')
}

/// The options of `rm`: whether it removes recursively, its operands, and errors.
pub open spec fn rm_options(args: Seq<Seq<char>>) -> (bool, Seq<Seq<char>>, Seq<char>, i32)
    decreases args.len(),
{
    if args.len() == 0 {
        (false, Seq::empty(), Seq::empty(), 0)
    } else {
        let (rec, ops, e, c) = rm_options(args.drop_last());
        let a = args.last();
        if is_option(a) {
            if option_ok(a) {
                (rec || option_recursive(a), ops, e, c)
            } else {
                (rec, ops, e + "rm: unsupported option: "@ + a + seq!['\n'], 1)
            }
        } else {
            (rec, ops.push(a), e, c)
        }
    }
}

pub open spec fn rm_all(fs: FsModel, cwd: Seq<char>, ops: Seq<Seq<char>>, recursive: bool) -> (FsModel, Seq<char>, i32)
    decreases ops.len(),
{
    if ops.len() == 0 {
        (fs, Seq::empty(), 0)
    } else {
        let (m, e, c) = rm_all(fs, cwd, ops.drop_last(), recursive);
        match remove_spec(m, resolve_spec(cwd, ops.last()), recursive) {
            Ok(m2) => (m2, e, c),
            Err(msg) => (m, e + err_line("rm: "@, msg), 1),
        }
    }
}

pub open spec fn rm_spec(fs: FsModel, cwd: Seq<char>, args: Seq<Seq<char>>) -> (FsModel, CmdOut) {
    let (rec, ops, e, c) = rm_options(args);
    if c != 0 {
        (fs, CmdOut { stdout: Seq::empty(), stderr: e, code: c })
    } else if ops.len() == 0 {
        (fs, CmdOut { stdout: Seq::empty(), stderr: "rm: missing operand\n"@, code: 1 })
    } else {
        let (m, e2, c2) = rm_all(fs, cwd, ops, rec);
        (m, CmdOut { stdout: Seq::empty(), stderr: e2, code: c2 })
    }
}

/// `export NAME=value...`: arguments without `=` are ignored.
pub open spec fn export_all(env: EnvModel, args: Seq<Seq<char>>) -> EnvModel
    decreases args.len(),
{
    if args.len() == 0 {
        env
    } else {
        let e = export_all(env, args.drop_last());
        let a = args.last();
        if find_from(a, 0, '=') < a.len() {
            sorted_insert(e, split_key(a), split_value(a))
        } else {
            e
        }
    }
}

/// `NAME=value` lines of the environment, in name order.
pub open spec fn env_listing(env: EnvModel) -> Seq<char>
    decreases env.len(),
{
    if env.len() == 0 {
        Seq::empty()
    } else {
        env_listing(env.drop_last()) + env.last().0 + seq!['='] + env.last().1 + seq!['\n']
    }
}

pub open spec fn all_assignments(words: Seq<Seq<char>>) -> bool {
    forall|i: int| 0 <= i < words.len() ==> is_assignment_spec(#[trigger] words[i])
}

pub open spec fn cd_spec(sh: Sh, args: Seq<Seq<char>>) -> (Sh, CmdOut) {
    let target = if args.len() > 0 {
        args[0]
    } else {
        match crate::strmap::lookup(sh.env, "HOME"@) {
            Some(h) => h,
            None => "/home/user"@,
        }
    };
    let path = resolve_spec(sh.cwd, target);
    if crate::fs::is_dir_in(sh.fs, path) {
        (
            Sh { cwd: path, env: sorted_insert(sh.env, "PWD"@, path), ..sh },
            CmdOut { stdout: Seq::empty(), stderr: Seq::empty(), code: 0 },
        )
    } else {
        (
            sh,
            CmdOut {
                stdout: Seq::empty(),
                stderr: "cd: "@ + target + ": No such file or directory\n"@,
                code: 1,
            },
        )
    }
}

/// `mkdir [-p] DIR...`.
pub open spec fn mkdir_spec(sh: Sh, args: Seq<Seq<char>>) -> (Sh, CmdOut) {
    let (m, e, c) = mkdir_from(sh.fs, sh.cwd, args, 0, false, false, Seq::empty(), 0);
    (Sh { fs: m, ..sh }, CmdOut { stdout: Seq::empty(), stderr: e, code: c })
}

/// `touch FILE...`: each file is written with what it held, or created empty.
pub open spec fn touch_spec(sh: Sh, args: Seq<Seq<char>>) -> (Sh, CmdOut) {
    let (m, e, c) = touch_all(sh.fs, sh.cwd, args);
    (Sh { fs: m, ..sh }, CmdOut { stdout: Seq::empty(), stderr: e, code: c })
}

/// `cat FILE...`: the files' contents; with no operand, the input.
pub open spec fn cat_spec(fs: FsModel, cwd: Seq<char>, args: Seq<Seq<char>>, stdin: Seq<char>) -> CmdOut {
    let (o, e, c) = read_files(fs, cwd, args, "cat: "@);
    CmdOut { stdout: if args.len() == 0 { stdin + o } else { o }, stderr: e, code: c }
}

/// The status `exit` ends with: its first operand as a number, else 0.
pub open spec fn exit_status(args: Seq<Seq<char>>) -> i32 {
    if args.len() > 0 {
        match parse_i32_spec(args[0]) {
            Some(v) => v,
            None => 0,
        }
    } else {
        0
    }
}

pub open spec fn printf_spec(args: Seq<Seq<char>>) -> Seq<char> {
    if args.len() > 0 {
        format_printf_spec(args[0], args.drop_first())
    } else {
        Seq::empty()
    }
}

pub open spec fn ok_out(stdout: Seq<char>, code: i32) -> CmdOut {
    CmdOut { stdout: stdout, stderr: Seq::empty(), code: code }
}

/// What running the expanded words `words` does, with `stdin` as input.
#[verifier::opaque]
pub open spec fn command_spec(sh: Sh, words: Seq<Seq<char>>, stdin: Seq<char>) -> (Sh, CmdOut) {
    if words.len() == 0 {
        (sh, ok_out(Seq::empty(), 0))
    } else if all_assignments(words) {
        (Sh { env: export_all(sh.env, words), ..sh }, ok_out(Seq::empty(), 0))
    } else {
        let cmd = words[0];
        let args = words.drop_first();
        if cmd == "true"@ {
            (sh, ok_out(Seq::empty(), 0))
        } else if cmd == "false"@ {
            (sh, ok_out(Seq::empty(), 1))
        } else if cmd == "exit"@ {
            (sh, ok_out(Seq::empty(), exit_status(args)))
        } else if cmd == "echo"@ {
            (sh, ok_out(echo_spec(args), 0))
        } else if cmd == "printf"@ {
            (sh, ok_out(printf_spec(args), 0))
        } else if cmd == "pwd"@ {
            (sh, ok_out(sh.cwd + seq!['\n'], 0))
        } else if cmd == "cd"@ {
            cd_spec(sh, args)
        } else if cmd == "cat"@ {
            (sh, cat_spec(sh.fs, sh.cwd, args, stdin))
        } else if cmd == "grep"@ {
            (sh, grep_spec(sh.fs, sh.cwd, args, stdin))
        } else if cmd == "wc"@ {
            (sh, wc_spec(sh.fs, sh.cwd, args, stdin))
        } else if cmd == "ls"@ {
            (sh, ls_spec(sh.fs, sh.cwd, args))
        } else if cmd == "mkdir"@ {
            mkdir_spec(sh, args)
        } else if cmd == "touch"@ {
            touch_spec(sh, args)
        } else if cmd == "cp"@ {
            let (m, o) = cp_spec(sh.fs, sh.cwd, args);
            (Sh { fs: m, ..sh }, o)
        } else if cmd == "rm"@ {
            let (m, o) = rm_spec(sh.fs, sh.cwd, args);
            (Sh { fs: m, ..sh }, o)
        } else if cmd == "export"@ {
            (Sh { env: export_all(sh.env, args), ..sh }, ok_out(Seq::empty(), 0))
        } else if cmd == "env"@ {
            (sh, ok_out(env_listing(sh.env), 0))
        } else {
            (
                sh,
                CmdOut {
                    stdout: Seq::empty(),
                    stderr: "bash: "@ + cmd + ": command not found\n"@,
                    code: 127,
                },
            )
        }
    }
}

}

verus! {

// ─── Running statements ─────────────────────────────────────────────────────

/// Execution state: the shell, what has been printed so far, the execution
/// steps left, and the nesting limit for command substitutions.
pub struct Run {
    pub sh: Sh,
    pub out: Seq<char>,
    pub err: Seq<char>,
    pub fuel: nat,
    pub depth: usize,
}

/// `s` without its trailing newlines.
pub open spec fn strip_newlines(s: Seq<char>) -> Seq<char>
    decreases s.len(),
{
    if s.len() > 0 && s.last() == '\n' {
        strip_newlines(s.drop_last())
    } else {
        s
    }
}

pub open spec fn no_out() -> CmdOut {
    CmdOut { stdout: Seq::empty(), stderr: Seq::empty(), code: 0 }
}

/// One step of the budget spent.
pub open spec fn spend(r: Run) -> Run {
    Run { fuel: (r.fuel - 1) as nat, ..r }
}

/// A command substitution: `text` runs as a script in a subshell, `$?` first
/// being `status`; its output without trailing newlines is the value.
/// Filesystem changes and error output remain; environment and directory do not.
pub open spec fn subst_spec(r: Run, text: Seq<char>, status: i32) -> (Run, Seq<char>, Flow)
    decreases r.fuel, 5int, 0int,
{
    match script_spec(text, ParseLimits { max_command_substitution_depth: r.depth }) {
        Err(e) => (Run { err: r.err + err_line("bash: "@, e), ..r }, Seq::empty(), Flow::Next),
        Ok(stmts) => {
            let (r2, _c, flow) = run_list_spec(Run { out: Seq::empty(), ..r }, stmts, 0, status);
            (
                Run { sh: Sh { fs: r2.sh.fs, ..r.sh }, out: r.out, err: r2.err, fuel: r2.fuel, depth: r.depth },
                strip_newlines(r2.out),
                if flow == Flow::OutOfBudget {
                    Flow::OutOfBudget
                } else {
                    Flow::Next
                },
            )
        },
    }
}

/// The expansion of a word's parts from `k` on, appended to `acc`; `$?` is `status`.
pub open spec fn expand_parts(r: Run, parts: Seq<PartV>, k: int, acc: Seq<char>, status: i32) -> (
    Run,
    Seq<char>,
    Flow,
)
    decreases r.fuel, 7int, parts.len() - k,
{
    if k < 0 || k >= parts.len() {
        (r, acc, Flow::Next)
    } else {
        let p = parts[k];
        if p.kind == WordPartKind::Literal {
            expand_parts(r, parts, k + 1, acc + p.text, status)
        } else if p.kind == WordPartKind::Variable {
            expand_parts(r, parts, k + 1, acc + expand_text_spec(p.text, r.sh.env, status), status)
        } else {
            let (r2, v, flow) = subst_spec(r, p.text, status);
            if flow != Flow::Next {
                (r2, acc, flow)
            } else if r2.fuel > r.fuel {
                (r2, acc, Flow::Next)
            } else {
                expand_parts(r2, parts, k + 1, acc + v, status)
            }
        }
    }
}

/// A word's text where it holds no command substitution: its literal parts
/// and its expanded variable parts from `k` on, appended to `acc`. A word with
/// a substitution gives nothing.
pub open spec fn plain_from(parts: Seq<PartV>, k: int, acc: Seq<char>, env: EnvModel, status: i32) -> Option<
    Seq<char>,
>
    decreases parts.len() - k,
{
    if k < 0 || k >= parts.len() {
        Some(acc)
    } else if parts[k].kind == WordPartKind::Literal {
        plain_from(parts, k + 1, acc + parts[k].text, env, status)
    } else if parts[k].kind == WordPartKind::Variable {
        plain_from(parts, k + 1, acc + expand_text_spec(parts[k].text, env, status), env, status)
    } else {
        None
    }
}

pub open spec fn expand_words(r: Run, words: Seq<Seq<PartV>>, k: int, acc: Seq<Seq<char>>, status: i32) -> (
    Run,
    Seq<Seq<char>>,
    Flow,
)
    decreases r.fuel, 8int, words.len() - k,
{
    if k < 0 || k >= words.len() {
        (r, acc, Flow::Next)
    } else {
        let (r1, w, flow) = expand_parts(r, words[k], 0, Seq::empty(), status);
        if flow != Flow::Next {
            (r1, acc, flow)
        } else if r1.fuel > r.fuel {
            (r1, acc, Flow::Next)
        } else {
            expand_words(r1, words, k + 1, acc.push(w), status)
        }
    }
}

/// Redirections from `k` on: the input they give and where output goes.
pub open spec fn redir_from(
    r: Run,
    redirs: Seq<RedirectV>,
    k: int,
    stdin: Seq<char>,
    target: Option<(RedirectMode, Seq<char>)>,
    status: i32,
) -> (Run, Result<(Seq<char>, Option<(RedirectMode, Seq<char>)>), Seq<char>>, Flow)
    decreases r.fuel, 8int, redirs.len() - k,
{
    if k < 0 || k >= redirs.len() {
        (r, Ok((stdin, target)), Flow::Next)
    } else {
        let (r1, name, flow) = expand_parts(r, redirs[k].target, 0, Seq::empty(), status);
        if flow != Flow::Next {
            (r1, Ok((stdin, target)), flow)
        } else if r1.fuel > r.fuel {
            (r1, Ok((stdin, target)), Flow::Next)
        } else {
            let path = resolve_spec(r1.sh.cwd, name);
            let mode = redirs[k].mode;
            if mode == RedirectMode::Read {
                match read_spec(r1.sh.fs, path) {
                    Ok(c) => redir_from(r1, redirs, k + 1, c, target, status),
                    Err(e) => (r1, Err(e), Flow::Next),
                }
            } else {
                let res = if mode == RedirectMode::Write {
                    write_spec(r1.sh.fs, path, Seq::empty())
                } else {
                    append_spec(r1.sh.fs, path, Seq::empty())
                };
                match res {
                    Ok(m) => redir_from(
                        Run { sh: Sh { fs: m, ..r1.sh }, ..r1 },
                        redirs,
                        k + 1,
                        stdin,
                        Some((mode, path)),
                        status,
                    ),
                    Err(e) => (r1, Err(e), Flow::Next),
                }
            }
        }
    }
}

/// Sends a command's output to its redirection target, if any.
pub open spec fn finish_output(fs: FsModel, target: Option<(RedirectMode, Seq<char>)>, o: CmdOut) -> (
    FsModel,
    CmdOut,
) {
    match target {
        None => (fs, o),
        Some((mode, path)) => {
            let res = if mode == RedirectMode::Write {
                write_spec(fs, path, o.stdout)
            } else {
                append_spec(fs, path, o.stdout)
            };
            match res {
                Ok(m) => (m, CmdOut { stdout: Seq::empty(), ..o }),
                Err(e) => (fs, CmdOut { stderr: o.stderr + err_line("bash: "@, e), code: 1, ..o }),
            }
        },
    }
}

/// One command: its redirections are set up, then its words expanded, then it
/// runs; `$?` is `status`. A failed redirection stops the command with status 1.
/// The flag says whether the command was `exit`; after a failed redirection it
/// is read from the first word, expanded without running anything.
pub open spec fn invocation_spec(r: Run, cmd: CommandV, stdin: Seq<char>, status: i32) -> (
    Run,
    CmdOut,
    bool,
    Flow,
)
    decreases r.fuel, 9int, 0int,
{
    let (r1, red, flow) = redir_from(r, cmd.redirects, 0, stdin, None, status);
    if flow != Flow::Next {
        (r1, no_out(), false, flow)
    } else if r1.fuel > r.fuel {
        (r1, no_out(), false, Flow::Next)
    } else {
        match red {
            Err(e) => (
                r1,
                CmdOut { stdout: Seq::empty(), stderr: err_line("bash: "@, e), code: 1 },
                cmd.words.len() > 0 && plain_from(cmd.words[0], 0, Seq::empty(), r1.sh.env, status) == Some("exit"@),
                Flow::Next,
            ),
            Ok((input, target)) => {
                let (r2, words, flow2) = expand_words(r1, cmd.words, 0, Seq::empty(), status);
                if flow2 != Flow::Next {
                    (r2, no_out(), false, flow2)
                } else {
                    let is_exit = words.len() > 0 && words[0] == "exit"@;
                    let (sh3, o) = command_spec(r2.sh, words, input);
                    let (m, o2) = finish_output(sh3.fs, target, o);
                    (Run { sh: Sh { fs: m, ..sh3 }, ..r2 }, o2, is_exit, Flow::Next)
                }
            },
        }
    }
}

/// A pipeline from command `j` on; each command costs one step and reads the
/// previous one's output, and `$?` is `status` throughout. In a pipeline of
/// several commands each runs in a subshell (only filesystem changes remain).
/// A lone `exit` ends execution.
pub open spec fn pipeline_spec(r: Run, cmds: Seq<CommandV>, j: int, stdin: Seq<char>, code: i32, status: i32) -> (
    Run,
    i32,
    Flow,
)
    decreases r.fuel, 2int, cmds.len() - j,
{
    if j < 0 || j >= cmds.len() {
        (r, code, Flow::Next)
    } else if r.fuel == 0 {
        (r, code, Flow::OutOfBudget)
    } else {
        let is_pipe = cmds.len() > 1;
        let is_last = j + 1 == cmds.len();
        let (r1, o, is_exit, flow) = invocation_spec(spend(r), cmds[j], stdin, status);
        if flow != Flow::Next {
            (r1, code, flow)
        } else if r1.fuel >= r.fuel {
            (r1, code, Flow::Next)
        } else {
            let sh2 = if is_pipe {
                Sh { fs: r1.sh.fs, ..r.sh }
            } else {
                r1.sh
            };
            let r2 = Run {
                sh: sh2,
                err: r1.err + o.stderr,
                out: if is_last {
                    r1.out + o.stdout
                } else {
                    r1.out
                },
                ..r1
            };
            if !is_pipe && is_exit {
                (r2, o.code, Flow::Exit)
            } else {
                pipeline_spec(r2, cmds, j + 1, o.stdout, o.code, status)
            }
        }
    }
}

/// Statements from `i` on. `&&` and `||` run a statement only after success or
/// failure of what came before.
pub open spec fn run_list_spec(r: Run, stmts: Seq<StmtV>, i: int, code: i32) -> (Run, i32, Flow)
    decreases r.fuel, 4int, stmts.len() - i,
{
    if i < 0 || i >= stmts.len() {
        (r, code, Flow::Next)
    } else {
        let s = stmts[i];
        let should_run = match s.connector {
            PipelineConnector::Always => true,
            PipelineConnector::And => code == 0,
            PipelineConnector::Or => code != 0,
        };
        if !should_run {
            run_list_spec(r, stmts, i + 1, code)
        } else {
            let (r2, c2, flow) = stmt_spec(r, s, code);
            if flow != Flow::Next {
                (r2, c2, flow)
            } else if r2.fuel > r.fuel {
                (r2, c2, Flow::Next)
            } else {
                run_list_spec(r2, stmts, i + 1, c2)
            }
        }
    }
}

/// One statement, after status `code`. A pipeline's commands each cost a step;
/// an `if`, `while` or `for` costs one step itself.
pub open spec fn stmt_spec(r: Run, s: StmtV, code: i32) -> (Run, i32, Flow)
    decreases r.fuel, 3int, 0int,
{
    match s.kind {
        KindV::Pipeline(cmds) => pipeline_spec(r, cmds, 0, Seq::empty(), code, code),
        KindV::If(f) => if r.fuel == 0 {
            (r, code, Flow::OutOfBudget)
        } else {
            if_run(spend(r), f, code)
        },
        KindV::While(w) => if r.fuel == 0 {
            (r, code, Flow::OutOfBudget)
        } else {
            while_run(spend(r), w, 0, code)
        },
        KindV::For(f) => if r.fuel == 0 {
            (r, code, Flow::OutOfBudget)
        } else {
            for_run(spend(r), f, code)
        },
    }
}

/// `if`: the first branch whose condition succeeds runs; with none, the `else`
/// part, or status 0.
pub open spec fn if_run(r: Run, f: IfV, code: i32) -> (Run, i32, Flow)
    decreases r.fuel, 6int, 0int,
{
    let (r1, c1, fl1) = run_list_spec(r, f.condition, 0, code);
    if fl1 != Flow::Next {
        (r1, c1, fl1)
    } else if r1.fuel > r.fuel {
        (r1, c1, Flow::Next)
    } else if c1 == 0 {
        run_list_spec(r1, f.body, 0, c1)
    } else {
        elifs_run(r1, f, 0, c1)
    }
}

pub open spec fn elifs_run(r: Run, f: IfV, k: int, code: i32) -> (Run, i32, Flow)
    decreases r.fuel, 5int, f.elifs.len() - k,
{
    if k < 0 || k >= f.elifs.len() {
        match f.else_body {
            Some(b) => run_list_spec(r, b, 0, code),
            None => (r, 0, Flow::Next),
        }
    } else {
        let (r1, c1, fl1) = run_list_spec(r, f.elifs[k].0, 0, code);
        if fl1 != Flow::Next {
            (r1, c1, fl1)
        } else if r1.fuel > r.fuel {
            (r1, c1, Flow::Next)
        } else if c1 == 0 {
            run_list_spec(r1, f.elifs[k].1, 0, c1)
        } else {
            elifs_run(r1, f, k + 1, c1)
        }
    }
}

/// `while`: the status is the last body's, or 0. A pass that runs no command
/// at all (only an empty loop can) ends the loop.
pub open spec fn while_run(r: Run, w: WhileV, last: i32, code: i32) -> (Run, i32, Flow)
    decreases r.fuel, 5int, 0int,
{
    let (r1, c1, fl1) = run_list_spec(r, w.condition, 0, code);
    if fl1 != Flow::Next {
        (r1, c1, fl1)
    } else if c1 != 0 {
        (r1, last, Flow::Next)
    } else if r1.fuel > r.fuel {
        (r1, c1, Flow::Next)
    } else {
        let (r2, c2, fl2) = run_list_spec(r1, w.body, 0, c1);
        if fl2 != Flow::Next {
            (r2, c2, fl2)
        } else if r2.fuel >= r.fuel {
            (r2, c2, Flow::Next)
        } else {
            while_run(r2, w, c2, c2)
        }
    }
}

/// `for`: the items are expanded, then the body runs once per value with the
/// variable set to it.
pub open spec fn for_run(r: Run, f: ForV, code: i32) -> (Run, i32, Flow)
    decreases r.fuel, 10int, 0int,
{
    let (r1, values, fl) = expand_words(r, f.items, 0, Seq::empty(), code);
    if fl != Flow::Next {
        (r1, code, fl)
    } else if r1.fuel > r.fuel {
        (r1, code, Flow::Next)
    } else {
        for_values(r1, f.var, values, 0, f.body, 0)
    }
}

pub open spec fn for_values(
    r: Run,
    var: Seq<char>,
    values: Seq<Seq<char>>,
    k: int,
    body: Seq<StmtV>,
    last: i32,
) -> (Run, i32, Flow)
    decreases r.fuel, 5int, values.len() - k,
{
    if k < 0 || k >= values.len() {
        (r, last, Flow::Next)
    } else {
        let r1 = Run { sh: Sh { env: sorted_insert(r.sh.env, var, values[k]), ..r.sh }, ..r };
        let (r2, c2, fl2) = run_list_spec(r1, body, 0, last);
        if fl2 != Flow::Next {
            (r2, c2, fl2)
        } else if r2.fuel > r.fuel {
            (r2, c2, Flow::Next)
        } else {
            for_values(r2, var, values, k + 1, body, c2)
        }
    }
}

}

verus! {

// ─── A whole `exec` ─────────────────────────────────────────────────────────

/// The state an `exec` starts from: with isolation, the initial environment and
/// directory over the current filesystem; without, the state as it is.
pub open spec fn start_state(sh: Sh, env: EnvModel, cwd: Seq<char>, isolate: bool) -> Sh {
    if isolate {
        Sh { fs: sh.fs, env: env, cwd: cwd }
    } else {
        sh
    }
}

pub open spec fn size_error(max: usize) -> Seq<char> {
    "bash: script size exceeds limit ("@ + decimal(max as nat) + " bytes)\n"@
}

pub open spec fn count_error(max: usize) -> Seq<char> {
    "bash: command count exceeds limit ("@ + decimal(max as nat) + ")\n"@
}

/// What `exec` of `script` does from `start`: the state after it, and what it
/// printed with its status. A script longer than the byte limit or one that does
/// not parse runs nothing (status 2); running out of steps stops it (status 1).
pub open spec fn exec_spec(start: Sh, limits: BashExecutionLimits, script: Seq<char>) -> (Sh, CmdOut) {
    if (vstd::utf8::encode_utf8(script).len() as usize) > limits.max_script_size_bytes {
        (start, CmdOut { stdout: Seq::empty(), stderr: size_error(limits.max_script_size_bytes), code: 2 })
    } else {
        match script_spec(script, ParseLimits { max_command_substitution_depth: limits.max_command_substitution_depth }) {
            Err(e) => (start, CmdOut { stdout: Seq::empty(), stderr: err_line("bash: "@, e), code: 2 }),
            Ok(stmts) => {
                let r0 = Run {
                    sh: start,
                    out: Seq::empty(),
                    err: Seq::empty(),
                    fuel: limits.max_command_count as nat,
                    depth: limits.max_command_substitution_depth,
                };
                let (r, code, flow) = run_list_spec(r0, stmts, 0, 0);
                if flow == Flow::OutOfBudget {
                    (r.sh, CmdOut { stdout: r.out, stderr: r.err + count_error(limits.max_command_count), code: 1 })
                } else {
                    (r.sh, CmdOut { stdout: r.out, stderr: r.err, code: code })
                }
            },
        }
    }
}

// ─── A new shell ────────────────────────────────────────────────────────────

/// The environment given, with `HOME` and `PWD` added where missing.
pub open spec fn with_defaults(env: EnvModel, cwd: Seq<char>) -> EnvModel {
    let e1 = if lookup(env, "HOME"@) is None {
        sorted_insert(env, "HOME"@, "/home/user"@)
    } else {
        env
    };
    if lookup(e1, "PWD"@) is None {
        sorted_insert(e1, "PWD"@, cwd)
    } else {
        e1
    }
}



}

verus! {

// ─── What running keeps ─────────────────────────────────────────────────────

/// `r2` has no more budget than `r`, and its filesystem is a tree when `r`'s is.
pub open spec fn kept(r: Run, r2: Run) -> bool {
    r2.fuel <= r.fuel && (fs_tree(r.sh.fs) ==> fs_tree(r2.sh.fs))
}

proof fn lemma_subst_facts(r: Run, text: Seq<char>, status: i32)
    ensures
        kept(r, subst_spec(r, text, status).0),
    decreases r.fuel, 5int, 0int,
{
    match script_spec(text, ParseLimits { max_command_substitution_depth: r.depth }) {
        Err(_) => {},
        Ok(stmts) => {
            lemma_list_facts(Run { out: Seq::empty(), ..r }, stmts, 0, status);
        },
    }
}

proof fn lemma_parts_facts(r: Run, parts: Seq<PartV>, k: int, acc: Seq<char>, status: i32)
    ensures
        kept(r, expand_parts(r, parts, k, acc, status).0),
    decreases r.fuel, 7int, parts.len() - k,
{
    if 0 <= k < parts.len() {
        let p = parts[k];
        if p.kind == WordPartKind::Literal {
            lemma_parts_facts(r, parts, k + 1, acc + p.text, status);
        } else if p.kind == WordPartKind::Variable {
            lemma_parts_facts(r, parts, k + 1, acc + expand_text_spec(p.text, r.sh.env, status), status);
        } else {
            lemma_subst_facts(r, p.text, status);
            let (r2, v, flow) = subst_spec(r, p.text, status);
            if flow == Flow::Next {
                lemma_parts_facts(r2, parts, k + 1, acc + v, status);
            }
        }
    }
}

proof fn lemma_words_facts(r: Run, words: Seq<Seq<PartV>>, k: int, acc: Seq<Seq<char>>, status: i32)
    ensures
        kept(r, expand_words(r, words, k, acc, status).0),
    decreases r.fuel, 8int, words.len() - k,
{
    if 0 <= k < words.len() {
        lemma_parts_facts(r, words[k], 0, Seq::empty(), status);
        let (r1, w, flow) = expand_parts(r, words[k], 0, Seq::empty(), status);
        if flow == Flow::Next {
            lemma_words_facts(r1, words, k + 1, acc.push(w), status);
        }
    }
}

proof fn lemma_redir_facts(
    r: Run,
    redirs: Seq<RedirectV>,
    k: int,
    stdin: Seq<char>,
    target: Option<(RedirectMode, Seq<char>)>,
    status: i32,
)
    ensures
        kept(r, redir_from(r, redirs, k, stdin, target, status).0),
    decreases r.fuel, 8int, redirs.len() - k,
{
    if 0 <= k < redirs.len() {
        lemma_parts_facts(r, redirs[k].target, 0, Seq::empty(), status);
        let (r1, name, flow) = expand_parts(r, redirs[k].target, 0, Seq::empty(), status);
        if flow == Flow::Next {
            let path = resolve_spec(r1.sh.cwd, name);
            let mode = redirs[k].mode;
            if fs_tree(r1.sh.fs) {
                law_operations_keep_tree(r1.sh.fs, path, Seq::empty(), false);
            }
            if mode == RedirectMode::Read {
                match read_spec(r1.sh.fs, path) {
                    Ok(c) => lemma_redir_facts(r1, redirs, k + 1, c, target, status),
                    Err(_) => {},
                }
            } else {
                let res = if mode == RedirectMode::Write {
                    write_spec(r1.sh.fs, path, Seq::empty())
                } else {
                    append_spec(r1.sh.fs, path, Seq::empty())
                };
                match res {
                    Ok(m) => lemma_redir_facts(
                        Run { sh: Sh { fs: m, ..r1.sh }, ..r1 },
                        redirs,
                        k + 1,
                        stdin,
                        Some((mode, path)),
                        status,
                    ),
                    Err(_) => {},
                }
            }
        }
    }
}

proof fn lemma_invocation_facts(r: Run, cmd: CommandV, stdin: Seq<char>, status: i32)
    ensures
        kept(r, invocation_spec(r, cmd, stdin, status).0),
    decreases r.fuel, 9int, 0int,
{
    lemma_redir_facts(r, cmd.redirects, 0, stdin, None, status);
    let (r1, red, flow) = redir_from(r, cmd.redirects, 0, stdin, None, status);
    if flow == Flow::Next && r1.fuel <= r.fuel {
        match red {
            Ok((input, target)) => {
                lemma_words_facts(r1, cmd.words, 0, Seq::empty(), status);
                let (r2, words, flow2) = expand_words(r1, cmd.words, 0, Seq::empty(), status);
                if flow2 == Flow::Next && fs_tree(r2.sh.fs) {
                    lemma_command_tree(r2.sh, words, input);
                    let (sh3, o) = command_spec(r2.sh, words, input);
                    lemma_finish_tree(sh3.fs, target, o);
                }
            },
            Err(_) => {},
        }
    }
}

proof fn lemma_pipeline_facts(r: Run, cmds: Seq<CommandV>, j: int, stdin: Seq<char>, code: i32, status: i32)
    ensures
        kept(r, pipeline_spec(r, cmds, j, stdin, code, status).0),
    decreases r.fuel, 2int, cmds.len() - j,
{
    if 0 <= j < cmds.len() && r.fuel > 0 {
        lemma_invocation_facts(spend(r), cmds[j], stdin, status);
        let is_pipe = cmds.len() > 1;
        let is_last = j + 1 == cmds.len();
        let (r1, o, is_exit, flow) = invocation_spec(spend(r), cmds[j], stdin, status);
        if flow == Flow::Next {
            let sh2 = if is_pipe {
                Sh { fs: r1.sh.fs, ..r.sh }
            } else {
                r1.sh
            };
            let r2 = Run {
                sh: sh2,
                err: r1.err + o.stderr,
                out: if is_last {
                    r1.out + o.stdout
                } else {
                    r1.out
                },
                ..r1
            };
            if !(!is_pipe && is_exit) {
                lemma_pipeline_facts(r2, cmds, j + 1, o.stdout, o.code, status);
            }
        }
    }
}

proof fn lemma_list_facts(r: Run, stmts: Seq<StmtV>, i: int, code: i32)
    ensures
        kept(r, run_list_spec(r, stmts, i, code).0),
    decreases r.fuel, 4int, stmts.len() - i,
{
    if 0 <= i < stmts.len() {
        let s = stmts[i];
        let should_run = match s.connector {
            PipelineConnector::Always => true,
            PipelineConnector::And => code == 0,
            PipelineConnector::Or => code != 0,
        };
        if !should_run {
            lemma_list_facts(r, stmts, i + 1, code);
        } else {
            lemma_stmt_facts(r, s, code);
            let (r2, c2, flow) = stmt_spec(r, s, code);
            if flow == Flow::Next {
                lemma_list_facts(r2, stmts, i + 1, c2);
            }
        }
    }
}

proof fn lemma_stmt_facts(r: Run, s: StmtV, code: i32)
    ensures
        kept(r, stmt_spec(r, s, code).0),
    decreases r.fuel, 3int, 0int,
{
    match s.kind {
        KindV::Pipeline(cmds) => lemma_pipeline_facts(r, cmds, 0, Seq::empty(), code, code),
        KindV::If(f) => if r.fuel > 0 {
            lemma_if_facts(spend(r), f, code);
        },
        KindV::While(w) => if r.fuel > 0 {
            lemma_while_facts(spend(r), w, 0, code);
        },
        KindV::For(f) => if r.fuel > 0 {
            lemma_for_facts(spend(r), f, code);
        },
    }
}

proof fn lemma_if_facts(r: Run, f: IfV, code: i32)
    ensures
        kept(r, if_run(r, f, code).0),
    decreases r.fuel, 6int, 0int,
{
    lemma_list_facts(r, f.condition, 0, code);
    let (r1, c1, fl1) = run_list_spec(r, f.condition, 0, code);
    if fl1 == Flow::Next {
        if c1 == 0 {
            lemma_list_facts(r1, f.body, 0, c1);
        } else {
            lemma_elifs_facts(r1, f, 0, c1);
        }
    }
}

proof fn lemma_elifs_facts(r: Run, f: IfV, k: int, code: i32)
    ensures
        kept(r, elifs_run(r, f, k, code).0),
    decreases r.fuel, 5int, f.elifs.len() - k,
{
    if k < 0 || k >= f.elifs.len() {
        match f.else_body {
            Some(b) => lemma_list_facts(r, b, 0, code),
            None => {},
        }
    } else {
        lemma_list_facts(r, f.elifs[k].0, 0, code);
        let (r1, c1, fl1) = run_list_spec(r, f.elifs[k].0, 0, code);
        if fl1 == Flow::Next {
            if c1 == 0 {
                lemma_list_facts(r1, f.elifs[k].1, 0, c1);
            } else {
                lemma_elifs_facts(r1, f, k + 1, c1);
            }
        }
    }
}

proof fn lemma_while_facts(r: Run, w: WhileV, last: i32, code: i32)
    ensures
        kept(r, while_run(r, w, last, code).0),
    decreases r.fuel, 5int, 0int,
{
    lemma_list_facts(r, w.condition, 0, code);
    let (r1, c1, fl1) = run_list_spec(r, w.condition, 0, code);
    if fl1 == Flow::Next && c1 == 0 {
        lemma_list_facts(r1, w.body, 0, c1);
        let (r2, c2, fl2) = run_list_spec(r1, w.body, 0, c1);
        if fl2 == Flow::Next && r2.fuel < r.fuel {
            lemma_while_facts(r2, w, c2, c2);
        }
    }
}

proof fn lemma_for_facts(r: Run, f: ForV, code: i32)
    ensures
        kept(r, for_run(r, f, code).0),
    decreases r.fuel, 10int, 0int,
{
    lemma_words_facts(r, f.items, 0, Seq::empty(), code);
    let (r1, values, fl) = expand_words(r, f.items, 0, Seq::empty(), code);
    if fl == Flow::Next {
        lemma_for_values_facts(r1, f.var, values, 0, f.body, 0);
    }
}

proof fn lemma_for_values_facts(r: Run, var: Seq<char>, values: Seq<Seq<char>>, k: int, body: Seq<StmtV>, last: i32)
    ensures
        kept(r, for_values(r, var, values, k, body, last).0),
    decreases r.fuel, 5int, values.len() - k,
{
    if 0 <= k < values.len() {
        let r1 = Run { sh: Sh { env: sorted_insert(r.sh.env, var, values[k]), ..r.sh }, ..r };
        lemma_list_facts(r1, body, 0, last);
        let (r2, c2, fl2) = run_list_spec(r1, body, 0, last);
        if fl2 == Flow::Next {
            lemma_for_values_facts(r2, var, values, k + 1, body, c2);
        }
    }
}

// ─── Laws of running ────────────────────────────────────────────────────────

/// A run never gains steps: after running statements, at most the budget they
/// started with is left.
pub proof fn law_budget_never_grows(r: Run, stmts: Seq<StmtV>, code: i32)
    ensures
        run_list_spec(r, stmts, 0, code).0.fuel <= r.fuel,
{
    lemma_list_facts(r, stmts, 0, code);
}

/// A command substitution runs in a subshell: the environment, the working
/// directory and what was printed on standard output are as before it.
pub proof fn law_substitution_keeps_shell_state(r: Run, text: Seq<char>, status: i32)
    ensures
        subst_spec(r, text, status).0.sh.env == r.sh.env,
        subst_spec(r, text, status).0.sh.cwd == r.sh.cwd,
        subst_spec(r, text, status).0.out == r.out,
{
}

/// In a pipeline of two or more commands each command runs in a subshell:
/// once the pipeline completes, the environment and working directory are
/// what they were before it.
pub proof fn law_pipeline_keeps_shell_state(
    r: Run,
    cmds: Seq<CommandV>,
    j: int,
    stdin: Seq<char>,
    code: i32,
    status: i32,
)
    requires
        cmds.len() > 1,
        0 <= j,
    ensures
        pipeline_spec(r, cmds, j, stdin, code, status).2 == Flow::Next ==> {
            &&& pipeline_spec(r, cmds, j, stdin, code, status).0.sh.env == r.sh.env
            &&& pipeline_spec(r, cmds, j, stdin, code, status).0.sh.cwd == r.sh.cwd
        },
    decreases cmds.len() - j,
{
    if j < cmds.len() && r.fuel > 0 {
        lemma_invocation_facts(spend(r), cmds[j], stdin, status);
        let is_last = j + 1 == cmds.len();
        let (r1, o, is_exit, flow) = invocation_spec(spend(r), cmds[j], stdin, status);
        if flow == Flow::Next {
            let r2 = Run {
                sh: Sh { fs: r1.sh.fs, ..r.sh },
                err: r1.err + o.stderr,
                out: if is_last {
                    r1.out + o.stdout
                } else {
                    r1.out
                },
                ..r1
            };
            law_pipeline_keeps_shell_state(r2, cmds, j + 1, o.stdout, o.code, status);
        }
    }
}

/// A statement after `&&` runs only when the status before it is 0, and one
/// after `||` only when it is not: otherwise it is skipped, status unchanged.
pub proof fn law_connectors_skip(r: Run, stmts: Seq<StmtV>, i: int, code: i32)
    requires
        0 <= i < stmts.len(),
        (stmts[i].connector == PipelineConnector::And && code != 0) || (stmts[i].connector
            == PipelineConnector::Or && code == 0),
    ensures
        run_list_spec(r, stmts, i, code) == run_list_spec(r, stmts, i + 1, code),
{
}

/// Single-quoted text is copied as it stands: a word of literal parts expands
/// to its text, and nothing runs.
pub proof fn law_literal_words_verbatim(r: Run, parts: Seq<PartV>, status: i32)
    requires
        forall|i: int| 0 <= i < parts.len() ==> (#[trigger] parts[i]).kind == WordPartKind::Literal,
    ensures
        expand_parts(r, parts, 0, Seq::empty(), status) == (r, word_text(parts), Flow::Next),
{
    lemma_literal_from(r, parts, 0, status);
    assert(parts.take(0) =~= Seq::<PartV>::empty());
}

proof fn lemma_literal_from(r: Run, parts: Seq<PartV>, k: int, status: i32)
    requires
        0 <= k <= parts.len(),
        forall|i: int| 0 <= i < parts.len() ==> (#[trigger] parts[i]).kind == WordPartKind::Literal,
    ensures
        expand_parts(r, parts, k, word_text(parts.take(k)), status) == (r, word_text(parts), Flow::Next),
    decreases parts.len() - k,
{
    if k == parts.len() {
        assert(parts.take(k) =~= parts);
    } else {
        assert(parts.take(k + 1).drop_last() =~= parts.take(k));
        assert(parts.take(k + 1).last() == parts[k]);
        lemma_literal_from(r, parts, k + 1, status);
    }
}

/// `NAME=value` sets the variable: afterwards `NAME` gives `value`; nothing is
/// printed and the status is 0.
pub proof fn law_assignment_sets_variable(sh: Sh, w: Seq<char>, stdin: Seq<char>)
    requires
        is_assignment_spec(w),
    ensures
        lookup(command_spec(sh, seq![w], stdin).0.env, split_key(w)) == Some(split_value(w)),
        command_spec(sh, seq![w], stdin).0.fs == sh.fs,
        command_spec(sh, seq![w], stdin).0.cwd == sh.cwd,
        command_spec(sh, seq![w], stdin).1 == ok_out(Seq::empty(), 0),
{
    reveal(command_spec);
    let words = seq![w];
    assert(all_assignments(words));
    assert(words.drop_last() =~= Seq::<Seq<char>>::empty());
    assert(export_all(sh.env, Seq::<Seq<char>>::empty()) == sh.env);
    assert(words.last() == w);
    assert(find_from(w, 0, '=') < w.len());
    assert(export_all(sh.env, words) == sorted_insert(sh.env, split_key(w), split_value(w)));
    law_lookup_after_insert(sh.env, split_key(w), split_value(w), split_key(w));
}

/// A script longer than the byte limit runs nothing: the state is the one the
/// run started from, nothing reaches standard output, and the status is 2.
pub proof fn law_oversized_script_runs_nothing(start: Sh, limits: BashExecutionLimits, script: Seq<char>)
    requires
        (vstd::utf8::encode_utf8(script).len() as usize) > limits.max_script_size_bytes,
    ensures
        exec_spec(start, limits, script).0 == start,
        exec_spec(start, limits, script).1.stdout.len() == 0,
        exec_spec(start, limits, script).1.code == 2,
{
}

/// A script that does not parse runs nothing: the state is the one the run
/// started from, nothing reaches standard output, the error is reported as
/// `bash: ` and its message, and the status is 2.
pub proof fn law_syntax_error_runs_nothing(start: Sh, limits: BashExecutionLimits, script: Seq<char>)
    requires
        (vstd::utf8::encode_utf8(script).len() as usize) <= limits.max_script_size_bytes,
        script_spec(script, ParseLimits { max_command_substitution_depth: limits.max_command_substitution_depth }) is Err,
    ensures
        exec_spec(start, limits, script).0 == start,
        exec_spec(start, limits, script).1.stdout.len() == 0,
        exec_spec(start, limits, script).1.stderr == err_line(
            "bash: "@,
            script_spec(script, ParseLimits { max_command_substitution_depth: limits.max_command_substitution_depth })->Err_0,
        ),
        exec_spec(start, limits, script).1.code == 2,
{
}

/// `cd` to what is not a directory changes nothing: it reports the target and
/// ends with status 1.
pub proof fn law_cd_refuses_non_directories(sh: Sh, t: Seq<char>, stdin: Seq<char>)
    requires
        !is_dir_in(sh.fs, resolve_spec(sh.cwd, t)),
    ensures
        command_spec(sh, seq!["cd"@, t], stdin) == (
            sh,
            CmdOut { stdout: Seq::empty(), stderr: "cd: "@ + t + ": No such file or directory\n"@, code: 1 },
        ),
{
    reveal(command_spec);
    reveal_strlit("cd");
    reveal_strlit("true");
    reveal_strlit("false");
    reveal_strlit("exit");
    reveal_strlit("echo");
    reveal_strlit("printf");
    reveal_strlit("pwd");
    let c = "cd"@;
    assert(c.len() == 2 && c[0] == 'c' && c[1] == 'd');
    assert(find_from(c, 2, '=') == 2);
    assert(find_from(c, 1, '=') == 2);
    assert(find_from(c, 0, '=') == 2);
    let words = seq![c, t];
    assert(!is_assignment_spec(words[0]));
    assert(!all_assignments(words));
    assert(words.drop_first() =~= seq![t]);
}

proof fn lemma_find_absent(s: Seq<char>, j: int, c: char)
    requires
        0 <= j <= s.len(),
        forall|m: int| j <= m < s.len() ==> #[trigger] s[m] != c,
    ensures
        find_from(s, j, c) == s.len(),
    decreases s.len() - j,
{
    if j < s.len() {
        lemma_find_absent(s, j + 1, c);
    }
}

proof fn lemma_read_files_code(fs: FsModel, cwd: Seq<char>, files: Seq<Seq<char>>, prefix: Seq<char>)
    ensures
        read_files(fs, cwd, files, prefix).2 == 0 || read_files(fs, cwd, files, prefix).2 == 1,
    decreases files.len(),
{
    if files.len() > 0 {
        lemma_read_files_code(fs, cwd, files.drop_last(), prefix);
    }
}

proof fn lemma_mkdir_code(
    fs: FsModel,
    cwd: Seq<char>,
    args: Seq<Seq<char>>,
    i: int,
    parents: bool,
    saw: bool,
    err: Seq<char>,
    code: i32,
)
    requires
        code == 0 || code == 1,
    ensures
        mkdir_from(fs, cwd, args, i, parents, saw, err, code).2 == 0 || mkdir_from(
            fs,
            cwd,
            args,
            i,
            parents,
            saw,
            err,
            code,
        ).2 == 1,
    decreases args.len() - i,
{
    if 0 <= i < args.len() {
        if args[i] == "-p"@ {
            lemma_mkdir_code(fs, cwd, args, i + 1, true, saw, err, code);
        } else {
            let path = resolve_spec(cwd, args[i]);
            if parents {
                let (m, e) = create_all_spec(fs, path);
                match e {
                    None => lemma_mkdir_code(m, cwd, args, i + 1, parents, true, err, code),
                    Some(msg) => lemma_mkdir_code(
                        m,
                        cwd,
                        args,
                        i + 1,
                        parents,
                        true,
                        err + err_line("mkdir: "@, msg),
                        1,
                    ),
                }
            } else {
                match create_dir_spec(fs, path) {
                    Ok(m) => lemma_mkdir_code(m, cwd, args, i + 1, parents, true, err, code),
                    Err(msg) => lemma_mkdir_code(
                        fs,
                        cwd,
                        args,
                        i + 1,
                        parents,
                        true,
                        err + err_line("mkdir: "@, msg),
                        1,
                    ),
                }
            }
        }
    }
}

proof fn lemma_touch_code(fs: FsModel, cwd: Seq<char>, args: Seq<Seq<char>>)
    ensures
        touch_all(fs, cwd, args).2 == 0 || touch_all(fs, cwd, args).2 == 1,
    decreases args.len(),
{
    if args.len() > 0 {
        lemma_touch_code(fs, cwd, args.drop_last());
    }
}

proof fn lemma_rm_code(fs: FsModel, cwd: Seq<char>, args: Seq<Seq<char>>)
    ensures
        rm_spec(fs, cwd, args).1.code == 0 || rm_spec(fs, cwd, args).1.code == 1,
{
    lemma_rm_options_code(args);
    let (rec, ops, e, c) = rm_options(args);
    lemma_rm_all_code(fs, cwd, ops, rec);
}

proof fn lemma_rm_options_code(args: Seq<Seq<char>>)
    ensures
        rm_options(args).3 == 0 || rm_options(args).3 == 1,
    decreases args.len(),
{
    if args.len() > 0 {
        lemma_rm_options_code(args.drop_last());
    }
}

proof fn lemma_rm_all_code(fs: FsModel, cwd: Seq<char>, ops: Seq<Seq<char>>, recursive: bool)
    ensures
        rm_all(fs, cwd, ops, recursive).2 == 0 || rm_all(fs, cwd, ops, recursive).2 == 1,
    decreases ops.len(),
{
    if ops.len() > 0 {
        lemma_rm_all_code(fs, cwd, ops.drop_last(), recursive);
    }
}

/// The built-in commands other than `exit`, whose status is its operand.
pub open spec fn is_listed_builtin(cmd: Seq<char>) -> bool {
    ||| cmd == "cat"@
    ||| cmd == "cd"@
    ||| cmd == "cp"@
    ||| cmd == "echo"@
    ||| cmd == "env"@
    ||| cmd == "export"@
    ||| cmd == "false"@
    ||| cmd == "grep"@
    ||| cmd == "ls"@
    ||| cmd == "mkdir"@
    ||| cmd == "printf"@
    ||| cmd == "pwd"@
    ||| cmd == "rm"@
    ||| cmd == "touch"@
    ||| cmd == "true"@
    ||| cmd == "wc"@
}

/// Every built-in is recognized: whatever its operands and input, it ends
/// with status 0, 1 or 2, never with the status 127 of an unknown command.
pub proof fn law_builtins_recognized(sh: Sh, cmd: Seq<char>, args: Seq<Seq<char>>, stdin: Seq<char>)
    requires
        is_listed_builtin(cmd),
    ensures
        command_spec(sh, seq![cmd] + args, stdin).1.code == 0 || command_spec(
            sh,
            seq![cmd] + args,
            stdin,
        ).1.code == 1 || command_spec(sh, seq![cmd] + args, stdin).1.code == 2,
{
    reveal(command_spec);
    reveal_strlit("cat");
    reveal_strlit("cd");
    reveal_strlit("cp");
    reveal_strlit("echo");
    reveal_strlit("env");
    reveal_strlit("export");
    reveal_strlit("false");
    reveal_strlit("grep");
    reveal_strlit("ls");
    reveal_strlit("mkdir");
    reveal_strlit("printf");
    reveal_strlit("pwd");
    reveal_strlit("rm");
    reveal_strlit("touch");
    reveal_strlit("true");
    reveal_strlit("wc");
    reveal_strlit("exit");
    let words = seq![cmd] + args;
    assert(words[0] == cmd);
    assert(words.drop_first() =~= args);
    assert forall|m: int| 0 <= m < cmd.len() implies #[trigger] cmd[m] != '=' by {}
    lemma_find_absent(cmd, 0, '=');
    assert(!is_assignment_spec(words[0]));
    assert(!all_assignments(words));
    lemma_read_files_code(sh.fs, sh.cwd, args, "cat: "@);
    lemma_read_files_code(sh.fs, sh.cwd, args, "wc: "@);
    if args.len() > 1 {
        lemma_read_files_code(sh.fs, sh.cwd, args.drop_first(), "grep: "@);
    }
    lemma_mkdir_code(sh.fs, sh.cwd, args, 0, false, false, Seq::empty(), 0);
    lemma_touch_code(sh.fs, sh.cwd, args);
    lemma_rm_code(sh.fs, sh.cwd, args);
    let c = command_spec(sh, words, stdin).1.code;
    if cmd == "cat"@ {
        assert(c == cat_spec(sh.fs, sh.cwd, args, stdin).code);
    } else if cmd == "cd"@ {
        assert(c == cd_spec(sh, args).1.code);
    } else if cmd == "cp"@ {
        assert(c == cp_spec(sh.fs, sh.cwd, args).1.code);
    } else if cmd == "grep"@ {
        assert(c == grep_spec(sh.fs, sh.cwd, args, stdin).code);
    } else if cmd == "wc"@ {
        assert(c == wc_spec(sh.fs, sh.cwd, args, stdin).code);
    } else if cmd == "ls"@ {
        assert(c == ls_spec(sh.fs, sh.cwd, args).code);
    } else if cmd == "mkdir"@ {
        assert(c == mkdir_spec(sh, args).1.code);
    } else if cmd == "touch"@ {
        assert(c == touch_spec(sh, args).1.code);
    } else if cmd == "rm"@ {
        assert(c == rm_spec(sh.fs, sh.cwd, args).1.code);
    } else if cmd == "false"@ {
        assert(c == 1);
    } else if cmd == "echo"@ {
        assert(cmd[1] != "exit"@[1]);
        assert(c == 0);
    } else if cmd == "printf"@ {
        assert(c == 0);
    } else if cmd == "pwd"@ {
        assert(c == 0);
    } else if cmd == "export"@ {
        assert(c == 0);
    } else if cmd == "env"@ {
        assert(c == 0);
    } else {
        assert(cmd == "true"@);
        assert(c == 0);
    }
}

/// What `grep`, `rm`, `touch` and `export` run as, once named.
proof fn lemma_command_dispatch(sh: Sh, cmd: Seq<char>, args: Seq<Seq<char>>, stdin: Seq<char>)
    requires
        is_listed_builtin(cmd),
    ensures
        cmd == "grep"@ ==> command_spec(sh, seq![cmd] + args, stdin) == (sh, grep_spec(sh.fs, sh.cwd, args, stdin)),
        cmd == "rm"@ ==> command_spec(sh, seq![cmd] + args, stdin) == (
            Sh { fs: rm_spec(sh.fs, sh.cwd, args).0, ..sh },
            rm_spec(sh.fs, sh.cwd, args).1,
        ),
        cmd == "touch"@ ==> command_spec(sh, seq![cmd] + args, stdin) == touch_spec(sh, args),
        cmd == "export"@ ==> command_spec(sh, seq![cmd] + args, stdin) == (
            Sh { env: export_all(sh.env, args), ..sh },
            ok_out(Seq::empty(), 0),
        ),
{
    reveal(command_spec);
    reveal_strlit("cat");
    reveal_strlit("cd");
    reveal_strlit("cp");
    reveal_strlit("echo");
    reveal_strlit("env");
    reveal_strlit("export");
    reveal_strlit("false");
    reveal_strlit("grep");
    reveal_strlit("ls");
    reveal_strlit("mkdir");
    reveal_strlit("printf");
    reveal_strlit("pwd");
    reveal_strlit("rm");
    reveal_strlit("touch");
    reveal_strlit("true");
    reveal_strlit("wc");
    reveal_strlit("exit");
    let words = seq![cmd] + args;
    assert(words[0] == cmd);
    assert(words.drop_first() =~= args);
    assert forall|m: int| 0 <= m < cmd.len() implies #[trigger] cmd[m] != '=' by {}
    lemma_find_absent(cmd, 0, '=');
    assert(!is_assignment_spec(words[0]));
    assert(!all_assignments(words));
}

proof fn lemma_read_files_ok(fs: FsModel, cwd: Seq<char>, files: Seq<Seq<char>>, prefix: Seq<char>)
    requires
        forall|i: int| 0 <= i < files.len() ==> read_spec(fs, resolve_spec(cwd, #[trigger] files[i])) is Ok,
    ensures
        read_files(fs, cwd, files, prefix).2 == 0,
        read_files(fs, cwd, files, prefix).1 == Seq::<char>::empty(),
        read_each(fs, cwd, files) == Seq::new(
            files.len(),
            |i: int| read_spec(fs, resolve_spec(cwd, files[i]))->Ok_0,
        ),
    decreases files.len(),
{
    if files.len() > 0 {
        let d = files.drop_last();
        assert forall|i: int| 0 <= i < d.len() implies read_spec(fs, resolve_spec(cwd, #[trigger] d[i])) is Ok by {
            assert(d[i] == files[i]);
        }
        lemma_read_files_ok(fs, cwd, d, prefix);
        assert(read_spec(fs, resolve_spec(cwd, files[files.len() - 1])) is Ok);
        assert(read_each(fs, cwd, files) =~= Seq::new(
            files.len(),
            |i: int| read_spec(fs, resolve_spec(cwd, files[i]))->Ok_0,
        ));
    }
}

proof fn lemma_grep_all_concat(hays: Seq<Seq<char>>, pat: Seq<char>)
    ensures
        grep_all(hays, pat) == concat(hays.map_values(|h: Seq<char>| matching_lines(lines_of(h), pat))),
    decreases hays.len(),
{
    if hays.len() > 0 {
        lemma_grep_all_concat(hays.drop_last(), pat);
        let f = |h: Seq<char>| matching_lines(lines_of(h), pat);
        assert(hays.map_values(f).drop_last() =~= hays.drop_last().map_values(f));
    }
}

/// The lines of file `f` (resolved against `cwd`) that contain `pat`, each with its newline.
pub open spec fn file_matches(fs: FsModel, cwd: Seq<char>, f: Seq<char>, pat: Seq<char>) -> Seq<char> {
    matching_lines(lines_of(read_spec(fs, resolve_spec(cwd, f))->Ok_0), pat)
}

/// `grep PATTERN F1 .. Fn` over readable files searches every one of them in
/// turn: its output is the lines of F1 that contain the pattern, then those of
/// F2, and so on, the same as running `grep` on each file alone one after the
/// other; it succeeds exactly when some line matched, and changes nothing.
pub proof fn law_grep_searches_every_file(sh: Sh, pat: Seq<char>, files: Seq<Seq<char>>, stdin: Seq<char>)
    requires
        files.len() > 0,
        forall|i: int| 0 <= i < files.len() ==> read_spec(sh.fs, resolve_spec(sh.cwd, #[trigger] files[i])) is Ok,
    ensures
        command_spec(sh, seq!["grep"@, pat] + files, stdin).0 == sh,
        command_spec(sh, seq!["grep"@, pat] + files, stdin).1.stdout == concat(
            Seq::new(files.len(), |i: int| file_matches(sh.fs, sh.cwd, files[i], pat)),
        ),
        command_spec(sh, seq!["grep"@, pat] + files, stdin).1.stdout == concat(
            Seq::new(
                files.len(),
                |i: int| command_spec(sh, seq!["grep"@, pat, files[i]], stdin).1.stdout,
            ),
        ),
        command_spec(sh, seq!["grep"@, pat] + files, stdin).1.stderr.len() == 0,
        command_spec(sh, seq!["grep"@, pat] + files, stdin).1.code == if command_spec(
            sh,
            seq!["grep"@, pat] + files,
            stdin,
        ).1.stdout.len() == 0 {
            1i32
        } else {
            0i32
        },
{
    reveal_strlit("grep");
    let g = "grep"@;
    assert(is_listed_builtin(g));
    let args = seq![pat] + files;
    assert(seq!["grep"@, pat] + files =~= seq![g] + args);
    lemma_command_dispatch(sh, g, args, stdin);
    assert(args[0] == pat);
    assert(args.drop_first() =~= files);
    lemma_read_files_ok(sh.fs, sh.cwd, files, "grep: "@);
    let hays = read_each(sh.fs, sh.cwd, files);
    lemma_grep_all_concat(hays, pat);
    let f = |h: Seq<char>| matching_lines(lines_of(h), pat);
    let per = Seq::new(files.len(), |i: int| file_matches(sh.fs, sh.cwd, files[i], pat));
    assert(hays.map_values(f) =~= per);
    let single = Seq::new(
        files.len(),
        |i: int| command_spec(sh, seq!["grep"@, pat, files[i]], stdin).1.stdout,
    );
    assert forall|i: int| 0 <= i < files.len() implies #[trigger] single[i] == per[i] by {
        let one = seq![files[i]];
        let a1 = seq![pat] + one;
        assert(seq!["grep"@, pat, files[i]] =~= seq![g] + a1);
        lemma_command_dispatch(sh, g, a1, stdin);
        assert(a1[0] == pat);
        assert(a1.drop_first() =~= one);
        assert forall|j: int| 0 <= j < one.len() implies read_spec(sh.fs, resolve_spec(sh.cwd, #[trigger] one[j])) is Ok by {}
        lemma_read_files_ok(sh.fs, sh.cwd, one, "grep: "@);
        let h1 = read_each(sh.fs, sh.cwd, one);
        lemma_grep_all_concat(h1, pat);
        assert(h1.map_values(f) =~= seq![per[i]]);
        assert(seq![per[i]].drop_last() =~= Seq::<Seq<char>>::empty());
        assert(concat(Seq::<Seq<char>>::empty()) == Seq::<char>::empty());
        assert(concat(seq![per[i]]) =~= per[i]);
        assert(grep_all(h1, pat) == per[i]);
        assert(grep_spec(sh.fs, sh.cwd, a1, stdin).stdout == per[i]);
    }
    assert(single =~= per);
}

proof fn lemma_rm_options_plain(args: Seq<Seq<char>>)
    requires
        forall|i: int| 0 <= i < args.len() ==> !is_option(#[trigger] args[i]),
    ensures
        rm_options(args) == (false, args, Seq::<char>::empty(), 0i32),
    decreases args.len(),
{
    if args.len() > 0 {
        let d = args.drop_last();
        assert forall|i: int| 0 <= i < d.len() implies !is_option(#[trigger] d[i]) by {
            assert(d[i] == args[i]);
        }
        lemma_rm_options_plain(d);
        assert(!is_option(args[args.len() - 1]));
        assert(d.push(args.last()) =~= args);
    }
}

proof fn lemma_rm_all_removes(fs: FsModel, cwd: Seq<char>, ops: Seq<Seq<char>>, recursive: bool)
    requires
        is_dir_in(fs, seq!['/']),
    ensures
        forall|k: Seq<char>|
            #![trigger lookup(rm_all(fs, cwd, ops, recursive).0, k)]
            lookup(rm_all(fs, cwd, ops, recursive).0, k) is None || lookup(rm_all(fs, cwd, ops, recursive).0, k)
                == lookup(fs, k),
        forall|i: int|
            0 <= i < ops.len() && is_file_in(fs, normalize(resolve_spec(cwd, #[trigger] ops[i]))) ==> lookup(
                rm_all(fs, cwd, ops, recursive).0,
                normalize(resolve_spec(cwd, ops[i])),
            ) is None,
        rm_all(fs, cwd, ops, recursive).2 == 0 ==> forall|i: int|
            0 <= i < ops.len() ==> lookup(
                rm_all(fs, cwd, ops, recursive).0,
                normalize(resolve_spec(cwd, #[trigger] ops[i])),
            ) is None,
    decreases ops.len(),
{
    if ops.len() > 0 {
        let d = ops.drop_last();
        lemma_rm_all_removes(fs, cwd, d, recursive);
        lemma_rm_all_code(fs, cwd, d, recursive);
        let (m, e, c) = rm_all(fs, cwd, d, recursive);
        let p = resolve_spec(cwd, ops.last());
        let n = normalize(p);
        let fin = rm_all(fs, cwd, ops, recursive).0;
        match remove_spec(m, p, recursive) {
            Ok(m2) => {
                assert(m2 == drop_under(m, n));
                assert forall|k: Seq<char>| #![trigger lookup(fin, k)] lookup(fin, k) is None || lookup(fin, k) == lookup(fs, k) by {
                    lemma_lookup_drop_under(m, n, k);
                }
                lemma_lookup_drop_under(m, n, n);
                assert forall|i: int| 0 <= i < ops.len() && is_file_in(fs, normalize(resolve_spec(cwd, #[trigger] ops[i]))) implies lookup(
                    fin,
                    normalize(resolve_spec(cwd, ops[i])),
                ) is None by {
                    let k = normalize(resolve_spec(cwd, ops[i]));
                    lemma_lookup_drop_under(m, n, k);
                    if i < ops.len() - 1 {
                        assert(d[i] == ops[i]);
                    }
                }
                if rm_all(fs, cwd, ops, recursive).2 == 0 {
                    assert forall|i: int| 0 <= i < ops.len() implies lookup(fin, normalize(resolve_spec(cwd, #[trigger] ops[i]))) is None by {
                        let k = normalize(resolve_spec(cwd, ops[i]));
                        lemma_lookup_drop_under(m, n, k);
                        if i < ops.len() - 1 {
                            assert(d[i] == ops[i]);
                        }
                    }
                }
            },
            Err(_) => {
                assert(fin == m);
                assert forall|i: int| 0 <= i < ops.len() && is_file_in(fs, normalize(resolve_spec(cwd, #[trigger] ops[i]))) implies lookup(
                    fin,
                    normalize(resolve_spec(cwd, ops[i])),
                ) is None by {
                    if i < ops.len() - 1 {
                        assert(d[i] == ops[i]);
                    } else {
                        let k = normalize(resolve_spec(cwd, ops[i]));
                        assert(lookup(m, k) is None || lookup(m, k) == lookup(fs, k));
                        assert(k != seq!['/']);
                    }
                }
            },
        }
    }
}

/// `rm P1 .. Pn` (no options) removes every operand: each that was a file is
/// gone afterwards, and when `rm` succeeds no operand's path exists any more.
/// Nothing appears that was not there, and the environment and directory stay.
pub proof fn law_rm_removes_every_operand(sh: Sh, ops: Seq<Seq<char>>, stdin: Seq<char>)
    requires
        is_dir_in(sh.fs, seq!['/']),
        ops.len() > 0,
        forall|i: int| 0 <= i < ops.len() ==> !is_option(#[trigger] ops[i]),
    ensures
        command_spec(sh, seq!["rm"@] + ops, stdin).0.env == sh.env,
        command_spec(sh, seq!["rm"@] + ops, stdin).0.cwd == sh.cwd,
        forall|i: int|
            0 <= i < ops.len() && is_file_in(sh.fs, normalize(resolve_spec(sh.cwd, #[trigger] ops[i]))) ==> lookup(
                command_spec(sh, seq!["rm"@] + ops, stdin).0.fs,
                normalize(resolve_spec(sh.cwd, ops[i])),
            ) is None,
        command_spec(sh, seq!["rm"@] + ops, stdin).1.code == 0 ==> forall|i: int|
            0 <= i < ops.len() ==> lookup(
                command_spec(sh, seq!["rm"@] + ops, stdin).0.fs,
                normalize(resolve_spec(sh.cwd, #[trigger] ops[i])),
            ) is None,
        forall|k: Seq<char>|
            #![trigger lookup(command_spec(sh, seq!["rm"@] + ops, stdin).0.fs, k)]
            lookup(command_spec(sh, seq!["rm"@] + ops, stdin).0.fs, k) is None || lookup(
                command_spec(sh, seq!["rm"@] + ops, stdin).0.fs,
                k,
            ) == lookup(sh.fs, k),
{
    reveal_strlit("rm");
    let r = "rm"@;
    assert(is_listed_builtin(r));
    lemma_command_dispatch(sh, r, ops, stdin);
    lemma_rm_options_plain(ops);
    lemma_rm_all_removes(sh.fs, sh.cwd, ops, false);
}

/// `NAME=value` words set their names in turn: the last word for a name wins,
/// and a name that no word sets keeps its value.
pub proof fn lemma_export_all_sets(env: EnvModel, args: Seq<Seq<char>>)
    ensures
        forall|i: int|
            0 <= i < args.len() && find_from(#[trigger] args[i], 0, '=') < args[i].len() && (forall|j: int|
                i < j < args.len() && find_from(args[j], 0, '=') < args[j].len() ==> split_key(#[trigger] args[j])
                    != split_key(args[i])) ==> lookup(export_all(env, args), split_key(args[i])) == Some(
                split_value(args[i]),
            ),
        forall|n: Seq<char>|
            (forall|i: int|
                0 <= i < args.len() && find_from(args[i], 0, '=') < args[i].len() ==> split_key(#[trigger] args[i])
                    != n) ==> #[trigger] lookup(export_all(env, args), n) == lookup(env, n),
    decreases args.len(),
{
    if args.len() > 0 {
        let d = args.drop_last();
        lemma_export_all_sets(env, d);
        let e = export_all(env, d);
        let a = args.last();
        let last = args.len() - 1;
        assert(args[last] == a);
        assert forall|i: int|
            0 <= i < args.len() && find_from(#[trigger] args[i], 0, '=') < args[i].len() && (forall|j: int|
                i < j < args.len() && find_from(args[j], 0, '=') < args[j].len() ==> split_key(#[trigger] args[j])
                    != split_key(args[i])) implies lookup(export_all(env, args), split_key(args[i])) == Some(
            split_value(args[i]),
        ) by {
            if find_from(a, 0, '=') < a.len() {
                law_lookup_after_insert(e, split_key(a), split_value(a), split_key(args[i]));
            }
            if i < last {
                assert(d[i] == args[i]);
                if find_from(a, 0, '=') < a.len() {
                    assert(split_key(args[last]) != split_key(args[i]));
                }
                assert forall|j: int|
                    i < j < d.len() && find_from(d[j], 0, '=') < d[j].len() implies split_key(#[trigger] d[j])
                        != split_key(d[i]) by {
                    assert(d[j] == args[j]);
                }
            }
        }
        assert forall|n: Seq<char>|
            (forall|i: int|
                0 <= i < args.len() && find_from(args[i], 0, '=') < args[i].len() ==> split_key(#[trigger] args[i])
                    != n) implies #[trigger] lookup(export_all(env, args), n) == lookup(env, n) by {
            if find_from(a, 0, '=') < a.len() {
                law_lookup_after_insert(e, split_key(a), split_value(a), n);
            }
            assert forall|i: int|
                0 <= i < d.len() && find_from(d[i], 0, '=') < d[i].len() implies split_key(#[trigger] d[i]) != n by {
                assert(d[i] == args[i]);
            }
        }
    }
}

/// `export W1 .. Wn` sets every `NAME=value` word: each name gets the value of
/// the last word that sets it, and every other name keeps its value; the
/// filesystem and directory stay, and the status is 0.
pub proof fn law_export_sets_every_word(sh: Sh, args: Seq<Seq<char>>, stdin: Seq<char>)
    ensures
        forall|i: int|
            0 <= i < args.len() && find_from(#[trigger] args[i], 0, '=') < args[i].len() && (forall|j: int|
                i < j < args.len() && find_from(args[j], 0, '=') < args[j].len() ==> split_key(#[trigger] args[j])
                    != split_key(args[i])) ==> lookup(
                command_spec(sh, seq!["export"@] + args, stdin).0.env,
                split_key(args[i]),
            ) == Some(split_value(args[i])),
        forall|n: Seq<char>|
            (forall|i: int|
                0 <= i < args.len() && find_from(args[i], 0, '=') < args[i].len() ==> split_key(#[trigger] args[i])
                    != n) ==> #[trigger] lookup(command_spec(sh, seq!["export"@] + args, stdin).0.env, n) == lookup(
                sh.env,
                n,
            ),
        command_spec(sh, seq!["export"@] + args, stdin).0.fs == sh.fs,
        command_spec(sh, seq!["export"@] + args, stdin).0.cwd == sh.cwd,
        command_spec(sh, seq!["export"@] + args, stdin).1 == ok_out(Seq::empty(), 0),
{
    reveal_strlit("export");
    let x = "export"@;
    assert(is_listed_builtin(x));
    lemma_command_dispatch(sh, x, args, stdin);
    lemma_export_all_sets(sh.env, args);
}

/// A command made only of `NAME=value` words sets every one of them: each name
/// gets the value of the last word that sets it, and every other name keeps
/// its value; nothing is printed and the status is 0.
pub proof fn law_assignments_set_every_word(sh: Sh, words: Seq<Seq<char>>, stdin: Seq<char>)
    requires
        words.len() > 0,
        forall|i: int| 0 <= i < words.len() ==> is_assignment_spec(#[trigger] words[i]),
    ensures
        forall|i: int|
            0 <= i < words.len() && (forall|j: int|
                i < j < words.len() ==> split_key(#[trigger] words[j]) != split_key(words[i])) ==> lookup(
                command_spec(sh, words, stdin).0.env,
                #[trigger] split_key(words[i]),
            ) == Some(split_value(words[i])),
        forall|n: Seq<char>|
            (forall|i: int| 0 <= i < words.len() ==> split_key(#[trigger] words[i]) != n) ==> #[trigger] lookup(
                command_spec(sh, words, stdin).0.env,
                n,
            ) == lookup(sh.env, n),
        command_spec(sh, words, stdin).0.fs == sh.fs,
        command_spec(sh, words, stdin).0.cwd == sh.cwd,
        command_spec(sh, words, stdin).1 == ok_out(Seq::empty(), 0),
{
    reveal(command_spec);
    assert(all_assignments(words));
    lemma_export_all_sets(sh.env, words);
    assert forall|i: int| 0 <= i < words.len() implies find_from(#[trigger] words[i], 0, '=') < words[i].len() by {
        assert(is_assignment_spec(words[i]));
    }
}

proof fn lemma_resolve_normal(cwd: Seq<char>, p: Seq<char>)
    requires
        normalize(cwd) == cwd,
    ensures
        normalize(resolve_spec(cwd, p)) == resolve_spec(cwd, p),
{
    law_resolve_path(cwd, p);
    law_normalize_idempotent(p);
    law_normalize_idempotent(cwd + seq!['/'] + p);
    law_parent_of_normalized(cwd);
}

/// What `touch` leaves at a path: what it held before, or nothing if it held no file.
pub open spec fn touched(fs: FsModel, p: Seq<char>) -> Seq<char> {
    match read_spec(fs, p) {
        Ok(t) => t,
        Err(_) => Seq::empty(),
    }
}

#[verifier::rlimit(40)]
proof fn lemma_touch_all_files(fs: FsModel, cwd: Seq<char>, args: Seq<Seq<char>>)
    requires
        normalize(cwd) == cwd,
    ensures
        forall|k: Seq<char>|
            (forall|i: int| 0 <= i < args.len() ==> resolve_spec(cwd, #[trigger] args[i]) != k) ==> #[trigger] lookup(
                touch_all(fs, cwd, args).0,
                k,
            ) == lookup(fs, k),
        touch_all(fs, cwd, args).2 == 0 ==> forall|i: int|
            0 <= i < args.len() ==> read_spec(touch_all(fs, cwd, args).0, resolve_spec(cwd, #[trigger] args[i]))
                == Ok::<Seq<char>, Seq<char>>(touched(fs, resolve_spec(cwd, args[i]))),
    decreases args.len(),
{
    if args.len() > 0 {
        let d = args.drop_last();
        lemma_touch_all_files(fs, cwd, d);
        lemma_touch_code(fs, cwd, d);
        let (m, e, c) = touch_all(fs, cwd, d);
        let last = args.len() - 1;
        let path = resolve_spec(cwd, args[last]);
        assert(args.last() == args[last]);
        lemma_resolve_normal(cwd, args[last]);
        let existing = match read_spec(m, path) {
            Ok(t) => t,
            Err(_) => Seq::<char>::empty(),
        };
        let fin = touch_all(fs, cwd, args).0;
        if c == 0 {
            assert(existing == touched(fs, path)) by {
                if exists|i: int| 0 <= i < d.len() && resolve_spec(cwd, #[trigger] d[i]) == path {
                    let i = choose|i: int| 0 <= i < d.len() && resolve_spec(cwd, #[trigger] d[i]) == path;
                    assert(read_spec(m, resolve_spec(cwd, d[i])) == Ok::<Seq<char>, Seq<char>>(touched(fs, resolve_spec(cwd, d[i]))));
                } else {
                    assert(lookup(m, path) == lookup(fs, path));
                }
            }
        }
        match write_spec(m, path, existing) {
            Ok(m2) => {
                assert(m2 == sorted_insert(m, path, FsNode::File(existing)));
                assert forall|k: Seq<char>|
                    (forall|i: int| 0 <= i < args.len() ==> resolve_spec(cwd, #[trigger] args[i]) != k) implies #[trigger] lookup(
                    fin,
                    k,
                ) == lookup(fs, k) by {
                    law_lookup_after_insert(m, path, FsNode::File(existing), k);
                    assert(resolve_spec(cwd, args[last]) != k);
                    assert forall|i: int| 0 <= i < d.len() implies resolve_spec(cwd, #[trigger] d[i]) != k by {
                        assert(d[i] == args[i]);
                    }
                }
                if touch_all(fs, cwd, args).2 == 0 {
                    assert forall|i: int| 0 <= i < args.len() implies read_spec(fin, resolve_spec(cwd, #[trigger] args[i]))
                        == Ok::<Seq<char>, Seq<char>>(touched(fs, resolve_spec(cwd, args[i]))) by {
                        let k = resolve_spec(cwd, args[i]);
                        law_lookup_after_insert(m, path, FsNode::File(existing), k);
                        if i < last {
                            assert(d[i] == args[i]);
                            if k == path {
                                assert(read_spec(m, k) == Ok::<Seq<char>, Seq<char>>(touched(fs, k)));
                            }
                        }
                    }
                }
            },
            Err(_) => {
                assert forall|k: Seq<char>|
                    (forall|i: int| 0 <= i < args.len() ==> resolve_spec(cwd, #[trigger] args[i]) != k) implies #[trigger] lookup(
                    fin,
                    k,
                ) == lookup(fs, k) by {
                    assert forall|i: int| 0 <= i < d.len() implies resolve_spec(cwd, #[trigger] d[i]) != k by {
                        assert(d[i] == args[i]);
                    }
                }
            },
        }
    }
}

/// `touch P1 .. Pn` that succeeds leaves every operand a file holding what it
/// held before (nothing, if it was not a file), and no other path changes.
pub proof fn law_touch_makes_every_operand_a_file(sh: Sh, args: Seq<Seq<char>>, stdin: Seq<char>)
    requires
        normalize(sh.cwd) == sh.cwd,
    ensures
        command_spec(sh, seq!["touch"@] + args, stdin).1.code == 0 ==> forall|i: int|
            0 <= i < args.len() ==> read_spec(
                command_spec(sh, seq!["touch"@] + args, stdin).0.fs,
                resolve_spec(sh.cwd, #[trigger] args[i]),
            ) == Ok::<Seq<char>, Seq<char>>(touched(sh.fs, resolve_spec(sh.cwd, args[i]))),
        forall|k: Seq<char>|
            (forall|i: int| 0 <= i < args.len() ==> resolve_spec(sh.cwd, #[trigger] args[i]) != k) ==> #[trigger] lookup(
                command_spec(sh, seq!["touch"@] + args, stdin).0.fs,
                k,
            ) == lookup(sh.fs, k),
        command_spec(sh, seq!["touch"@] + args, stdin).0.env == sh.env,
        command_spec(sh, seq!["touch"@] + args, stdin).0.cwd == sh.cwd,
{
    reveal_strlit("touch");
    let t = "touch"@;
    assert(is_listed_builtin(t));
    lemma_command_dispatch(sh, t, args, stdin);
    lemma_touch_all_files(sh.fs, sh.cwd, args);
}

/// Against a normalized directory, an absolute path resolves to its normal
/// form and any other path to the normal form of the directory, `/` and the
/// path; so `.` gives the directory and `..` its parent.
pub proof fn law_resolve_path(cwd: Seq<char>, p: Seq<char>)
    requires
        normalize(cwd) == cwd,
    ensures
        resolve_spec(cwd, p) == if p.len() > 0 && p[0] == '/' {
            normalize(p)
        } else {
            normalize(cwd + seq!['/'] + p)
        },
        resolve_spec(cwd, seq!['.']) == cwd,
        resolve_spec(cwd, seq!['.', '.']) == parent_of(cwd),
{
    lemma_step_after(cwd, seq!['.']);
    lemma_step_after(cwd, seq!['.', '.']);
}



}

verus! {

// ─── The filesystem stays a tree ────────────────────────────────────────────

proof fn lemma_mkdir_tree(
    fs: FsModel,
    cwd: Seq<char>,
    args: Seq<Seq<char>>,
    i: int,
    parents: bool,
    saw: bool,
    err: Seq<char>,
    code: i32,
)
    requires
        fs_tree(fs),
    ensures
        fs_tree(mkdir_from(fs, cwd, args, i, parents, saw, err, code).0),
    decreases args.len() - i,
{
    if 0 <= i < args.len() {
        if args[i] == "-p"@ {
            lemma_mkdir_tree(fs, cwd, args, i + 1, true, saw, err, code);
        } else {
            let path = resolve_spec(cwd, args[i]);
            law_operations_keep_tree(fs, path, Seq::empty(), false);
            if parents {
                let (m, e) = create_all_spec(fs, path);
                match e {
                    None => lemma_mkdir_tree(m, cwd, args, i + 1, parents, true, err, code),
                    Some(msg) => lemma_mkdir_tree(m, cwd, args, i + 1, parents, true, err + err_line("mkdir: "@, msg), 1),
                }
            } else {
                match create_dir_spec(fs, path) {
                    Ok(m) => lemma_mkdir_tree(m, cwd, args, i + 1, parents, true, err, code),
                    Err(msg) => lemma_mkdir_tree(fs, cwd, args, i + 1, parents, true, err + err_line("mkdir: "@, msg), 1),
                }
            }
        }
    }
}

proof fn lemma_touch_tree(fs: FsModel, cwd: Seq<char>, args: Seq<Seq<char>>)
    requires
        fs_tree(fs),
    ensures
        fs_tree(touch_all(fs, cwd, args).0),
    decreases args.len(),
{
    if args.len() > 0 {
        lemma_touch_tree(fs, cwd, args.drop_last());
        let (m, e, c) = touch_all(fs, cwd, args.drop_last());
        let path = resolve_spec(cwd, args.last());
        let existing = match read_spec(m, path) {
            Ok(t) => t,
            Err(_) => Seq::empty(),
        };
        law_operations_keep_tree(m, path, existing, false);
    }
}

proof fn lemma_rm_tree(fs: FsModel, cwd: Seq<char>, ops: Seq<Seq<char>>, recursive: bool)
    requires
        fs_tree(fs),
    ensures
        fs_tree(rm_all(fs, cwd, ops, recursive).0),
    decreases ops.len(),
{
    if ops.len() > 0 {
        lemma_rm_tree(fs, cwd, ops.drop_last(), recursive);
        let (m, e, c) = rm_all(fs, cwd, ops.drop_last(), recursive);
        law_operations_keep_tree(m, resolve_spec(cwd, ops.last()), Seq::empty(), recursive);
    }
}

/// The filesystem after a command: only `mkdir`, `touch`, `cp` and `rm` change it.
spec fn command_fs(sh: Sh, words: Seq<Seq<char>>) -> FsModel {
    if words.len() == 0 || all_assignments(words) {
        sh.fs
    } else {
        let cmd = words[0];
        let args = words.drop_first();
        if cmd == "mkdir"@ {
            mkdir_spec(sh, args).0.fs
        } else if cmd == "touch"@ {
            touch_spec(sh, args).0.fs
        } else if cmd == "cp"@ {
            cp_spec(sh.fs, sh.cwd, args).0
        } else if cmd == "rm"@ {
            rm_spec(sh.fs, sh.cwd, args).0
        } else {
            sh.fs
        }
    }
}

proof fn lemma_command_fs(sh: Sh, words: Seq<Seq<char>>, stdin: Seq<char>)
    ensures
        command_spec(sh, words, stdin).0.fs == command_fs(sh, words),
{
    reveal(command_spec);
    reveal_strlit("true");
    reveal_strlit("false");
    reveal_strlit("exit");
    reveal_strlit("echo");
    reveal_strlit("printf");
    reveal_strlit("pwd");
    reveal_strlit("cd");
    reveal_strlit("cat");
    reveal_strlit("grep");
    reveal_strlit("wc");
    reveal_strlit("ls");
    reveal_strlit("mkdir");
    reveal_strlit("touch");
    reveal_strlit("cp");
    reveal_strlit("rm");
    reveal_strlit("export");
    reveal_strlit("env");
    assert("true"@.len() == 4 && "true"@[0] == 't' && "true"@[1] == 'r');
    assert("false"@.len() == 5 && "false"@[0] == 'f' && "false"@[1] == 'a');
    assert("exit"@.len() == 4 && "exit"@[0] == 'e' && "exit"@[1] == 'x');
    assert("echo"@.len() == 4 && "echo"@[0] == 'e' && "echo"@[1] == 'c');
    assert("printf"@.len() == 6 && "printf"@[0] == 'p' && "printf"@[1] == 'r');
    assert("pwd"@.len() == 3 && "pwd"@[0] == 'p' && "pwd"@[1] == 'w');
    assert("cd"@.len() == 2 && "cd"@[0] == 'c' && "cd"@[1] == 'd');
    assert("cat"@.len() == 3 && "cat"@[0] == 'c' && "cat"@[1] == 'a');
    assert("grep"@.len() == 4 && "grep"@[0] == 'g' && "grep"@[1] == 'r');
    assert("wc"@.len() == 2 && "wc"@[0] == 'w' && "wc"@[1] == 'c');
    assert("ls"@.len() == 2 && "ls"@[0] == 'l' && "ls"@[1] == 's');
    assert("mkdir"@.len() == 5 && "mkdir"@[0] == 'm' && "mkdir"@[1] == 'k');
    assert("touch"@.len() == 5 && "touch"@[0] == 't' && "touch"@[1] == 'o');
    assert("cp"@.len() == 2 && "cp"@[0] == 'c' && "cp"@[1] == 'p');
    assert("rm"@.len() == 2 && "rm"@[0] == 'r' && "rm"@[1] == 'm');
    assert("export"@.len() == 6 && "export"@[0] == 'e' && "export"@[1] == 'x');
    assert("env"@.len() == 3 && "env"@[0] == 'e' && "env"@[1] == 'n');
}

proof fn lemma_finish_tree(fs: FsModel, target: Option<(RedirectMode, Seq<char>)>, o: CmdOut)
    requires
        fs_tree(fs),
    ensures
        fs_tree(finish_output(fs, target, o).0),
{
    match target {
        None => {},
        Some((mode, path)) => law_operations_keep_tree(fs, path, o.stdout, false),
    }
}

proof fn lemma_command_tree(sh: Sh, words: Seq<Seq<char>>, stdin: Seq<char>)
    requires
        fs_tree(sh.fs),
    ensures
        fs_tree(command_spec(sh, words, stdin).0.fs),
{
    lemma_command_fs(sh, words, stdin);
    if words.len() > 0 && !all_assignments(words) {
        let args = words.drop_first();
        lemma_mkdir_tree(sh.fs, sh.cwd, args, 0, false, false, Seq::empty(), 0);
        lemma_touch_tree(sh.fs, sh.cwd, args);
        if args.len() == 2 {
            match read_spec(sh.fs, resolve_spec(sh.cwd, args[0])) {
                Ok(c) => law_operations_keep_tree(sh.fs, resolve_spec(sh.cwd, args[1]), c, false),
                Err(_) => {},
            }
        }
        let (rec, ops, e, c) = rm_options(args);
        lemma_rm_tree(sh.fs, sh.cwd, ops, rec);
    }
}

/// Whatever a script does, the filesystem stays a tree: an `exec` that starts
/// over a tree leaves a tree.
pub proof fn law_exec_keeps_tree(start: Sh, limits: BashExecutionLimits, script: Seq<char>)
    requires
        fs_tree(start.fs),
    ensures
        fs_tree(exec_spec(start, limits, script).0.fs),
{
    match script_spec(script, ParseLimits { max_command_substitution_depth: limits.max_command_substitution_depth }) {
        Ok(stmts) => {
            let r0 = Run {
                sh: start,
                out: Seq::empty(),
                err: Seq::empty(),
                fuel: limits.max_command_count as nat,
                depth: limits.max_command_substitution_depth,
            };
            lemma_list_facts(r0, stmts, 0, 0);
        },
        Err(_) => {},
    }
}

}
