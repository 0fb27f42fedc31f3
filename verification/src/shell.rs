use vstd::prelude::*;

use crate::expand::{
    env_of, expand_text, format_printf, has_equals, is_assignment, is_assignment_spec,
    lemma_env_insert, lemma_lookup_env, split_assignment, EnvModel,
};
use crate::parser::{
    commands_view, for_view, if_view, parse_script_with_limits, redirects_view, stmt_view, stmts_view,
    while_view, words_view, CommandInvocation, ForStatement, IfStatement, KindV, ParseLimits,
    PipelineConnector, Redirect, RedirectMode, Statement, StatementKind, WhileStatement, Word,
    WordPartKind,
};
use crate::fs::{fs_tree, new_fs_spec, fs_err, normalize, string_pairs, list_spec, normalize_chars, parent_chars, BashError, InMemoryFs};
use crate::semantics::{
    all_assignments, cat_spec, cd_spec, command_spec, cp_spec, mkdir_from, mkdir_spec, rm_all, rm_options, rm_spec,
    touch_all, touch_spec, elifs_run, expand_parts, expand_words, plain_from, finish_output, for_run,
    for_values, if_run, invocation_spec, pipeline_spec, redir_from, run_list_spec, stmt_spec,
    strip_newlines, subst_spec, while_run, Flow, Run, exec_spec, start_state,
    with_defaults, law_exec_keeps_tree, spend, echo_spec, env_listing, err_line, exit_status, export_all,
    grep_all, grep_spec, is_option, is_rm_flag, ls_spec, matching_lines, option_ok,
    option_recursive, printf_spec, read_each, read_files, resolve_spec, wc_spec, CmdOut, Sh,
};
use crate::strmap::{sorted_insert, strictly_sorted, StringMap};
use crate::text::{
    contains, join, count_newlines_and_words, eq_str, extend_chars, extend_from, join_chars,
    lines, parse_i32, push_decimal, slice_chars, string_from_chars, tail, to_chars, views,
};

verus! {

// ─── Public types ───────────────────────────────────────────────────────────

#[derive(Debug, Clone, PartialEq, Eq)]
pub struct BashExecResult {
    pub stdout: String,
    pub stderr: String,
    pub exit_code: i32,
    pub cwd: String,
}

/// Limits on one `exec`.
#[derive(Debug, Clone, Copy, PartialEq, Eq, Structural)]
pub struct BashExecutionLimits {
    /// Longest script accepted, in bytes.
    pub max_script_size_bytes: usize,
    /// Commands allowed in one `exec`: each command of a pipeline counts
    /// once, and so does each `if`, `while` or `for` compound command.
    pub max_command_count: usize,
    /// Deepest nesting of command substitutions.
    pub max_command_substitution_depth: usize,
}

impl Default for BashExecutionLimits {
    fn default() -> (r: Self)
        ensures
            r.max_script_size_bytes == 1_048_576,
            r.max_command_count == 10_000,
            r.max_command_substitution_depth == 50,
    {
        BashExecutionLimits {
            max_script_size_bytes: 1_048_576,
            max_command_count: 10_000,
            max_command_substitution_depth: 50,
        }
    }
}

#[derive(Debug, Clone, PartialEq, Eq)]
pub struct BashOptions {
    pub files: StringMap<String>,
    pub env: StringMap<String>,
    pub cwd: Option<String>,
    /// Each `exec` starts from the initial environment and directory
    /// (the filesystem is shared either way).
    pub isolate_exec: bool,
    pub limits: BashExecutionLimits,
}

impl Default for BashOptions {
    fn default() -> (r: Self)
        ensures
            r.files@.len() == 0,
            r.env@.len() == 0,
            r.cwd is None,
            r.isolate_exec,
            r.limits == (BashExecutionLimits {
                max_script_size_bytes: 1_048_576,
                max_command_count: 10_000,
                max_command_substitution_depth: 50,
            }),
    {
        BashOptions {
            files: StringMap::new(),
            env: StringMap::new(),
            cwd: None,
            isolate_exec: true,
            limits: BashExecutionLimits::default(),
        }
    }
}

/// A shell: a filesystem, an environment and a working directory.
#[derive(Debug, Clone)]
pub struct Bash {
    fs: InMemoryFs,
    env: StringMap<String>,
    cwd: String,
    initial_env: StringMap<String>,
    initial_cwd: String,
    isolate_exec: bool,
    limits: BashExecutionLimits,
}

struct CommandOutput {
    stdout: Vec<char>,
    stderr: Vec<char>,
    exit_code: i32,
}

spec fn out_view(o: CommandOutput) -> CmdOut {
    CmdOut { stdout: o.stdout@, stderr: o.stderr@, code: o.exit_code }
}

fn copy_env(m: &StringMap<String>) -> (r: StringMap<String>)
    ensures
        env_of(r@) == env_of(m@),
{
    proof {
        use_type_invariant(m);
    }
    let mut r: StringMap<String> = StringMap::new();
    let mut i: usize = 0;
    while i < m.len()
        invariant
            i <= m@.len(),
            strictly_sorted(m@),
            r@.len() == i,
            forall|j: int| 0 <= j < i ==> #[trigger] r@[j].0 == m@[j].0 && r@[j].1@ == m@[j].1@,
        decreases m@.len() - i,
    {
        let k = copy_chars(m.key_at(i));
        let v = m.value_at(i).clone();
        proof {
            if i > 0 {
                assert(r@.last().0 == m@[i - 1].0);
            }
        }
        r.push_back(k, v);
        i += 1;
    }
    assert(env_of(r@) =~= env_of(m@));
    r
}

fn error_chars(prefix: &str, e: &BashError) -> (r: Vec<char>)
    ensures
        r@ == err_line(prefix@, e.message()),
{
    let mut r = to_chars(prefix);
    let m = e.to_string();
    extend_chars(&mut r, m.as_str());
    r.push('\n');
    r
}

impl Bash {
    pub closed spec fn sh(&self) -> Sh {
        Sh { fs: self.fs@, env: env_of(self.env@), cwd: self.cwd@ }
    }

    /// The environment and directory that each isolated `exec` starts from.
    pub closed spec fn initial_env(&self) -> EnvModel {
        env_of(self.initial_env@)
    }

    pub closed spec fn initial_cwd(&self) -> Seq<char> {
        self.initial_cwd@
    }

    pub closed spec fn isolated(&self) -> bool {
        self.isolate_exec
    }

    pub closed spec fn limits(&self) -> BashExecutionLimits {
        self.limits
    }

    fn resolve_path(&self, path: &[char]) -> (r: Vec<char>)
        ensures
            r@ == resolve_spec(self.cwd@, path@),
    {
        if path.len() > 0 && path[0] == '/' {
            normalize_chars(path)
        } else if path.len() == 1 && path[0] == '.' {
            assert(path@ =~= seq!['.']);
            to_chars(self.cwd.as_str())
        } else if path.len() == 2 && path[0] == '.' && path[1] == '.' {
            assert(path@ =~= seq!['.', '.']);
            let c = to_chars(self.cwd.as_str());
            parent_chars(&c)
        } else {
            proof {
                if path@ == seq!['.'] {
                    assert(path@[0] == '.');
                }
                if path@ == seq!['.', '.'] {
                    assert(path@[0] == '.' && path@[1] == '.');
                }
            }
            let mut joined = to_chars(self.cwd.as_str());
            joined.push('/');
            extend_from(&mut joined, path);
            assert(joined@ =~= self.cwd@ + seq!['/'] + path@);
            normalize_chars(&joined)
        }
    }

    fn read_files(&self, files: &Vec<Vec<char>>, prefix: &str) -> (r: (Vec<char>, Vec<char>, i32))
        ensures
            (r.0@, r.1@, r.2) == read_files(self.fs@, self.cwd@, views(files@), prefix@),
    {
        let ghost fv = views(files@);
        let mut out: Vec<char> = Vec::new();
        let mut err: Vec<char> = Vec::new();
        let mut code: i32 = 0;
        let mut i: usize = 0;
        while i < files.len()
            invariant
                i <= files@.len(),
                fv == views(files@),
                (out@, err@, code) == read_files(self.fs@, self.cwd@, fv.take(i as int), prefix@),
            decreases files.len() - i,
        {
            assert(fv.take(i + 1).drop_last() == fv.take(i as int));
            assert(fv.take(i + 1).last() == files@[i as int]@);
            let path = self.resolve_path(&files[i]);
            match self.fs.read_chars(&path) {
                Ok(contents) => {
                    extend_chars(&mut out, contents);
                },
                Err(e) => {
                    let line = error_chars(prefix, &e);
                    extend_from(&mut err, &line);
                    code = 1;
                },
            }
            i += 1;
        }
        assert(fv.take(files@.len() as int) == fv);
        (out, err, code)
    }

    fn read_each(&self, files: &Vec<Vec<char>>) -> (r: Vec<Vec<char>>)
        ensures
            views(r@) == read_each(self.fs@, self.cwd@, views(files@)),
    {
        let ghost fv = views(files@);
        let mut out: Vec<Vec<char>> = Vec::new();
        let mut i: usize = 0;
        while i < files.len()
            invariant
                i <= files@.len(),
                fv == views(files@),
                views(out@) == read_each(self.fs@, self.cwd@, fv.take(i as int)),
            decreases files.len() - i,
        {
            assert(fv.take(i + 1).drop_last() == fv.take(i as int));
            assert(fv.take(i + 1).last() == files@[i as int]@);
            let path = self.resolve_path(&files[i]);
            match self.fs.read_chars(&path) {
                Ok(contents) => {
                    let ghost before = views(out@);
                    out.push(to_chars(contents));
                    assert(views(out@) =~= before.push(contents@));
                },
                Err(_) => {},
            }
            i += 1;
        }
        assert(fv.take(files@.len() as int) == fv);
        out
    }

    fn grep(&self, args: &Vec<Vec<char>>, stdin: &[char]) -> (r: CommandOutput)
        ensures
            out_view(r) == grep_spec(self.fs@, self.cwd@, views(args@), stdin@),
    {
        if args.len() == 0 {
            return CommandOutput {
                stdout: Vec::new(),
                stderr: to_chars("grep: usage: grep PATTERN [FILE...]\n"),
                exit_code: 2,
            };
        }
        let pattern = &args[0];
        let files = tail(args);
        let (haystacks, err, code) = if args.len() == 1 {
            let mut h: Vec<Vec<char>> = Vec::new();
            h.push(slice_chars(stdin, 0, stdin.len()));
            assert(stdin@.subrange(0, stdin@.len() as int) == stdin@);
            assert(views(h@) =~= seq![stdin@]);
            (h, Vec::new(), 0i32)
        } else {
            let (_, e, c) = self.read_files(&files, "grep: ");
            (self.read_each(&files), e, c)
        };
        if code != 0 {
            return CommandOutput { stdout: Vec::new(), stderr: err, exit_code: code };
        }
        let ghost hv = views(haystacks@);
        let mut stdout: Vec<char> = Vec::new();
        let mut k: usize = 0;
        while k < haystacks.len()
            invariant
                k <= haystacks@.len(),
                hv == views(haystacks@),
                stdout@ == grep_all(hv.take(k as int), pattern@),
            decreases haystacks.len() - k,
        {
            assert(hv.take(k + 1).drop_last() == hv.take(k as int));
            assert(hv.take(k + 1).last() == haystacks@[k as int]@);
            let ls = lines(&haystacks[k]);
            let ghost lv = views(ls@);
            let ghost start = stdout@;
            let mut j: usize = 0;
            while j < ls.len()
                invariant
                    j <= ls@.len(),
                    lv == views(ls@),
                    stdout@ == start + matching_lines(lv.take(j as int), pattern@),
                decreases ls.len() - j,
            {
                assert(lv.take(j + 1).drop_last() == lv.take(j as int));
                assert(lv.take(j + 1).last() == ls@[j as int]@);
                if contains(&ls[j], pattern) {
                    extend_from(&mut stdout, &ls[j]);
                    stdout.push('\n');
                }
                j += 1;
            }
            assert(lv.take(ls@.len() as int) == lv);
            k += 1;
        }
        assert(hv.take(haystacks@.len() as int) == hv);
        let exit_code = if stdout.len() == 0 { 1 } else { 0 };
        CommandOutput { stdout, stderr: err, exit_code }
    }

    fn wc(&self, args: &Vec<Vec<char>>, stdin: &[char]) -> (r: CommandOutput)
        ensures
            out_view(r) == wc_spec(self.fs@, self.cwd@, views(args@), stdin@),
    {
        let (input, stderr, exit_code) = if args.len() == 0 {
            let c = slice_chars(stdin, 0, stdin.len());
            assert(stdin@.subrange(0, stdin@.len() as int) == stdin@);
            (c, Vec::new(), 0i32)
        } else {
            self.read_files(args, "wc: ")
        };
        let mut stdout: Vec<char> = Vec::new();
        if exit_code == 0 {
            let (lines, words) = count_newlines_and_words(&input);
            let s = string_from_chars(&input);
            let st = s.as_str();
            let bytes = st.len();
            assert(st@ == input@);
            assert(bytes == (vstd::utf8::encode_utf8(input@).len() as usize));
            push_decimal(&mut stdout, lines);
            stdout.push(' ');
            push_decimal(&mut stdout, words);
            stdout.push(' ');
            push_decimal(&mut stdout, bytes);
            stdout.push('\n');
            assert(stdout@ =~= crate::semantics::wc_line(input@));
        }
        assert(views(args@).len() == args@.len());
        assert((input@, stderr@, exit_code) == (if views(args@).len() == 0 {
            (stdin@, Seq::<char>::empty(), 0i32)
        } else {
            read_files(self.fs@, self.cwd@, views(args@), "wc: "@)
        }));
        CommandOutput { stdout, stderr, exit_code }
    }

    fn ls(&self, args: &Vec<Vec<char>>) -> (r: CommandOutput)
        ensures
            out_view(r) == ls_spec(self.fs@, self.cwd@, views(args@)),
    {
        let target = if args.len() > 0 {
            slice_chars(&args[0], 0, args[0].len())
        } else {
            let mut t: Vec<char> = Vec::new();
            t.push('.');
            t
        };
        assert(args@.len() > 0 ==> args@[0]@.subrange(0, args@[0]@.len() as int) == args@[0]@);
        assert(args@.len() > 0 ==> views(args@)[0] == args@[0]@);
        assert(args@.len() == 0 ==> target@ =~= seq!['.']);
        assert(target@ == (if views(args@).len() > 0 { views(args@)[0] } else { seq!['.'] }));
        let path = self.resolve_path(&target);
        let mut stdout: Vec<char> = Vec::new();
        if self.fs.is_file_chars(&path) {
            extend_from(&mut stdout, &target);
            stdout.push('\n');
            assert(stdout@ =~= target@ + seq!['\n']);
            return CommandOutput { stdout, stderr: Vec::new(), exit_code: 0 };
        }
        match self.fs.list_dir_chars(&path) {
            Ok(names) => {
                let mut nv: Vec<Vec<char>> = Vec::new();
                let mut i: usize = 0;
                while i < names.len()
                    invariant
                        i <= names@.len(),
                        nv@.len() == i,
                        forall|j: int| 0 <= j < i ==> #[trigger] nv@[j]@ == names@[j]@,
                    decreases names.len() - i,
                {
                    nv.push(to_chars(names[i].as_str()));
                    i += 1;
                }
                assert(views(nv@) =~= names@.map_values(|s: String| s@));
                let sep: [char; 1] = ['\n'];
                assert(sep@ =~= seq!['\n']);
                let joined = join_chars(&nv, &sep);
                extend_from(&mut stdout, &joined);
                if names.len() > 0 {
                    stdout.push('\n');
                }
                proof {
                    let spec_names = match list_spec(self.fs@, path@) { Ok(n) => n, Err(_) => Seq::empty() };
                    assert(views(nv@) == spec_names);
                    assert(names@.len() == spec_names.len());
                    if names@.len() > 0 {
                        assert(stdout@ =~= join(spec_names, seq!['\n']) + seq!['\n']);
                    } else {
                        assert(stdout@ =~= join(spec_names, seq!['\n']));
                    }
                }
                CommandOutput { stdout, stderr: Vec::new(), exit_code: 0 }
            },
            Err(e) => CommandOutput { stdout, stderr: error_chars("ls: ", &e), exit_code: 1 },
        }
    }
}

}

verus! {

// ─── Built-in commands ──────────────────────────────────────────────────────

fn copy_chars(v: &[char]) -> (r: Vec<char>)
    ensures
        r@ == v@,
{
    let r = slice_chars(v, 0, v.len());
    assert(v@.subrange(0, v@.len() as int) == v@);
    r
}

fn no_output(code: i32) -> (r: CommandOutput)
    ensures
        out_view(r) == (CmdOut { stdout: Seq::empty(), stderr: Seq::empty(), code: code }),
{
    CommandOutput { stdout: Vec::new(), stderr: Vec::new(), exit_code: code }
}

fn echo_output(args: &Vec<Vec<char>>) -> (r: Vec<char>)
    ensures
        r@ == echo_spec(views(args@)),
{
    let sp: [char; 1] = [' '];
    assert(sp@ =~= seq![' ']);
    if args.len() > 0 && eq_str(&args[0], "-n") {
        let rest = tail(args);
        join_chars(&rest, &sp)
    } else {
        let mut o = join_chars(args, &sp);
        o.push('\n');
        o
    }
}

fn printf_output(args: &Vec<Vec<char>>) -> (r: Vec<char>)
    ensures
        r@ == printf_spec(views(args@)),
{
    if args.len() > 0 {
        let rest = tail(args);
        format_printf(&args[0], &rest)
    } else {
        Vec::new()
    }
}

fn exit_status_of(args: &Vec<Vec<char>>) -> (r: i32)
    ensures
        r == exit_status(views(args@)),
{
    if args.len() > 0 {
        match parse_i32(&args[0]) {
            Some(v) => v,
            None => 0,
        }
    } else {
        0
    }
}

fn all_assignment_words(words: &Vec<Vec<char>>) -> (r: bool)
    ensures
        r == all_assignments(views(words@)),
{
    let mut i: usize = 0;
    while i < words.len()
        invariant
            i <= words@.len(),
            forall|j: int| 0 <= j < i ==> is_assignment_spec(#[trigger] views(words@)[j]),
        decreases words.len() - i,
    {
        if !is_assignment(&words[i]) {
            assert(!is_assignment_spec(views(words@)[i as int]));
            return false;
        }
        i += 1;
    }
    true
}

/// Whether an `rm` argument is an option: it starts with `-` and is not `-`.
fn rm_is_option(a: &[char]) -> (r: bool)
    ensures
        r == is_option(a@),
{
    proof {
        if a@ == seq!['-'] {
            assert(a@.len() == 1);
        }
        if a@.len() == 1 && a@[0] == '-' {
            assert(a@ =~= seq!['-']);
        }
    }
    a.len() > 0 && a[0] == '-' && a.len() != 1
}

/// Whether an option holds only `r`, `R`, `f`, and whether it asks to recurse.
fn rm_flags(a: &[char]) -> (r: (bool, bool))
    requires
        a@.len() > 0,
    ensures
        r.0 == option_ok(a@),
        r.1 == option_recursive(a@),
{
    let mut ok = true;
    let mut rec = false;
    let mut j: usize = 1;
    while j < a.len()
        invariant
            1 <= j <= a@.len(),
            ok == (forall|m: int| 1 <= m < j ==> is_rm_flag(#[trigger] a@[m])),
            rec == (exists|m: int| 1 <= m < j && (#[trigger] a@[m] == 'r' || a@[m] == 'R')),
        decreases a.len() - j,
    {
        let c = a[j];
        proof {
            if !is_rm_flag(c) {
                assert(!is_rm_flag(a@[j as int]));
            }
            if c == 'r' || c == 'R' {
                assert(a@[j as int] == 'r' || a@[j as int] == 'R');
            }
            if rec {
                let w = choose|m: int| 1 <= m < j && (#[trigger] a@[m] == 'r' || a@[m] == 'R');
                assert(1 <= w < j + 1 && (a@[w] == 'r' || a@[w] == 'R'));
            }
        }
        ok = ok && (c == 'r' || c == 'R' || c == 'f');
        rec = rec || c == 'r' || c == 'R';
        j += 1;
    }
    (ok, rec)
}

impl Bash {
    /// Setup that commands leave alone.
    spec fn keeps(self, other: Bash) -> bool {
        &&& self.initial_env == other.initial_env
        &&& self.initial_cwd == other.initial_cwd
        &&& self.isolate_exec == other.isolate_exec
        &&& self.limits == other.limits
    }

    fn set_var(&mut self, k: Vec<char>, v: Vec<char>)
        ensures
            final(self).sh() == (Sh { env: sorted_insert(old(self).sh().env, k@, v@), ..old(self).sh() }),
            final(self).keeps(*old(self)),
    {
        let value = string_from_chars(&v);
        proof {
            lemma_env_insert(self.env@, k@, value);
        }
        self.env.insert_chars(k, value);
    }

    /// Sets each `NAME=value` of `words`; the others are left out.
    fn export_words(&mut self, words: &Vec<Vec<char>>)
        ensures
            final(self).sh() == (Sh { env: export_all(old(self).sh().env, views(words@)), ..old(self).sh() }),
            final(self).keeps(*old(self)),
    {
        let ghost a = views(words@);
        let mut i: usize = 0;
        while i < words.len()
            invariant
                i <= words@.len(),
                a == views(words@),
                self.sh() == (Sh { env: export_all(old(self).sh().env, a.take(i as int)), ..old(self).sh() }),
                self.keeps(*old(self)),
            decreases words.len() - i,
        {
            assert(a.take(i + 1).drop_last() == a.take(i as int));
            assert(a.take(i + 1).last() == words@[i as int]@);
            if has_equals(&words[i]) {
                let (k, v) = split_assignment(&words[i]);
                self.set_var(k, v);
            }
            i += 1;
        }
        assert(a.take(words@.len() as int) == a);
    }

    fn env_lines(&self) -> (r: Vec<char>)
        ensures
            r@ == env_listing(self.sh().env),
    {
        let ghost e = env_of(self.env@);
        let mut out: Vec<char> = Vec::new();
        let mut i: usize = 0;
        while i < self.env.len()
            invariant
                i <= e.len(),
                e == env_of(self.env@),
                out@ == env_listing(e.take(i as int)),
            decreases e.len() - i,
        {
            assert(e.take(i + 1).drop_last() == e.take(i as int));
            assert(e.take(i + 1).last() == e[i as int]);
            let k = self.env.key_at(i);
            let v = self.env.value_at(i);
            extend_from(&mut out, k);
            out.push('=');
            extend_chars(&mut out, v.as_str());
            out.push('\n');
            assert(out@ =~= env_listing(e.take(i as int)) + e[i as int].0 + seq!['='] + e[i as int].1 + seq!['\n']);
            i += 1;
        }
        assert(e.take(e.len() as int) == e);
        out
    }

    fn cd(&mut self, args: &Vec<Vec<char>>) -> (r: CommandOutput)
        ensures
            (final(self).sh(), out_view(r)) == cd_spec(old(self).sh(), views(args@)),
            final(self).keeps(*old(self)),
    {
        proof {
            lemma_lookup_env(self.env@, "HOME"@);
        }
        let target: Vec<char> = if args.len() > 0 {
            copy_chars(&args[0])
        } else {
            match self.env.get("HOME") {
                Some(h) => to_chars(h.as_str()),
                None => to_chars("/home/user"),
            }
        };
        let path = self.resolve_path(&target);
        if self.fs.is_dir_chars(&path) {
            let pv = copy_chars(&path);
            self.cwd = string_from_chars(&path);
            self.set_var(to_chars("PWD"), pv);
            no_output(0)
        } else {
            let mut e = to_chars("cd: ");
            extend_from(&mut e, &target);
            extend_chars(&mut e, ": No such file or directory\n");
            CommandOutput { stdout: Vec::new(), stderr: e, exit_code: 1 }
        }
    }

    fn cat(&self, args: &Vec<Vec<char>>, stdin: &[char]) -> (r: CommandOutput)
        ensures
            out_view(r) == cat_spec(self.fs@, self.cwd@, views(args@), stdin@),
    {
        let (o, e, c) = self.read_files(args, "cat: ");
        let stdout = if args.len() == 0 {
            let mut s = copy_chars(stdin);
            extend_from(&mut s, &o);
            s
        } else {
            o
        };
        CommandOutput { stdout, stderr: e, exit_code: c }
    }

    fn mkdir(&mut self, args: &Vec<Vec<char>>) -> (r: CommandOutput)
        ensures
            (final(self).sh(), out_view(r)) == mkdir_spec(old(self).sh(), views(args@)),
            final(self).keeps(*old(self)),
    {
        let ghost a = views(args@);
        let ghost sh0 = self.sh();
        let mut parents = false;
        let mut saw = false;
        let mut err: Vec<char> = Vec::new();
        let mut code: i32 = 0;
        let mut i: usize = 0;
        while i < args.len()
            invariant
                i <= args@.len(),
                a == views(args@),
                sh0 == old(self).sh(),
                self.sh() == (Sh { fs: self.fs@, ..sh0 }),
                self.keeps(*old(self)),
                mkdir_from(sh0.fs, sh0.cwd, a, 0, false, false, Seq::empty(), 0)
                    == mkdir_from(self.fs@, sh0.cwd, a, i as int, parents, saw, err@, code),
            decreases args.len() - i,
        {
            if eq_str(&args[i], "-p") {
                parents = true;
            } else {
                saw = true;
                let path = self.resolve_path(&args[i]);
                let res = if parents {
                    self.fs.create_dir_all_chars(&path)
                } else {
                    self.fs.create_dir_chars(&path)
                };
                match res {
                    Ok(()) => {},
                    Err(e) => {
                        let line = error_chars("mkdir: ", &e);
                        extend_from(&mut err, &line);
                        code = 1;
                    },
                }
            }
            i += 1;
        }
        if !saw {
            extend_chars(&mut err, "mkdir: usage: mkdir [-p] DIRECTORY...\n");
            code = 1;
        }
        CommandOutput { stdout: Vec::new(), stderr: err, exit_code: code }
    }

    fn touch(&mut self, args: &Vec<Vec<char>>) -> (r: CommandOutput)
        ensures
            (final(self).sh(), out_view(r)) == touch_spec(old(self).sh(), views(args@)),
            final(self).keeps(*old(self)),
    {
        let ghost a = views(args@);
        let ghost sh0 = self.sh();
        let mut err: Vec<char> = Vec::new();
        let mut code: i32 = 0;
        let mut i: usize = 0;
        while i < args.len()
            invariant
                i <= args@.len(),
                a == views(args@),
                sh0 == old(self).sh(),
                self.sh() == (Sh { fs: self.fs@, ..sh0 }),
                self.keeps(*old(self)),
                (self.fs@, err@, code) == touch_all(sh0.fs, sh0.cwd, a.take(i as int)),
            decreases args.len() - i,
        {
            assert(a.take(i + 1).drop_last() == a.take(i as int));
            assert(a.take(i + 1).last() == args@[i as int]@);
            let path = self.resolve_path(&args[i]);
            let existing: String = match self.fs.read_chars(&path) {
                Ok(c) => String::from_str(c),
                Err(_) => String::new(),
            };
            match self.fs.write_chars(&path, existing.as_str()) {
                Ok(()) => {},
                Err(e) => {
                    let line = error_chars("touch: ", &e);
                    extend_from(&mut err, &line);
                    code = 1;
                },
            }
            i += 1;
        }
        assert(a.take(args@.len() as int) == a);
        CommandOutput { stdout: Vec::new(), stderr: err, exit_code: code }
    }

    fn cp(&mut self, args: &Vec<Vec<char>>) -> (r: CommandOutput)
        ensures
            final(self).sh() == (Sh { fs: cp_spec(old(self).sh().fs, old(self).sh().cwd, views(args@)).0, ..old(self).sh() }),
            out_view(r) == cp_spec(old(self).sh().fs, old(self).sh().cwd, views(args@)).1,
            final(self).keeps(*old(self)),
    {
        if args.len() != 2 {
            return CommandOutput {
                stdout: Vec::new(),
                stderr: to_chars("cp: usage: cp SOURCE DEST\n"),
                exit_code: 1,
            };
        }
        let source = self.resolve_path(&args[0]);
        let dest = self.resolve_path(&args[1]);
        let contents: String = match self.fs.read_chars(&source) {
            Ok(c) => String::from_str(c),
            Err(e) => {
                return CommandOutput { stdout: Vec::new(), stderr: error_chars("cp: ", &e), exit_code: 1 };
            },
        };
        match self.fs.write_chars(&dest, contents.as_str()) {
            Ok(()) => no_output(0),
            Err(e) => CommandOutput { stdout: Vec::new(), stderr: error_chars("cp: ", &e), exit_code: 1 },
        }
    }

    fn rm(&mut self, args: &Vec<Vec<char>>) -> (r: CommandOutput)
        ensures
            final(self).sh() == (Sh { fs: rm_spec(old(self).sh().fs, old(self).sh().cwd, views(args@)).0, ..old(self).sh() }),
            out_view(r) == rm_spec(old(self).sh().fs, old(self).sh().cwd, views(args@)).1,
            final(self).keeps(*old(self)),
    {
        let ghost a = views(args@);
        let mut recursive = false;
        let mut operands: Vec<Vec<char>> = Vec::new();
        let mut err: Vec<char> = Vec::new();
        let mut code: i32 = 0;
        let mut i: usize = 0;
        while i < args.len()
            invariant
                i <= args@.len(),
                a == views(args@),
                (recursive, views(operands@), err@, code) == rm_options(a.take(i as int)),
            decreases args.len() - i,
        {
            assert(a.take(i + 1).drop_last() == a.take(i as int));
            assert(a.take(i + 1).last() == args@[i as int]@);
            let arg = &args[i];
            if rm_is_option(arg) {
                let (ok, rec) = rm_flags(arg);
                if ok {
                    recursive = recursive || rec;
                } else {
                    extend_chars(&mut err, "rm: unsupported option: ");
                    extend_from(&mut err, arg);
                    err.push('\n');
                    code = 1;
                }
            } else {
                let ghost before = views(operands@);
                operands.push(copy_chars(arg));
                assert(views(operands@) =~= before.push(arg@));
            }
            i += 1;
        }
        assert(a.take(args@.len() as int) == a);
        if code != 0 {
            return CommandOutput { stdout: Vec::new(), stderr: err, exit_code: code };
        }
        if operands.len() == 0 {
            return CommandOutput {
                stdout: Vec::new(),
                stderr: to_chars("rm: missing operand\n"),
                exit_code: 1,
            };
        }
        let ghost ops = views(operands@);
        let ghost sh0 = self.sh();
        let mut err2: Vec<char> = Vec::new();
        let mut code2: i32 = 0;
        let mut j: usize = 0;
        while j < operands.len()
            invariant
                j <= operands@.len(),
                ops == views(operands@),
                sh0 == old(self).sh(),
                self.sh() == (Sh { fs: self.fs@, ..sh0 }),
                self.keeps(*old(self)),
                (self.fs@, err2@, code2) == rm_all(sh0.fs, sh0.cwd, ops.take(j as int), recursive),
            decreases operands.len() - j,
        {
            assert(ops.take(j + 1).drop_last() == ops.take(j as int));
            assert(ops.take(j + 1).last() == operands@[j as int]@);
            let path = self.resolve_path(&operands[j]);
            match self.fs.remove_chars(&path, recursive) {
                Ok(()) => {},
                Err(e) => {
                    let line = error_chars("rm: ", &e);
                    extend_from(&mut err2, &line);
                    code2 = 1;
                },
            }
            j += 1;
        }
        assert(ops.take(operands@.len() as int) == ops);
        CommandOutput { stdout: Vec::new(), stderr: err2, exit_code: code2 }
    }

    /// Runs the expanded words `words` as one command with `stdin` as input.
    fn run_command(&mut self, words: &Vec<Vec<char>>, stdin: &[char]) -> (r: CommandOutput)
        ensures
            (final(self).sh(), out_view(r)) == command_spec(old(self).sh(), views(words@), stdin@),
            final(self).keeps(*old(self)),
    {
        reveal(command_spec);
        if words.len() == 0 {
            return no_output(0);
        }
        if all_assignment_words(words) {
            self.export_words(words);
            return no_output(0);
        }
        let cmd = &words[0];
        let args = tail(words);
        assert(views(words@)[0] == cmd@);
        if eq_str(cmd, "true") {
            no_output(0)
        } else if eq_str(cmd, "false") {
            no_output(1)
        } else if eq_str(cmd, "exit") {
            no_output(exit_status_of(&args))
        } else if eq_str(cmd, "echo") {
            CommandOutput { stdout: echo_output(&args), stderr: Vec::new(), exit_code: 0 }
        } else if eq_str(cmd, "printf") {
            CommandOutput { stdout: printf_output(&args), stderr: Vec::new(), exit_code: 0 }
        } else if eq_str(cmd, "pwd") {
            let mut o = to_chars(self.cwd.as_str());
            o.push('\n');
            assert(o@ =~= self.cwd@ + seq!['\n']);
            CommandOutput { stdout: o, stderr: Vec::new(), exit_code: 0 }
        } else if eq_str(cmd, "cd") {
            self.cd(&args)
        } else if eq_str(cmd, "cat") {
            self.cat(&args, stdin)
        } else if eq_str(cmd, "grep") {
            self.grep(&args, stdin)
        } else if eq_str(cmd, "wc") {
            self.wc(&args, stdin)
        } else if eq_str(cmd, "ls") {
            self.ls(&args)
        } else if eq_str(cmd, "mkdir") {
            self.mkdir(&args)
        } else if eq_str(cmd, "touch") {
            self.touch(&args)
        } else if eq_str(cmd, "cp") {
            self.cp(&args)
        } else if eq_str(cmd, "rm") {
            self.rm(&args)
        } else if eq_str(cmd, "export") {
            self.export_words(&args);
            no_output(0)
        } else if eq_str(cmd, "env") {
            CommandOutput { stdout: self.env_lines(), stderr: Vec::new(), exit_code: 0 }
        } else {
            let mut e = to_chars("bash: ");
            extend_from(&mut e, cmd);
            extend_chars(&mut e, ": command not found\n");
            assert(e@ =~= "bash: "@ + cmd@ + ": command not found\n"@);
            CommandOutput { stdout: Vec::new(), stderr: e, exit_code: 127 }
        }
    }
}

}

verus! {

// ─── Running scripts ────────────────────────────────────────────────────────

/// What a run has printed so far.
struct Printed {
    out: Vec<char>,
    err: Vec<char>,
}

spec fn run_of(b: Bash, p: Printed, fuel: usize) -> Run {
    Run {
        sh: b.sh(),
        out: p.out@,
        err: p.err@,
        fuel: fuel as nat,
        depth: b.limits.max_command_substitution_depth,
    }
}

spec fn target_view(t: Option<(RedirectMode, Vec<char>)>) -> Option<(RedirectMode, Seq<char>)> {
    match t {
        Some((m, p)) => Some((m, p@)),
        None => None,
    }
}

spec fn redir_view(r: Result<(Vec<char>, Option<(RedirectMode, Vec<char>)>), Vec<char>>) -> Result<
    (Seq<char>, Option<(RedirectMode, Seq<char>)>),
    Seq<char>,
> {
    match r {
        Ok((i, t)) => Ok((i@, target_view(t))),
        Err(e) => Err(e@),
    }
}

fn strip_trailing_newlines(v: &Vec<char>) -> (r: Vec<char>)
    ensures
        r@ == strip_newlines(v@),
{
    let mut n = v.len();
    assert(v@.take(n as int) == v@);
    while n > 0 && v[n - 1] == '\n'
        invariant
            n <= v@.len(),
            strip_newlines(v@) == strip_newlines(v@.take(n as int)),
        decreases n,
    {
        assert(v@.take(n as int).drop_last() == v@.take(n - 1));
        n -= 1;
    }
    assert(v@.subrange(0, n as int) == v@.take(n as int));
    slice_chars(v, 0, n)
}

impl Bash {
    /// Runs `text` as a command substitution: in a subshell whose environment
    /// and directory are dropped afterwards; its output is the value.
    fn substitute(&mut self, pr: &mut Printed, fuel: usize, text: &str, status: i32) -> (res: (Vec<char>, Flow, usize))
        ensures
            (run_of(*final(self), *final(pr), res.2), res.0@, res.1) == subst_spec(run_of(*old(self), *old(pr), fuel), text@, status),
            res.2 <= fuel,
            final(self).keeps(*old(self)),
        decreases fuel, 5int, 0int,
    {
        let limits = ParseLimits { max_command_substitution_depth: self.limits.max_command_substitution_depth };
        match parse_script_with_limits(text, limits) {
            Err(e) => {
                let line = error_chars("bash: ", &e);
                extend_from(&mut pr.err, &line);
                (Vec::new(), Flow::Next, fuel)
            },
            Ok(script) => {
                let saved_env = copy_env(&self.env);
                let saved_cwd = self.cwd.clone();
                let mut inner: Vec<char> = Vec::new();
                std::mem::swap(&mut inner, &mut pr.out);
                let (_code, flow, fuel2) = self.run_list(pr, fuel, &script.statements, status);
                std::mem::swap(&mut inner, &mut pr.out);
                self.env = saved_env;
                self.cwd = saved_cwd;
                let value = strip_trailing_newlines(&inner);
                let f = if flow == Flow::OutOfBudget {
                    Flow::OutOfBudget
                } else {
                    Flow::Next
                };
                (value, f, fuel2)
            },
        }
    }

    /// The text of a word without command substitutions, or `None` for a word with one.
    fn plain_word(&self, w: &Word, status: i32) -> (r: Option<Vec<char>>)
        ensures
            r matches Some(v) ==> plain_from(w@, 0, Seq::empty(), self.sh().env, status) == Some(v@),
            r is None ==> plain_from(w@, 0, Seq::empty(), self.sh().env, status) is None,
    {
        let ghost pv = w@;
        let mut acc: Vec<char> = Vec::new();
        let mut k: usize = 0;
        while k < w.parts.len()
            invariant
                k <= w.parts@.len(),
                pv == w@,
                plain_from(pv, 0, Seq::empty(), self.sh().env, status) == plain_from(pv, k as int, acc@, self.sh().env, status),
            decreases w.parts@.len() - k,
        {
            let p = &w.parts[k];
            assert(pv[k as int] == p@);
            match p.kind {
                WordPartKind::Literal => {
                    extend_chars(&mut acc, p.text.as_str());
                },
                WordPartKind::Variable => {
                    let t = to_chars(p.text.as_str());
                    let v = expand_text(&t, &self.env, status);
                    extend_from(&mut acc, &v);
                },
                WordPartKind::CommandSub => {
                    return None;
                },
            }
            k += 1;
        }
        Some(acc)
    }

    fn expand_word(&mut self, pr: &mut Printed, fuel: usize, w: &Word, status: i32) -> (res: (Vec<char>, Flow, usize))
        ensures
            (run_of(*final(self), *final(pr), res.2), res.0@, res.1) == expand_parts(run_of(*old(self), *old(pr), fuel), w@, 0, Seq::empty(), status),
            res.2 <= fuel,
            final(self).keeps(*old(self)),
        decreases fuel, 7int, 0int,
    {
        let ghost pv = w@;
        let mut acc: Vec<char> = Vec::new();
        let mut f = fuel;
        let mut k: usize = 0;
        while k < w.parts.len()
            invariant
                k <= w.parts@.len(),
                pv == w@,
                f <= fuel,
                self.keeps(*old(self)),
                expand_parts(run_of(*old(self), *old(pr), fuel), pv, 0, Seq::empty(), status) == expand_parts(run_of(*self, *pr, f), pv, k as int, acc@, status),
            decreases w.parts@.len() - k,
        {
            let p = &w.parts[k];
            assert(pv[k as int] == p@);
            match p.kind {
                WordPartKind::Literal => {
                    extend_chars(&mut acc, p.text.as_str());
                },
                WordPartKind::Variable => {
                    let t = to_chars(p.text.as_str());
                    let v = expand_text(&t, &self.env, status);
                    extend_from(&mut acc, &v);
                },
                WordPartKind::CommandSub => {
                    let (v, flow, f2) = self.substitute(pr, f, p.text.as_str(), status);
                    if flow != Flow::Next {
                        return (acc, flow, f2);
                    }
                    extend_from(&mut acc, &v);
                    f = f2;
                },
            }
            k += 1;
        }
        (acc, Flow::Next, f)
    }

    fn expand_words(&mut self, pr: &mut Printed, fuel: usize, words: &Vec<Word>, status: i32) -> (res: (
        Vec<Vec<char>>,
        Flow,
        usize,
    ))
        ensures
            (run_of(*final(self), *final(pr), res.2), views(res.0@), res.1) == expand_words(run_of(*old(self), *old(pr), fuel), words_view(words@), 0, Seq::empty(), status),
            res.2 <= fuel,
            final(self).keeps(*old(self)),
        decreases fuel, 8int, 0int,
    {
        let ghost wv = words_view(words@);
        let mut acc: Vec<Vec<char>> = Vec::new();
        assert(views(acc@) =~= Seq::<Seq<char>>::empty());
        let mut f = fuel;
        let mut k: usize = 0;
        while k < words.len()
            invariant
                k <= words@.len(),
                wv == words_view(words@),
                f <= fuel,
                self.keeps(*old(self)),
                expand_words(run_of(*old(self), *old(pr), fuel), wv, 0, Seq::empty(), status) == expand_words(run_of(*self, *pr, f), wv, k as int, views(acc@), status),
            decreases words@.len() - k,
        {
            assert(wv[k as int] == words@[k as int]@);
            let (w, flow, f2) = self.expand_word(pr, f, &words[k], status);
            if flow != Flow::Next {
                return (acc, flow, f2);
            }
            let ghost before = views(acc@);
            acc.push(w);
            assert(views(acc@) =~= before.push(w@));
            f = f2;
            k += 1;
        }
        (acc, Flow::Next, f)
    }

    fn setup_redirects(&mut self, pr: &mut Printed, fuel: usize, redirs: &Vec<Redirect>, stdin: &[char], status: i32) -> (res: (
        Result<(Vec<char>, Option<(RedirectMode, Vec<char>)>), Vec<char>>,
        Flow,
        usize,
    ))
        ensures
            (run_of(*final(self), *final(pr), res.2), redir_view(res.0), res.1) == redir_from(run_of(*old(self), *old(pr), fuel), redirects_view(redirs@), 0, stdin@, None, status),
            res.2 <= fuel,
            final(self).keeps(*old(self)),
        decreases fuel, 8int, 0int,
    {
        let ghost rv = redirects_view(redirs@);
        let mut input = copy_chars(stdin);
        let mut target: Option<(RedirectMode, Vec<char>)> = None;
        let mut f = fuel;
        let mut k: usize = 0;
        while k < redirs.len()
            invariant
                k <= redirs@.len(),
                rv == redirects_view(redirs@),
                f <= fuel,
                self.keeps(*old(self)),
                redir_from(run_of(*old(self), *old(pr), fuel), rv, 0, stdin@, None, status) == redir_from(run_of(*self, *pr, f), rv, k as int, input@, target_view(target), status),
            decreases redirs@.len() - k,
        {
            assert(rv[k as int] == redirs@[k as int]@);
            let (name, flow, f2) = self.expand_word(pr, f, &redirs[k].target, status);
            if flow != Flow::Next {
                return (Ok((input, target)), flow, f2);
            }
            f = f2;
            let path = self.resolve_path(&name);
            match redirs[k].mode {
                RedirectMode::Read => match self.fs.read_chars(&path) {
                    Ok(c) => {
                        input = to_chars(c);
                    },
                    Err(e) => {
                        let m = e.to_string();
                        return (Err(to_chars(m.as_str())), Flow::Next, f);
                    },
                },
                RedirectMode::Write => {
                    let empty = String::new();
                    match self.fs.write_chars(&path, empty.as_str()) {
                        Ok(()) => {
                            target = Some((RedirectMode::Write, path));
                        },
                        Err(e) => {
                            let m = e.to_string();
                            return (Err(to_chars(m.as_str())), Flow::Next, f);
                        },
                    }
                },
                RedirectMode::Append => {
                    let empty = String::new();
                    match self.fs.append_chars(&path, empty.as_str()) {
                        Ok(()) => {
                            target = Some((RedirectMode::Append, path));
                        },
                        Err(e) => {
                            let m = e.to_string();
                            return (Err(to_chars(m.as_str())), Flow::Next, f);
                        },
                    }
                },
            }
            k += 1;
        }
        (Ok((input, target)), Flow::Next, f)
    }

    /// Sends a command's output to its redirection target, if any.
    fn send_output(&mut self, target: Option<(RedirectMode, Vec<char>)>, o: CommandOutput) -> (r: CommandOutput)
        ensures
            (final(self).sh().fs, out_view(r)) == finish_output(old(self).sh().fs, target_view(target), out_view(o)),
            final(self).sh() == (Sh { fs: final(self).sh().fs, ..old(self).sh() }),
            final(self).keeps(*old(self)),
    {
        match target {
            None => o,
            Some((mode, path)) => {
                let contents = string_from_chars(&o.stdout);
                let res = if mode == RedirectMode::Write {
                    self.fs.write_chars(&path, contents.as_str())
                } else {
                    self.fs.append_chars(&path, contents.as_str())
                };
                match res {
                    Ok(()) => CommandOutput { stdout: Vec::new(), stderr: o.stderr, exit_code: o.exit_code },
                    Err(e) => {
                        let mut err = o.stderr;
                        let line = error_chars("bash: ", &e);
                        extend_from(&mut err, &line);
                        CommandOutput { stdout: o.stdout, stderr: err, exit_code: 1 }
                    },
                }
            },
        }
    }


    /// One command: redirections set up, then words expanded, then run.
    /// The flag says whether the command was `exit`.
    #[verifier::rlimit(60)]
    fn run_invocation(&mut self, pr: &mut Printed, fuel: usize, cmd: &CommandInvocation, stdin: Vec<char>, status: i32) -> (res: (
        CommandOutput,
        bool,
        Flow,
        usize,
    ))
        ensures
            (run_of(*final(self), *final(pr), res.3), out_view(res.0), res.1, res.2) == invocation_spec(run_of(*old(self), *old(pr), fuel), cmd@, stdin@, status),
            res.3 <= fuel,
            final(self).keeps(*old(self)),
        decreases fuel, 9int, 0int,
    {
        assert(cmd@.words == words_view(cmd.words@));
        assert(cmd@.redirects =~= redirects_view(cmd.redirects@));
        let (red, flow, f1) = self.setup_redirects(pr, fuel, &cmd.redirects, &stdin, status);
        if flow != Flow::Next {
            return (no_output(0), false, flow, f1);
        }
        match red {
            Err(msg) => {
                let mut e = to_chars("bash: ");
                extend_from(&mut e, &msg);
                e.push('\n');
                assert(e@ =~= err_line("bash: "@, msg@));
                let is_exit = if cmd.words.len() > 0 {
                    match self.plain_word(&cmd.words[0], status) {
                        Some(name) => eq_str(&name, "exit"),
                        None => false,
                    }
                } else {
                    false
                };
                (CommandOutput { stdout: Vec::new(), stderr: e, exit_code: 1 }, is_exit, Flow::Next, f1)
            },
            Ok((input, target)) => {
                let (words, flow2, f2) = self.expand_words(pr, f1, &cmd.words, status);
                if flow2 != Flow::Next {
                    return (no_output(0), false, flow2, f2);
                }
                let is_exit = words.len() > 0 && eq_str(&words[0], "exit");
                let o = self.run_command(&words, &input);
                let o2 = self.send_output(target, o);
                (o2, is_exit, Flow::Next, f2)
            },
        }
    }

    /// A pipeline: each command costs one step and reads the previous one's
    /// output; in a pipeline of several commands each runs in a subshell.
    fn run_pipeline(&mut self, pr: &mut Printed, fuel: usize, cmds: &Vec<CommandInvocation>, code: i32) -> (res: (
        i32,
        Flow,
        usize,
    ))
        ensures
            (run_of(*final(self), *final(pr), res.2), res.0, res.1) == pipeline_spec(run_of(*old(self), *old(pr), fuel), commands_view(cmds@), 0, Seq::empty(), code, code),
            res.2 <= fuel,
            final(self).keeps(*old(self)),
        decreases fuel, 2int, 0int,
    {
        let ghost cv = commands_view(cmds@);
        let is_pipe = cmds.len() > 1;
        let mut stdin: Vec<char> = Vec::new();
        let mut c = code;
        let mut f = fuel;
        let mut j: usize = 0;
        while j < cmds.len()
            invariant
                j <= cmds@.len(),
                cv == commands_view(cmds@),
                is_pipe == (cmds@.len() > 1),
                f <= fuel,
                self.keeps(*old(self)),
                pipeline_spec(run_of(*old(self), *old(pr), fuel), cv, 0, Seq::empty(), code, code) == pipeline_spec(run_of(*self, *pr, f), cv, j as int, stdin@, c, code),
            decreases cmds@.len() - j,
        {
            assert(cv[j as int] == cmds@[j as int]@);
            if f == 0 {
                return (c, Flow::OutOfBudget, 0);
            }
            let is_last = j + 1 == cmds.len();
            let ghost before = self.sh();
            let saved_env = if is_pipe {
                copy_env(&self.env)
            } else {
                StringMap::new()
            };
            let saved_cwd = if is_pipe {
                self.cwd.clone()
            } else {
                String::new()
            };
            let (o, is_exit, flow, f1) = self.run_invocation(pr, f - 1, &cmds[j], stdin, code);
            if flow != Flow::Next {
                return (c, flow, f1);
            }
            if is_pipe {
                self.env = saved_env;
                self.cwd = saved_cwd;
            }
            assert(is_pipe ==> self.sh() == (Sh { fs: self.sh().fs, ..before }));
            extend_from(&mut pr.err, &o.stderr);
            if is_last {
                extend_from(&mut pr.out, &o.stdout);
            }
            f = f1;
            if !is_pipe && is_exit {
                return (o.exit_code, Flow::Exit, f);
            }
            stdin = o.stdout;
            c = o.exit_code;
            j += 1;
        }
        (c, Flow::Next, f)
    }

    /// Statements in order; `&&` and `||` depend on the status before.
    fn run_list(&mut self, pr: &mut Printed, fuel: usize, stmts: &Vec<Statement>, code: i32) -> (res: (
        i32,
        Flow,
        usize,
    ))
        ensures
            (run_of(*final(self), *final(pr), res.2), res.0, res.1) == run_list_spec(run_of(*old(self), *old(pr), fuel), stmts_view(stmts), 0, code),
            res.2 <= fuel,
            final(self).keeps(*old(self)),
        decreases fuel, 4int, 0int,
    {
        let ghost sv = stmts_view(stmts);
        let mut c = code;
        let mut f = fuel;
        let mut i: usize = 0;
        while i < stmts.len()
            invariant
                i <= stmts@.len(),
                sv == stmts_view(stmts),
                f <= fuel,
                self.keeps(*old(self)),
                run_list_spec(run_of(*old(self), *old(pr), fuel), sv, 0, code) == run_list_spec(run_of(*self, *pr, f), sv, i as int, c),
            decreases stmts@.len() - i,
        {
            let s = &stmts[i];
            assert(sv[i as int] == stmt_view(s));
            let should_run = match s.connector {
                PipelineConnector::Always => true,
                PipelineConnector::And => c == 0,
                PipelineConnector::Or => c != 0,
            };
            if should_run {
                let (c2, flow, f2) = self.run_statement(pr, f, s, c);
                if flow != Flow::Next {
                    return (c2, flow, f2);
                }
                c = c2;
                f = f2;
            }
            i += 1;
        }
        (c, Flow::Next, f)
    }

    fn run_statement(&mut self, pr: &mut Printed, fuel: usize, s: &Statement, code: i32) -> (res: (i32, Flow, usize))
        ensures
            (run_of(*final(self), *final(pr), res.2), res.0, res.1) == stmt_spec(run_of(*old(self), *old(pr), fuel), stmt_view(s), code),
            res.2 <= fuel,
            final(self).keeps(*old(self)),
        decreases fuel, 3int, 0int,
    {
        match &s.kind {
            StatementKind::Pipeline(cmds) => {
                assert(stmt_view(s).kind == KindV::Pipeline(commands_view(cmds@)));
                self.run_pipeline(pr, fuel, cmds, code)
            },
            StatementKind::If(f) => {
                assert(stmt_view(s).kind == KindV::If(if_view(f)));
                if fuel == 0 {
                    return (code, Flow::OutOfBudget, 0);
                }
                self.run_if(pr, fuel - 1, f, code)
            },
            StatementKind::While(w) => {
                assert(stmt_view(s).kind == KindV::While(while_view(w)));
                if fuel == 0 {
                    return (code, Flow::OutOfBudget, 0);
                }
                self.run_while(pr, fuel - 1, w, code)
            },
            StatementKind::For(f) => {
                assert(stmt_view(s).kind == KindV::For(for_view(f)));
                if fuel == 0 {
                    return (code, Flow::OutOfBudget, 0);
                }
                self.run_for(pr, fuel - 1, f, code)
            },
        }
    }

    fn run_if(&mut self, pr: &mut Printed, fuel: usize, f: &IfStatement, code: i32) -> (res: (i32, Flow, usize))
        ensures
            (run_of(*final(self), *final(pr), res.2), res.0, res.1) == if_run(run_of(*old(self), *old(pr), fuel), if_view(f), code),
            res.2 <= fuel,
            final(self).keeps(*old(self)),
        decreases fuel, 6int, 0int,
    {
        let ghost fv = if_view(f);
        let (c1, fl1, f1) = self.run_list(pr, fuel, &f.condition, code);
        if fl1 != Flow::Next {
            return (c1, fl1, f1);
        }
        if c1 == 0 {
            return self.run_list(pr, f1, &f.body, c1);
        }
        let mut c = c1;
        let mut fu = f1;
        let mut k: usize = 0;
        while k < f.elif_clauses.len()
            invariant
                k <= f.elif_clauses@.len(),
                fv == if_view(f),
                fu <= fuel,
                self.keeps(*old(self)),
                if_run(run_of(*old(self), *old(pr), fuel), fv, code) == elifs_run(run_of(*self, *pr, fu), fv, k as int, c),
            decreases f.elif_clauses@.len() - k,
        {
            let clause = &f.elif_clauses[k];
            assert(fv.elifs[k as int] == (stmts_view(&clause.0), stmts_view(&clause.1)));
            let (ck, flk, fk) = self.run_list(pr, fu, &clause.0, c);
            if flk != Flow::Next {
                return (ck, flk, fk);
            }
            if ck == 0 {
                return self.run_list(pr, fk, &clause.1, ck);
            }
            c = ck;
            fu = fk;
            k += 1;
        }
        match &f.else_body {
            Some(b) => self.run_list(pr, fu, b, c),
            None => (0, Flow::Next, fu),
        }
    }

    fn run_while(&mut self, pr: &mut Printed, fuel: usize, w: &WhileStatement, code: i32) -> (res: (i32, Flow, usize))
        ensures
            (run_of(*final(self), *final(pr), res.2), res.0, res.1) == while_run(run_of(*old(self), *old(pr), fuel), while_view(w), 0, code),
            res.2 <= fuel,
            final(self).keeps(*old(self)),
        decreases fuel, 5int, 0int,
    {
        let ghost wv = while_view(w);
        let mut last: i32 = 0;
        let mut c = code;
        let mut fu = fuel;
        loop
            invariant
                wv == while_view(w),
                fu <= fuel,
                self.keeps(*old(self)),
                while_run(run_of(*old(self), *old(pr), fuel), wv, 0, code) == while_run(run_of(*self, *pr, fu), wv, last, c),
            decreases fu,
        {
            let (c1, fl1, f1) = self.run_list(pr, fu, &w.condition, c);
            if fl1 != Flow::Next {
                return (c1, fl1, f1);
            }
            if c1 != 0 {
                return (last, Flow::Next, f1);
            }
            let (c2, fl2, f2) = self.run_list(pr, f1, &w.body, c1);
            if fl2 != Flow::Next {
                return (c2, fl2, f2);
            }
            if f2 >= fu {
                return (c2, Flow::Next, f2);
            }
            last = c2;
            c = c2;
            fu = f2;
        }
    }

    fn run_for(&mut self, pr: &mut Printed, fuel: usize, f: &ForStatement, code: i32) -> (res: (i32, Flow, usize))
        ensures
            (run_of(*final(self), *final(pr), res.2), res.0, res.1) == for_run(run_of(*old(self), *old(pr), fuel), for_view(f), code),
            res.2 <= fuel,
            final(self).keeps(*old(self)),
        decreases fuel, 10int, 0int,
    {
        let ghost fv = for_view(f);
        let (values, fl, f1) = self.expand_words(pr, fuel, &f.items, code);
        if fl != Flow::Next {
            return (code, fl, f1);
        }
        let ghost vv = views(values@);
        let var = to_chars(f.var.as_str());
        let mut last: i32 = 0;
        let mut fu = f1;
        let mut k: usize = 0;
        while k < values.len()
            invariant
                k <= values@.len(),
                vv == views(values@),
                fv == for_view(f),
                var@ == fv.var,
                fu <= fuel,
                self.keeps(*old(self)),
                for_run(run_of(*old(self), *old(pr), fuel), fv, code) == for_values(run_of(*self, *pr, fu), fv.var, vv, k as int, fv.body, last),
            decreases values@.len() - k,
        {
            self.set_var(copy_chars(&var), copy_chars(&values[k]));
            let (c2, fl2, f2) = self.run_list(pr, fu, &f.body, last);
            if fl2 != Flow::Next {
                return (c2, fl2, f2);
            }
            last = c2;
            fu = f2;
            k += 1;
        }
        (last, Flow::Next, fu)
    }
}

}

verus! {

// ─── The public face ────────────────────────────────────────────────────────

/// The working directory asked for, or `/home/user`.
pub open spec fn cwd_option(c: Option<String>) -> Seq<char> {
    match c {
        Some(s) => s@,
        None => "/home/user"@,
    }
}

impl Bash {
    /// The state an `exec` starts from.
    pub open spec fn exec_start(&self) -> Sh {
        start_state(self.sh(), self.initial_env(), self.initial_cwd(), self.isolated())
    }

    /// A shell over a filesystem seeded with `options.files`, in the working
    /// directory `options.cwd` (normalized; `/home/user` by default), which is
    /// created. `HOME` and `PWD` are set where the environment lacks them.
    pub fn new(options: BashOptions) -> (r: Result<Self, BashError>)
        ensures
            match new_fs_spec(string_pairs(options.files@), normalize(cwd_option(options.cwd))) {
                Ok(m) => r matches Ok(b) && {
                    let cwd = normalize(cwd_option(options.cwd));
                    let env = with_defaults(env_of(options.env@), cwd);
                    &&& b.sh() == (Sh { fs: m, env: env, cwd: cwd })
                    &&& b.initial_env() == env
                    &&& b.initial_cwd() == cwd
                    &&& b.isolated() == options.isolate_exec
                    &&& b.limits() == options.limits
                },
                Err(e) => fs_err(r, e),
            },
    {
        let cwd_text: Vec<char> = match &options.cwd {
            Some(c) => to_chars(c.as_str()),
            None => to_chars("/home/user"),
        };
        let cwd = normalize_chars(&cwd_text);
        let mut fs = match InMemoryFs::with_files(options.files) {
            Ok(f) => f,
            Err(e) => return Err(e),
        };
        match fs.create_dir_all_chars(&cwd) {
            Ok(()) => {},
            Err(e) => return Err(e),
        }
        let mut env = options.env;
        proof {
            lemma_lookup_env(env@, "HOME"@);
        }
        if env.get("HOME").is_none() {
            let v = String::from_str("/home/user");
            proof {
                lemma_env_insert(env@, "HOME"@, v);
            }
            env.insert(String::from_str("HOME"), v);
        }
        proof {
            lemma_lookup_env(env@, "PWD"@);
        }
        if env.get("PWD").is_none() {
            let v = string_from_chars(&cwd);
            proof {
                lemma_env_insert(env@, "PWD"@, v);
            }
            env.insert(String::from_str("PWD"), v);
        }
        let cwd_s = string_from_chars(&cwd);
        let initial_env = copy_env(&env);
        Ok(Bash {
            fs,
            env,
            cwd: cwd_s.clone(),
            initial_env,
            initial_cwd: cwd_s,
            isolate_exec: options.isolate_exec,
            limits: options.limits,
        })
    }

    /// Runs `script`. With isolation (the default) it starts from the initial
    /// environment and directory; the filesystem is shared across calls.
    pub fn exec(&mut self, script: &str) -> (r: BashExecResult)
        ensures
            final(self).sh() == exec_spec(old(self).exec_start(), old(self).limits(), script@).0,
            r.stdout@ == exec_spec(old(self).exec_start(), old(self).limits(), script@).1.stdout,
            r.stderr@ == exec_spec(old(self).exec_start(), old(self).limits(), script@).1.stderr,
            r.exit_code == exec_spec(old(self).exec_start(), old(self).limits(), script@).1.code,
            r.cwd@ == final(self).sh().cwd,
            final(self).initial_env() == old(self).initial_env(),
            final(self).initial_cwd() == old(self).initial_cwd(),
            final(self).isolated() == old(self).isolated(),
            final(self).limits() == old(self).limits(),
    {
        if self.isolate_exec {
            self.env = copy_env(&self.initial_env);
            self.cwd = self.initial_cwd.clone();
        }
        assert(self.sh() == old(self).exec_start());
        let max_bytes = self.limits.max_script_size_bytes;
        if script.len() > max_bytes {
            let mut e = to_chars("bash: script size exceeds limit (");
            push_decimal(&mut e, max_bytes);
            extend_chars(&mut e, " bytes)\n");
            return BashExecResult {
                stdout: String::new(),
                stderr: string_from_chars(&e),
                exit_code: 2,
                cwd: self.cwd.clone(),
            };
        }
        let limits = ParseLimits { max_command_substitution_depth: self.limits.max_command_substitution_depth };
        let parsed = match parse_script_with_limits(script, limits) {
            Ok(p) => p,
            Err(e) => {
                let line = error_chars("bash: ", &e);
                return BashExecResult {
                    stdout: String::new(),
                    stderr: string_from_chars(&line),
                    exit_code: 2,
                    cwd: self.cwd.clone(),
                };
            },
        };
        let mut pr = Printed { out: Vec::new(), err: Vec::new() };
        let max_steps = self.limits.max_command_count;
        let (code, flow, _left) = self.run_list(&mut pr, max_steps, &parsed.statements, 0);
        let mut err = pr.err;
        let exit_code = if flow == Flow::OutOfBudget {
            extend_chars(&mut err, "bash: command count exceeds limit (");
            push_decimal(&mut err, max_steps);
            extend_chars(&mut err, ")\n");
            1
        } else {
            code
        };
        BashExecResult {
            stdout: string_from_chars(&pr.out),
            stderr: string_from_chars(&err),
            exit_code,
            cwd: self.cwd.clone(),
        }
    }

    /// The shell's filesystem.
    pub fn fs(&self) -> (r: &InMemoryFs)
        ensures
            r@ == self.sh().fs,
    {
        &self.fs
    }
}

}

verus! {

// ─── Laws of `exec` ─────────────────────────────────────────────────────────

/// Each `exec` starts over the shell's current filesystem; with isolation it
/// starts from the initial environment and directory, without it from those
/// the shell has now.
pub proof fn law_exec_start(b: Bash)
    ensures
        b.exec_start().fs == b.sh().fs,
        b.isolated() ==> b.exec_start().env == b.initial_env() && b.exec_start().cwd == b.initial_cwd(),
        !b.isolated() ==> b.exec_start() == b.sh(),
{
}

/// With isolation, environment and directory changes made by earlier calls do
/// not reach a later `exec`: two shells with the same setup and the same
/// filesystem do the same with any script.
pub proof fn law_isolated_execs_independent(b1: Bash, b2: Bash, script: Seq<char>)
    requires
        b1.isolated(),
        b2.isolated(),
        b1.initial_env() == b2.initial_env(),
        b1.initial_cwd() == b2.initial_cwd(),
        b1.limits() == b2.limits(),
        b1.sh().fs == b2.sh().fs,
    ensures
        exec_spec(b1.exec_start(), b1.limits(), script) == exec_spec(b2.exec_start(), b2.limits(), script),
{
    assert(b1.exec_start() == b2.exec_start());
}

/// Whatever a script does, a shell whose filesystem is a tree (as every new
/// shell's is) still has a tree after `exec`.
pub proof fn law_exec_keeps_shell_fs_tree(b: Bash, script: Seq<char>)
    requires
        fs_tree(b.sh().fs),
    ensures
        fs_tree(exec_spec(b.exec_start(), b.limits(), script).0.fs),
{
    law_exec_keeps_tree(b.exec_start(), b.limits(), script);
}

}
