use just_bash::{Bash, BashError, BashExecutionLimits, BashOptions, ParseLimits, StringMap};

fn shell() -> Bash {
    Bash::new(BashOptions::default()).unwrap()
}

fn shell_with_files(pairs: &[(&str, &str)]) -> Bash {
    let mut files = StringMap::new();
    for (path, contents) in pairs {
        files.insert(path.to_string(), contents.to_string());
    }
    Bash::new(BashOptions {
        files,
        ..BashOptions::default()
    })
    .unwrap()
}

#[test]
fn default_options_and_limits() {
    let limits = BashExecutionLimits::default();
    assert_eq!(limits.max_script_size_bytes, 1_048_576);
    assert_eq!(limits.max_command_count, 10_000);
    assert_eq!(limits.max_command_substitution_depth, 50);
    let options = BashOptions::default();
    assert!(options.isolate_exec);
    assert_eq!(options.limits, limits);
    assert_eq!(options.cwd, None);
    assert_eq!(options.files.len(), 0);
    assert_eq!(ParseLimits::default().max_command_substitution_depth, 50);
}

#[test]
fn isolated_exec_starts_from_initial_env_and_cwd() {
    let mut bash = shell();
    let first = bash.exec("export A=1; cd /tmp; echo hi > /tmp/f");
    assert_eq!(first.cwd, "/tmp");
    let second = bash.exec("echo [$A]; pwd; cat /tmp/f");
    assert_eq!(second.stdout, "[]\n/home/user\nhi\n");
    assert_eq!(second.cwd, "/home/user");
}

#[test]
fn shared_state_persists_without_isolation() {
    let mut bash = Bash::new(BashOptions {
        isolate_exec: false,
        ..BashOptions::default()
    })
    .unwrap();
    bash.exec("export A=1; cd /tmp");
    let result = bash.exec("echo $A; pwd");
    assert_eq!(result.stdout, "1\n/tmp\n");
}

#[test]
fn oversized_script_is_rejected_before_running() {
    let mut bash = Bash::new(BashOptions {
        limits: BashExecutionLimits {
            max_script_size_bytes: 5,
            ..BashExecutionLimits::default()
        },
        ..BashOptions::default()
    })
    .unwrap();
    let result = bash.exec("echo hello > f");
    assert_eq!(result.stdout, "");
    assert_eq!(result.stderr, "bash: script size exceeds limit (5 bytes)\n");
    assert_eq!(result.exit_code, 2);
    assert!(!bash.fs().path_exists("/home/user/f"));
    assert_eq!(bash.exec("true").exit_code, 0);
}

#[test]
fn command_budget_stops_execution() {
    let mut bash = Bash::new(BashOptions {
        limits: BashExecutionLimits {
            max_command_count: 3,
            ..BashExecutionLimits::default()
        },
        ..BashOptions::default()
    })
    .unwrap();
    let result = bash.exec("echo a; echo b; echo c; echo d");
    assert_eq!(result.stdout, "a\nb\nc\n");
    assert_eq!(result.stderr, "bash: command count exceeds limit (3)\n");
    assert_eq!(result.exit_code, 1);
}

#[test]
fn endless_loop_ends_when_the_budget_runs_out() {
    let mut bash = Bash::new(BashOptions {
        limits: BashExecutionLimits {
            max_command_count: 5,
            ..BashExecutionLimits::default()
        },
        ..BashOptions::default()
    })
    .unwrap();
    let result = bash.exec("while true; do echo x; done");
    assert_eq!(result.stdout, "x\nx\n");
    assert_eq!(result.stderr, "bash: command count exceeds limit (5)\n");
    assert_eq!(result.exit_code, 1);
}

#[test]
fn syntax_errors_run_nothing() {
    let mut bash = shell();
    let result = bash.exec("echo hi > f; echo &&");
    assert_eq!(result.stdout, "");
    assert_eq!(result.stderr, "bash: syntax error near unexpected token `&&'\n");
    assert_eq!(result.exit_code, 2);
    assert!(!bash.fs().path_exists("/home/user/f"));
}

#[test]
fn substitution_nesting_limit_comes_from_options() {
    let mut bash = Bash::new(BashOptions {
        limits: BashExecutionLimits {
            max_command_substitution_depth: 1,
            ..BashExecutionLimits::default()
        },
        ..BashOptions::default()
    })
    .unwrap();
    let result = bash.exec("echo $(echo $(echo hi))");
    assert_eq!(
        result.stderr,
        "bash: command substitution nesting exceeds limit (1)\n"
    );
    assert_eq!(result.exit_code, 2);
    assert_eq!(bash.exec("echo $(echo hi)").stdout, "hi\n");
}

#[test]
fn if_elif_else_picks_the_first_true_branch() {
    let mut bash = shell();
    let result =
        bash.exec("if false; then echo a; elif true; then echo b; else echo c; fi; if false; then echo d; fi");
    assert_eq!(result.stdout, "b\n");
    assert_eq!(result.exit_code, 0);
    let result = bash.exec("if false; then echo a; else echo c; fi");
    assert_eq!(result.stdout, "c\n");
}

#[test]
fn for_loop_runs_body_per_item() {
    let mut bash = shell();
    let result = bash.exec("for x in a b c; do echo $x; done; echo $x");
    assert_eq!(result.stdout, "a\nb\nc\nc\n");
}

#[test]
fn while_loop_with_false_condition_never_runs_body() {
    let mut bash = shell();
    let result = bash.exec("while false; do echo x; done; echo end");
    assert_eq!(result.stdout, "end\n");
    assert_eq!(result.exit_code, 0);
}

#[test]
fn command_substitution_runs_in_a_subshell() {
    let mut bash = shell();
    let result = bash.exec("echo $(cd /tmp; pwd); pwd");
    assert_eq!(result.stdout, "/tmp\n/home/user\n");
    let result = bash.exec("echo [$(printf 'a\\n\\n')]");
    assert_eq!(result.stdout, "[a]\n");
    let result = bash.exec("echo $(echo hi > f); cat f");
    assert_eq!(result.stdout, "\nhi\n");
    let result = bash.exec("X=$(X=2; echo 3); echo $X");
    assert_eq!(result.stdout, "3\n");
}

#[test]
fn exit_stops_the_script_with_its_status() {
    let mut bash = shell();
    let result = bash.exec("echo a; exit 3; echo b");
    assert_eq!(result.stdout, "a\n");
    assert_eq!(result.exit_code, 3);
    let result = bash.exec("if true; then exit 4; fi; echo no");
    assert_eq!(result.stdout, "");
    assert_eq!(result.exit_code, 4);
    assert_eq!(bash.exec("exit abc").exit_code, 0);
    assert_eq!(bash.exec("exit").exit_code, 0);
}

#[test]
fn cd_defaults_to_home_and_reports_missing_directories() {
    let mut bash = shell();
    let result = bash.exec("cd /tmp; cd; pwd; cd nope");
    assert_eq!(result.stdout, "/home/user\n");
    assert_eq!(result.stderr, "cd: nope: No such file or directory\n");
    assert_eq!(result.exit_code, 1);
    let result = bash.exec("cd ..; pwd; cd .; pwd; echo $PWD");
    assert_eq!(result.stdout, "/home\n/home\n/home\n");
}

#[test]
fn env_lists_variables_in_name_order() {
    let mut env = StringMap::new();
    env.insert("A".to_string(), "1".to_string());
    let mut bash = Bash::new(BashOptions {
        env,
        ..BashOptions::default()
    })
    .unwrap();
    let result = bash.exec("env");
    assert_eq!(result.stdout, "A=1\nHOME=/home/user\nPWD=/home/user\n");
    let result = bash.exec("export B=2 C; echo $B");
    assert_eq!(result.stdout, "2\n");
}

#[test]
fn new_uses_and_creates_the_requested_cwd() {
    let mut env = StringMap::new();
    env.insert("PWD".to_string(), "/elsewhere".to_string());
    let mut bash = Bash::new(BashOptions {
        cwd: Some("/work/./dir/".to_string()),
        env,
        ..BashOptions::default()
    })
    .unwrap();
    assert!(bash.fs().is_dir("/work/dir"));
    let result = bash.exec("pwd; echo $PWD $HOME");
    assert_eq!(result.stdout, "/work/dir\n/elsewhere /home/user\n");
}

#[test]
fn new_reports_filesystem_errors() {
    let mut files = StringMap::new();
    files.insert("/tmp/f".to_string(), "x".to_string());
    files.insert("/tmp/f/g".to_string(), "y".to_string());
    let error = Bash::new(BashOptions {
        files,
        ..BashOptions::default()
    })
    .unwrap_err();
    assert_eq!(error, BashError::FileSystem("/tmp/f: Not a directory".to_string()));
    let error = Bash::new(BashOptions {
        cwd: Some("/tmp/f".to_string()),
        files: {
            let mut files = StringMap::new();
            files.insert("/tmp/f".to_string(), "x".to_string());
            files
        },
        ..BashOptions::default()
    })
    .unwrap_err();
    assert_eq!(error, BashError::FileSystem("/tmp/f: Not a directory".to_string()));
}

#[test]
fn grep_statuses_and_errors() {
    let mut bash = shell_with_files(&[("/home/user/a", "x1\ny2\nx3\n")]);
    let result = bash.exec("grep");
    assert_eq!(result.stderr, "grep: usage: grep PATTERN [FILE...]\n");
    assert_eq!(result.exit_code, 2);
    let result = bash.exec("grep x a");
    assert_eq!(result.stdout, "x1\nx3\n");
    assert_eq!(result.exit_code, 0);
    let result = bash.exec("grep z a");
    assert_eq!(result.stdout, "");
    assert_eq!(result.exit_code, 1);
    let result = bash.exec("grep x a nope");
    assert_eq!(result.stdout, "");
    assert_eq!(result.stderr, "grep: /home/user/nope: No such file or directory\n");
    assert_eq!(result.exit_code, 1);
}

#[test]
fn wc_counts_lines_words_and_bytes() {
    let mut bash = shell_with_files(&[("/home/user/a", "one two\nthree\n"), ("/home/user/u", "é\n")]);
    assert_eq!(bash.exec("wc a").stdout, "2 3 14\n");
    assert_eq!(bash.exec("wc a a").stdout, "4 6 28\n");
    assert_eq!(bash.exec("wc u").stdout, "1 1 3\n");
    let result = bash.exec("wc nope");
    assert_eq!(result.stdout, "");
    assert_eq!(result.stderr, "wc: /home/user/nope: No such file or directory\n");
    assert_eq!(result.exit_code, 1);
}

#[test]
fn cat_reads_files_and_input() {
    let mut bash = shell_with_files(&[("/home/user/a", "A"), ("/home/user/b", "B")]);
    assert_eq!(bash.exec("cat a b").stdout, "AB");
    assert_eq!(bash.exec("echo in | cat").stdout, "in\n");
    let result = bash.exec("cat a nope b");
    assert_eq!(result.stdout, "AB");
    assert_eq!(result.stderr, "cat: /home/user/nope: No such file or directory\n");
    assert_eq!(result.exit_code, 1);
    let result = bash.exec("cat < nope");
    assert_eq!(result.stderr, "bash: /home/user/nope: No such file or directory\n");
    assert_eq!(result.exit_code, 1);
}

#[test]
fn ls_mkdir_and_touch() {
    let mut bash = shell();
    let result = bash.exec("mkdir d; mkdir -p d/e/f; touch d/t; ls d; ls nope");
    assert_eq!(result.stdout, "e\nt\n");
    assert_eq!(result.stderr, "ls: /home/user/nope: Not a directory\n");
    assert_eq!(result.exit_code, 1);
    let result = bash.exec("mkdir; mkdir -p; mkdir /tmp");
    assert_eq!(
        result.stderr,
        "mkdir: usage: mkdir [-p] DIRECTORY...\nmkdir: usage: mkdir [-p] DIRECTORY...\nmkdir: /tmp: File exists\n"
    );
    assert_eq!(result.exit_code, 1);
    let result = bash.exec("echo keep > k; touch k; cat k");
    assert_eq!(result.stdout, "keep\n");
    assert_eq!(bash.exec("ls").stdout, "d\nk\n");
}

#[test]
fn cp_usage_and_errors() {
    let mut bash = shell_with_files(&[("/home/user/a", "A")]);
    let result = bash.exec("cp a");
    assert_eq!(result.stderr, "cp: usage: cp SOURCE DEST\n");
    assert_eq!(result.exit_code, 1);
    let result = bash.exec("cp nope b");
    assert_eq!(result.stderr, "cp: /home/user/nope: No such file or directory\n");
    let result = bash.exec("cp a /tmp; cp a b; cat b");
    assert_eq!(result.stderr, "cp: /tmp: Is a directory\n");
    assert_eq!(result.stdout, "A");
}

#[test]
fn rm_options_and_errors() {
    let mut bash = shell();
    let result = bash.exec("rm");
    assert_eq!(result.stderr, "rm: missing operand\n");
    assert_eq!(result.exit_code, 1);
    let result = bash.exec("mkdir -p d/e; rm d; rm -rf d; ls");
    assert_eq!(result.stderr, "rm: /home/user/d: Directory not empty\n");
    assert_eq!(result.stdout, "");
    assert_eq!(result.exit_code, 0);
    let result = bash.exec("rm /; rm nope");
    assert_eq!(
        result.stderr,
        "rm: cannot remove '/'\nrm: /home/user/nope: No such file or directory\n"
    );
    let result = bash.exec("touch f; rm -f f; ls");
    assert_eq!(result.stdout, "");
}

#[test]
fn printf_echo_true_false() {
    let mut bash = shell();
    assert_eq!(bash.exec("printf '%d-%s|' 1 a 2 b").stdout, "1-a|2-b|");
    assert_eq!(bash.exec("printf '100%%\\t%q\\n'").stdout, "100%\t%q\n");
    assert_eq!(bash.exec("printf").stdout, "");
    assert_eq!(bash.exec("printf '%s %s\\n' a").stdout, "a \n");
    assert_eq!(bash.exec("echo -n a b; echo c").stdout, "a bc\n");
    assert_eq!(bash.exec("echo").stdout, "\n");
    assert_eq!(bash.exec("true").exit_code, 0);
    assert_eq!(bash.exec("false").exit_code, 1);
}

#[test]
fn pipelines_pass_output_along() {
    let mut bash = shell();
    let result = bash.exec("printf 'a\\nb\\nab\\n' | grep b | wc");
    assert_eq!(result.stdout, "2 2 5\n");
    let result = bash.exec("export X=1 | true; echo [$X]");
    assert_eq!(result.stdout, "[]\n");
    let result = bash.exec("echo hi | cat > out; cat out");
    assert_eq!(result.stdout, "hi\n");
}

#[test]
fn status_of_skipped_statements_carries_over() {
    let mut bash = shell();
    let result = bash.exec("false && echo x");
    assert_eq!(result.exit_code, 1);
    let result = bash.exec("true || echo x");
    assert_eq!(result.exit_code, 0);
    assert_eq!(result.stdout, "");
}

#[test]
fn budget_counts_each_command_of_a_pipeline() {
    let mut bash = Bash::new(BashOptions {
        limits: BashExecutionLimits {
            max_command_count: 2,
            ..BashExecutionLimits::default()
        },
        ..BashOptions::default()
    })
    .unwrap();
    let result = bash.exec("echo a | cat | cat");
    assert_eq!(result.stdout, "");
    assert_eq!(result.stderr, "bash: command count exceeds limit (2)\n");
    assert_eq!(result.exit_code, 1);
    assert_eq!(bash.exec("echo a | cat").stdout, "a\n");
}

#[test]
fn question_mark_expands_to_the_last_status() {
    let mut bash = shell();
    assert_eq!(bash.exec("false; echo $?").stdout, "1\n");
    assert_eq!(bash.exec("true; echo ${?} $?x").stdout, "0 0x\n");
    assert_eq!(bash.exec("wat; echo $?").stdout, "127\n");
    assert_eq!(bash.exec("exit -3").exit_code, -3);
    assert_eq!(bash.exec("false; echo $(echo $?)").stdout, "1\n");
    assert_eq!(bash.exec("echo '$?'").stdout, "$?\n");
    assert_eq!(bash.exec("echo $1-").stdout, "-\n");
}

#[test]
fn redirections_are_set_up_before_words_are_expanded() {
    let mut bash = shell();
    let result = bash.exec("echo $(touch g) > missing/x; ls");
    assert_eq!(result.stdout, "");
    assert_eq!(
        result.stderr,
        "bash: /home/user/missing: No such file or directory\n"
    );
    assert!(!bash.fs().path_exists("/home/user/g"));
}

#[test]
fn parentheses_inside_a_substitution_stay_in_its_body() {
    let mut bash = shell();
    assert_eq!(bash.exec("echo $(echo (a)) rest").stdout, "(a) rest\n");
}

#[test]
fn unset_names_expand_to_nothing_and_plain_text_stays() {
    let mut bash = shell();
    let out = bash.exec("echo plain-text; echo [$NOPE]; echo [${NOPE}]x; echo $");
    assert_eq!(out.stdout, "plain-text\n[]\n[]x\n$\n");
    assert_eq!(out.exit_code, 0);
}

#[test]
fn cd_to_a_file_or_missing_path_changes_nothing() {
    let mut bash = shell_with_files(&[("/tmp/f", "x")]);
    let out = bash.exec("cd /tmp/f; pwd; cd /missing; pwd");
    assert_eq!(out.stdout, "/home/user\n/home/user\n");
    assert_eq!(
        out.stderr,
        "cd: /tmp/f: No such file or directory\ncd: /missing: No such file or directory\n"
    );
    assert_eq!(out.exit_code, 0);
}

#[test]
fn dot_and_dot_dot_resolve_against_the_working_directory() {
    let mut bash = shell();
    let out = bash.exec("cd .; pwd; cd ..; pwd; cd ../..; pwd");
    assert_eq!(out.stdout, "/home/user\n/home\n/\n");
}

#[test]
fn every_builtin_is_recognized() {
    for name in [
        "cat", "cd", "cp", "echo", "env", "export", "false", "grep", "ls", "mkdir", "printf",
        "pwd", "rm", "touch", "true", "wc",
    ] {
        let mut bash = shell();
        let out = bash.exec(name);
        assert_ne!(out.exit_code, 127, "{name}");
        assert!(out.exit_code <= 2, "{name}");
        assert!(!out.stderr.contains("command not found"), "{name}");
    }
    let mut bash = shell();
    assert_eq!(bash.exec("nosuchcmd").exit_code, 127);
}

#[test]
fn new_shell_reads_back_seeded_files_from_its_working_directory() {
    let mut files = StringMap::new();
    files.insert("/tmp/a.txt".to_string(), "alpha\n".to_string());
    files.insert("/home/user/b.txt".to_string(), "beta\n".to_string());
    let mut bash = Bash::new(BashOptions {
        files,
        cwd: Some("/srv/app".to_string()),
        ..BashOptions::default()
    })
    .unwrap();
    assert!(bash.fs().is_dir("/srv/app"));
    assert_eq!(bash.fs().read_file("/tmp/a.txt").unwrap(), "alpha\n");
    let out = bash.exec("pwd; cat /tmp/a.txt /home/user/b.txt");
    assert_eq!(out.stdout, "/srv/app\nalpha\nbeta\n");
}

#[test]
fn exit_ends_the_script_even_when_its_redirection_fails() {
    let mut bash = shell();
    let out = bash.exec("exit < /missing; echo after");
    assert_eq!(out.stdout, "");
    assert_eq!(out.stderr, "bash: /missing: No such file or directory\n");
    assert_eq!(out.exit_code, 1);
    let out = bash.exec("E=exit; $E 4 < /missing; echo after");
    assert_eq!(out.stdout, "");
    assert_eq!(out.exit_code, 1);
    let out = bash.exec("echo x < /missing; echo after");
    assert_eq!(out.stdout, "after\n");
    assert_eq!(out.exit_code, 0);
}
