use just_bash::{Bash, BashOptions, StringMap};

#[test]
fn executes_basic_commands_and_preserves_cwd() {
    let mut bash = Bash::new(BashOptions::default()).unwrap();
    let result = bash.exec("pwd; mkdir -p work; cd work; pwd; echo hello rust");
    assert_eq!(result.stdout, "/home/user\n/home/user/work\nhello rust\n");
    assert_eq!(result.stderr, "");
    assert_eq!(result.exit_code, 0);
    assert_eq!(result.cwd, "/home/user/work");
}

#[test]
fn reads_and_writes_virtual_files() {
    let mut files = StringMap::new();
    files.insert("/home/user/input.txt".to_string(), "hello\n".to_string());
    let mut bash = Bash::new(BashOptions {
        files,
        ..BashOptions::default()
    })
    .unwrap();
    let result = bash.exec("cat input.txt; cp input.txt copy.txt; ls");
    assert_eq!(result.stdout, "hello\ncopy.txt\ninput.txt\n");
    assert_eq!(result.stderr, "");
    assert_eq!(
        bash.fs().read_file("/home/user/copy.txt").unwrap(),
        "hello\n"
    );
}

#[test]
fn reports_unknown_commands() {
    let mut bash = Bash::new(BashOptions::default()).unwrap();
    let result = bash.exec("wat");
    assert_eq!(result.stdout, "");
    assert_eq!(result.stderr, "bash: wat: command not found\n");
    assert_eq!(result.exit_code, 127);
}

#[test]
fn expands_environment_variables() {
    let mut env = StringMap::new();
    env.insert("NAME".to_string(), "rust".to_string());
    let mut bash = Bash::new(BashOptions {
        env,
        ..BashOptions::default()
    })
    .unwrap();
    let result = bash.exec("echo $NAME");
    assert_eq!(result.stdout, "rust\n");
}

#[test]
fn pipes_stdout_into_next_command() {
    let mut bash = Bash::new(BashOptions::default()).unwrap();
    let result = bash.exec("echo alpha; echo beta | grep beta | wc");
    assert_eq!(result.stdout, "alpha\n1 1 5\n");
    assert_eq!(result.stderr, "");
    assert_eq!(result.exit_code, 0);
}

#[test]
fn supports_input_output_and_append_redirection() {
    let mut files = StringMap::new();
    files.insert("/home/user/input.txt".to_string(), "one\ntwo\n".to_string());
    let mut bash = Bash::new(BashOptions {
        files,
        ..BashOptions::default()
    })
    .unwrap();
    let result = bash.exec("grep two < input.txt > out.txt; echo done >> out.txt; cat out.txt");
    assert_eq!(result.stdout, "two\ndone\n");
    assert_eq!(result.stderr, "");
    assert_eq!(result.exit_code, 0);
    assert_eq!(
        bash.fs().read_file("/home/user/out.txt").unwrap(),
        "two\ndone\n"
    );
}

#[test]
fn honors_and_or_connectors() {
    let mut bash = Bash::new(BashOptions::default()).unwrap();
    let result = bash.exec(
        "false && echo nope; false || echo fallback; true && echo done; true || echo skip",
    );
    assert_eq!(result.stdout, "fallback\ndone\n");
    assert_eq!(result.stderr, "");
    assert_eq!(result.exit_code, 0);
}

#[test]
fn expands_variables_inside_words_and_braces() {
    let mut env = StringMap::new();
    env.insert("NAME".to_string(), "rust".to_string());
    env.insert("SUFFIX".to_string(), "core".to_string());
    let mut bash = Bash::new(BashOptions {
        env,
        ..BashOptions::default()
    })
    .unwrap();
    let result = bash.exec("echo hello-$NAME-${SUFFIX}");
    assert_eq!(result.stdout, "hello-rust-core\n");
    assert_eq!(result.stderr, "");
}

#[test]
fn rejects_writes_to_directories_and_missing_parents() {
    let mut bash = Bash::new(BashOptions::default()).unwrap();
    let result = bash.exec("echo hi > /tmp; touch /tmp; echo hi > missing/file; ls /tmp");
    assert_eq!(result.stdout, "");
    assert_eq!(
        result.stderr,
        "bash: /tmp: Is a directory\ntouch: /tmp: Is a directory\nbash: /home/user/missing: No such file or directory\n"
    );
    assert_eq!(result.exit_code, 0);
}

#[test]
fn mkdir_without_parents_fails_for_missing_parent() {
    let mut bash = Bash::new(BashOptions::default()).unwrap();
    let result = bash.exec("mkdir nested/child; ls");
    assert_eq!(result.stdout, "");
    assert_eq!(
        result.stderr,
        "mkdir: /home/user/nested: No such file or directory\n"
    );
    assert_eq!(result.exit_code, 0);
}

#[test]
fn pipeline_commands_do_not_mutate_parent_shell_state() {
    let mut bash = Bash::new(BashOptions::default()).unwrap();
    let result = bash.exec("cd /tmp | cat; pwd; exit 7 | true; echo after");
    assert_eq!(result.stdout, "/home/user\nafter\n");
    assert_eq!(result.stderr, "");
    assert_eq!(result.exit_code, 0);
    assert_eq!(result.cwd, "/home/user");
}

#[test]
fn wc_counts_newline_bytes_for_lines() {
    let mut bash = Bash::new(BashOptions::default()).unwrap();
    let result = bash.exec("echo -n x | wc");
    assert_eq!(result.stdout, "0 1 1\n");
    assert_eq!(result.stderr, "");
}

#[test]
fn output_redirection_truncates_before_command_runs() {
    let mut files = StringMap::new();
    files.insert("/home/user/f".to_string(), "old\n".to_string());
    let mut bash = Bash::new(BashOptions {
        files,
        ..BashOptions::default()
    })
    .unwrap();
    let result = bash.exec("cat f > f; wc f");
    assert_eq!(result.stdout, "0 0 0\n");
    assert_eq!(result.stderr, "");
    assert_eq!(bash.fs().read_file("/home/user/f").unwrap(), "");
}

#[test]
fn ls_lists_file_operands() {
    let mut files = StringMap::new();
    files.insert("/home/user/file.txt".to_string(), "data".to_string());
    let mut bash = Bash::new(BashOptions {
        files,
        ..BashOptions::default()
    })
    .unwrap();
    let result = bash.exec("ls file.txt");
    assert_eq!(result.stdout, "file.txt\n");
    assert_eq!(result.stderr, "");
}

#[test]
fn printf_formats_arguments() {
    let mut bash = Bash::new(BashOptions::default()).unwrap();
    let result = bash.exec("printf '%s\\n' a b");
    assert_eq!(result.stdout, "a\nb\n");
    assert_eq!(result.stderr, "");
}

#[test]
fn rm_rejects_unsupported_options_without_deleting() {
    let mut files = StringMap::new();
    files.insert("/home/user/file.txt".to_string(), "data".to_string());
    let mut bash = Bash::new(BashOptions {
        files,
        ..BashOptions::default()
    })
    .unwrap();
    let result = bash.exec("rm -i file.txt; cat file.txt");
    assert_eq!(result.stdout, "data");
    assert_eq!(result.stderr, "rm: unsupported option: -i\n");
    assert_eq!(result.exit_code, 0);
}

#[test]
fn single_quotes_suppress_variable_expansion() {
    let mut env = StringMap::new();
    env.insert("NAME".to_string(), "rust".to_string());
    let mut bash = Bash::new(BashOptions {
        env,
        ..BashOptions::default()
    })
    .unwrap();
    let result = bash.exec(r#"echo '$NAME' "$NAME" pre'$NAME'-$NAME"#);
    assert_eq!(result.stdout, "$NAME rust pre$NAME-rust\n");
    assert_eq!(result.stderr, "");
}

#[test]
fn assignment_words_update_environment() {
    let mut bash = Bash::new(BashOptions::default()).unwrap();
    let result = bash.exec("NAME=rust; echo $NAME");
    assert_eq!(result.stdout, "rust\n");
    assert_eq!(result.stderr, "");
}
