use just_bash::{
    parse_script, parse_script_with_limits, CommandInvocation, ParseLimits, PipelineConnector,
    RedirectMode, Script, StatementKind, WordPartKind,
};

fn pipeline_cmds(script: &Script, idx: usize) -> &[CommandInvocation] {
    match &script.statements[idx].kind {
        StatementKind::Pipeline(cmds) => cmds,
        other => panic!("expected Pipeline at {idx}, got {other:?}"),
    }
}

#[test]
fn parses_pipelines_and_redirects() {
    let script = parse_script("cat < in.txt | grep hi > out.txt; echo done >> log").unwrap();
    assert_eq!(script.statements.len(), 2);
    assert_eq!(script.statements[0].connector, PipelineConnector::Always);
    let cmds0 = pipeline_cmds(&script, 0);
    assert_eq!(cmds0.len(), 2);
    assert_eq!(cmds0[0].words[0].text(), "cat");
    assert_eq!(cmds0[0].redirects[0].mode, RedirectMode::Read);
    assert_eq!(cmds0[1].words[0].text(), "grep");
    assert_eq!(cmds0[1].words[1].text(), "hi");
    assert_eq!(cmds0[1].redirects[0].mode, RedirectMode::Write);
    let cmds1 = pipeline_cmds(&script, 1);
    assert_eq!(cmds1[0].redirects[0].mode, RedirectMode::Append);
}

#[test]
fn parses_and_or_connectors() {
    let script = parse_script("false || echo fallback && echo done").unwrap();
    assert_eq!(script.statements.len(), 3);
    assert_eq!(script.statements[0].connector, PipelineConnector::Always);
    assert_eq!(script.statements[1].connector, PipelineConnector::Or);
    assert_eq!(script.statements[2].connector, PipelineConnector::And);
}

#[test]
fn preserves_quoted_expansion_rules() {
    let script = parse_script("echo '$NOPE' \"$YES\" pre'$NO'-$YES").unwrap();
    let words = &pipeline_cmds(&script, 0)[0].words;
    assert_eq!(words[1].parts[0].text, "$NOPE");
    assert_eq!(words[1].parts[0].kind, WordPartKind::Literal);
    assert_eq!(words[2].parts[0].text, "$YES");
    assert_eq!(words[2].parts[0].kind, WordPartKind::Variable);
    assert_eq!(words[3].parts.len(), 3);
    assert_eq!(words[3].parts[0].text, "pre");
    assert_eq!(words[3].parts[0].kind, WordPartKind::Variable);
    assert_eq!(words[3].parts[1].text, "$NO");
    assert_eq!(words[3].parts[1].kind, WordPartKind::Literal);
    assert_eq!(words[3].parts[2].text, "-$YES");
    assert_eq!(words[3].parts[2].kind, WordPartKind::Variable);
}

#[test]
fn preserves_empty_quoted_words() {
    let script = parse_script(r#"echo '' """#).unwrap();
    let words = &pipeline_cmds(&script, 0)[0].words;
    assert_eq!(words.len(), 3);
    assert_eq!(words[1].text(), "");
    assert_eq!(words[2].text(), "");
}

#[test]
fn treats_hash_as_comment_only_at_word_start() {
    let script = parse_script("echo foo#bar # comment\necho https://example/#frag").unwrap();
    assert_eq!(script.statements.len(), 2);
    assert_eq!(pipeline_cmds(&script, 0)[0].words[1].text(), "foo#bar");
    assert_eq!(
        pipeline_cmds(&script, 1)[0].words[1].text(),
        "https://example/#frag"
    );
}

#[test]
fn rejects_missing_pipeline_commands() {
    let error = parse_script("echo &&").unwrap_err();
    assert!(
        error.to_string().contains("&&"),
        "expected token '&&' in error: {error:?}"
    );

    let error = parse_script("echo || || echo").unwrap_err();
    assert!(
        error.to_string().contains("||"),
        "expected token '||' in error: {error:?}"
    );

    // A leading pipe is skipped: "| echo" parses as "echo".
    let script = parse_script("| echo").unwrap();
    assert_eq!(script.statements.len(), 1);
}

#[test]
fn rejects_missing_redirect_target() {
    let error = parse_script("echo hi >").unwrap_err();
    assert_eq!(
        error.to_string(),
        "syntax error near unexpected token `newline'"
    );
}

#[test]
fn keeps_command_substitutions_as_command_sub_parts() {
    let script = parse_script("echo $(printf 'a|b;c') | cat && echo done").unwrap();
    assert_eq!(script.statements.len(), 2);
    let cmds = pipeline_cmds(&script, 0);
    assert_eq!(cmds.len(), 2);
    let sub_word = &cmds[0].words[1];
    assert_eq!(sub_word.parts.len(), 1);
    assert_eq!(sub_word.parts[0].kind, WordPartKind::CommandSub);
    assert_eq!(sub_word.parts[0].text, "printf 'a|b;c'");
}

#[test]
fn keeps_arithmetic_substitution_body_without_trailing_paren() {
    let script = parse_script("echo $((i + 2 * 3))").unwrap();
    let cmds = pipeline_cmds(&script, 0);
    let sub_word = &cmds[0].words[1];
    assert_eq!(sub_word.parts.len(), 1);
    assert_eq!(sub_word.parts[0].kind, WordPartKind::CommandSub);
    assert_eq!(sub_word.parts[0].text, "i + 2 * 3");
}

#[test]
fn errors_on_unclosed_command_substitution() {
    let error = parse_script("echo $(printf hi").unwrap_err();
    assert_eq!(
        error.to_string(),
        "unexpected EOF while looking for matching `)`"
    );
}

#[test]
fn rejects_excessive_command_substitution_nesting() {
    let limits = ParseLimits {
        max_command_substitution_depth: 2,
    };
    let error =
        parse_script_with_limits("echo $(printf $(printf $(printf hi)))", limits).unwrap_err();
    assert_eq!(
        error.to_string(),
        "command substitution nesting exceeds limit (2)"
    );
}

#[test]
fn parses_if_elif_else_fi() {
    let script =
        parse_script("if true; then echo yes; elif false; then echo mid; else echo no; fi")
            .unwrap();
    assert_eq!(script.statements.len(), 1);
    let StatementKind::If(if_stmt) = &script.statements[0].kind else {
        panic!("expected If");
    };
    assert_eq!(if_stmt.condition.len(), 1);
    assert_eq!(if_stmt.body.len(), 1);
    assert_eq!(if_stmt.elif_clauses.len(), 1);
    assert!(if_stmt.else_body.is_some());
}

#[test]
fn parses_while_loop() {
    let script = parse_script("while false; do echo loop; done").unwrap();
    let StatementKind::While(w) = &script.statements[0].kind else {
        panic!("expected While");
    };
    assert_eq!(w.condition.len(), 1);
    assert_eq!(w.body.len(), 1);
}

#[test]
fn parses_for_loop() {
    let script = parse_script("for x in a b c; do echo $x; done").unwrap();
    let StatementKind::For(f) = &script.statements[0].kind else {
        panic!("expected For");
    };
    assert_eq!(f.var, "x");
    assert_eq!(f.items.len(), 3);
    assert_eq!(f.body.len(), 1);
}

#[test]
fn substitution_body_ends_at_its_own_closing_paren() {
    let script = parse_script("echo $(echo $((1+2))) rest").unwrap();
    let cmds = pipeline_cmds(&script, 0);
    assert_eq!(cmds[0].words.len(), 3);
    assert_eq!(cmds[0].words[1].parts.len(), 1);
    assert_eq!(cmds[0].words[1].parts[0].kind, WordPartKind::CommandSub);
    assert_eq!(cmds[0].words[1].parts[0].text, "echo $((1+2))");
    assert_eq!(cmds[0].words[2].text(), "rest");
    let script = parse_script("echo $(echo (a)) b").unwrap();
    let cmds = pipeline_cmds(&script, 0);
    assert_eq!(cmds[0].words[1].parts[0].text, "echo (a)");
    assert_eq!(cmds[0].words[2].text(), "b");
}

#[test]
fn raising_the_nesting_limit_keeps_a_parsed_script() {
    let src = "echo $(echo $(echo hi)) | wc; ls";
    let low = parse_script_with_limits(
        src,
        ParseLimits {
            max_command_substitution_depth: 2,
        },
    )
    .unwrap();
    let high = parse_script_with_limits(
        src,
        ParseLimits {
            max_command_substitution_depth: 7,
        },
    )
    .unwrap();
    assert_eq!(low, high);
    assert_eq!(parse_script(src).unwrap(), low);
    assert!(parse_script_with_limits(
        src,
        ParseLimits {
            max_command_substitution_depth: 1,
        },
    )
    .is_err());
}

#[test]
fn cloned_scripts_equal_the_original() {
    let script = parse_script(
        "if true; then echo a; elif false; then echo b; else echo c; fi; while false; do echo w; done; for x in 1 2; do echo $x; done",
    )
    .unwrap();
    let copy = script.clone();
    assert_eq!(copy, script);
    assert_eq!(script.statements[0].clone(), script.statements[0]);
    assert_eq!(script.statements[1].kind.clone(), script.statements[1].kind);
}
