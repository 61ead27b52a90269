use nomos::script::types::bash::{script_step, BashScript, ScriptAction, ScriptCommand, SubstitutedCode};

fn pairs(commands: &[ScriptCommand<'_>]) -> Vec<(String, String)> {
    commands
        .iter()
        .map(|c| (c.script_line.to_string(), c.command.to_string()))
        .collect()
}

#[test]
fn commands_pair_substituted_lines_with_script_lines() {
    let script = BashScript { code: "echo {{name}}\n\nls {{dir}}\n".to_string() };
    let commands = script.command_lines("echo bob\n\nls /tmp\n");
    assert_eq!(
        pairs(&commands),
        vec![
            ("echo {{name}}".to_string(), "echo bob".to_string()),
            ("ls {{dir}}".to_string(), "ls /tmp".to_string()),
        ]
    );
    assert_eq!(commands[0].log_message(), "command: echo {{name}}");
}

#[test]
fn extra_substituted_lines_are_marked_expanded() {
    let script = BashScript { code: "{{lines}}".to_string() };
    let commands = script.command_lines("a\nb\r\nc");
    assert_eq!(
        pairs(&commands),
        vec![
            ("{{lines}}".to_string(), "a".to_string()),
            ("<expanded parameter line>".to_string(), "b".to_string()),
            ("<expanded parameter line>".to_string(), "c".to_string()),
        ]
    );
    assert_eq!(commands[2].log_message(), "command: <expanded parameter line>");
}

#[test]
fn plan_by_substitution_result() {
    let script = BashScript { code: "true".to_string() };
    assert!(script.plan(SubstitutedCode::Absent).unwrap().is_empty());
    match script.plan(SubstitutedCode::Multiple) {
        Err(e) => assert_eq!(e, "Code parameter cannot be an array"),
        Ok(_) => panic!("a list of code cannot run"),
    }
    let commands = script.plan(SubstitutedCode::Single("true")).unwrap();
    assert_eq!(pairs(&commands), vec![("true".to_string(), "true".to_string())]);
}

#[test]
fn empty_code_runs_nothing() {
    let script = BashScript { code: String::new() };
    assert!(script.command_lines("").is_empty());
    assert!(script.command_lines("\n\n").is_empty());
}

fn run(script: &BashScript, replaced: &str, dry_run: bool, fail_at: Option<&str>) -> (Vec<String>, Vec<String>, Result<(), String>) {
    let commands = script.command_lines(replaced);
    let mut logged = Vec::new();
    let mut ran = Vec::new();
    let mut next = 0;
    let mut previous = Ok(());
    loop {
        match script_step(&commands, next, dry_run, previous) {
            ScriptAction::Announce { message, command, execute } => {
                logged.push(message);
                previous = if execute {
                    ran.push(command.to_string());
                    if Some(command) == fail_at { Err(format!("{} failed", command)) } else { Ok(()) }
                } else {
                    Ok(())
                };
                next += 1;
            }
            ScriptAction::Finish(outcome) => return (logged, ran, outcome),
        }
    }
}

#[test]
fn script_runs_each_command_after_logging_it() {
    let script = BashScript { code: "a\nb\n".to_string() };
    let (logged, ran, outcome) = run(&script, "a\nb\n", false, None);
    assert_eq!(logged, vec!["command: a", "command: b"]);
    assert_eq!(ran, vec!["a", "b"]);
    assert_eq!(outcome, Ok(()));
}

#[test]
fn dry_run_logs_but_runs_nothing() {
    let script = BashScript { code: "a\nb".to_string() };
    let (logged, ran, outcome) = run(&script, "a\nb", true, Some("a"));
    assert_eq!(logged, vec!["command: a", "command: b"]);
    assert!(ran.is_empty());
    assert_eq!(outcome, Ok(()));
}

#[test]
fn failing_command_ends_the_run_with_its_error() {
    let script = BashScript { code: "a\nb\nc".to_string() };
    let (logged, ran, outcome) = run(&script, "a\nb\nc", false, Some("b"));
    assert_eq!(logged, vec!["command: a", "command: b"]);
    assert_eq!(ran, vec!["a", "b"]);
    assert_eq!(outcome, Err("b failed".to_string()));
}
