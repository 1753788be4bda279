use pier::engine::{assemble, prepare_run, run_outcome, split_lines, SpawnOutcome};
use pier::error::PierError;
use pier::script::Script;
use pier::store::Store;

fn script(alias: &str, command: &str) -> Script {
    Script {
        alias: alias.to_string(),
        description: None,
        command: command.to_string(),
        tags: Vec::new(),
        reference: None,
    }
}

#[test]
fn split_lines_drops_empty_lines_and_keeps_order() {
    assert_eq!(split_lines("a\n\nb\n"), vec!["a".to_string(), "b".to_string()]);
    assert_eq!(split_lines(""), Vec::<String>::new());
    assert_eq!(split_lines("only"), vec!["only".to_string()]);
}

#[test]
fn a_two_line_script_becomes_one_text_for_one_shell_context() {
    // Line 1 sets a variable, line 2 reads it: both stand in a single
    // command text, separated by a newline, never in isolated invocations.
    let text = assemble("X=5\necho $X", &Vec::new());
    assert_eq!(text, "X=5\necho $X");
}

#[test]
fn trailing_arguments_are_appended_not_spliced() {
    let text = assemble("echo $1", &vec!["hello".to_string()]);
    assert_eq!(text, "echo $1 hello");
}

#[test]
fn several_arguments_keep_their_order() {
    let text = assemble("run", &vec!["a".to_string(), "b".to_string()]);
    assert_eq!(text, "run a b");
}

#[test]
fn an_explicit_exit_line_is_handed_to_the_shell_verbatim() {
    assert_eq!(assemble("exit 7", &Vec::new()), "exit 7");
    assert_eq!(assemble("exit 0", &Vec::new()), "exit 0");
}

#[test]
fn a_child_exit_status_is_propagated_unchanged() {
    assert_eq!(run_outcome(SpawnOutcome::Finished(Some(7))), Ok(7));
    assert_eq!(run_outcome(SpawnOutcome::Finished(Some(0))), Ok(0));
    assert_eq!(run_outcome(SpawnOutcome::Finished(None)), Ok(0));
}

#[test]
fn a_spawn_that_never_started_is_execution_failed() {
    assert_eq!(
        run_outcome(SpawnOutcome::NotStarted),
        Err(PierError::ExecutionFailed)
    );
}

#[test]
fn running_a_missing_alias_is_not_found_and_produces_no_command() {
    let st = Store::new();
    let r = prepare_run(&st, "missing-alias", &Vec::new());
    assert_eq!(r, Err(PierError::AliasNotFound));
}

#[test]
fn running_a_stored_script_materializes_its_command_text() {
    let mut st = Store::new();
    st.add(script("greet", "echo hi")).unwrap();
    let text = prepare_run(&st, "greet", &vec!["there".to_string()]).unwrap();
    assert_eq!(text, "echo hi there");
}
