use pier::error::PierError;
use pier::script::Script;
use pier::store::Store;

fn script(alias: &str, command: &str, tags: &[&str]) -> Script {
    Script {
        alias: alias.to_string(),
        description: None,
        command: command.to_string(),
        tags: tags.iter().map(|t| t.to_string()).collect(),
        reference: None,
    }
}

#[test]
fn add_then_get_returns_the_script() {
    let mut st = Store::new();
    st.add(script("greet", "echo hi", &[])).unwrap();
    let s = st.get("greet").unwrap();
    assert_eq!(s.alias, "greet");
    assert_eq!(s.command, "echo hi");
}

#[test]
fn add_duplicate_alias_fails_and_leaves_store_unchanged() {
    let mut st = Store::new();
    st.add(script("greet", "echo hi", &[])).unwrap();
    let r = st.add(script("greet", "echo other", &[]));
    assert_eq!(r, Err(PierError::DuplicateAlias));
    assert_eq!(st.len(), 1);
    assert_eq!(st.get("greet").unwrap().command, "echo hi");
}

#[test]
fn get_missing_alias_is_not_found() {
    let st = Store::new();
    assert_eq!(st.get("missing-alias").unwrap_err(), PierError::AliasNotFound);
}

#[test]
fn remove_deletes_and_keeps_relative_order() {
    let mut st = Store::new();
    st.add(script("a", "1", &[])).unwrap();
    st.add(script("b", "2", &[])).unwrap();
    st.add(script("c", "3", &[])).unwrap();
    st.remove("b").unwrap();
    assert_eq!(st.len(), 2);
    assert_eq!(st.at(0).alias, "a");
    assert_eq!(st.at(1).alias, "c");
    assert_eq!(st.get("b").unwrap_err(), PierError::AliasNotFound);
}

#[test]
fn remove_missing_alias_is_not_found() {
    let mut st = Store::new();
    st.add(script("a", "1", &[])).unwrap();
    assert_eq!(st.remove("zzz"), Err(PierError::AliasNotFound));
    assert_eq!(st.len(), 1);
}

#[test]
fn edit_replaces_command_and_keeps_position() {
    let mut st = Store::new();
    st.add(script("a", "1", &[])).unwrap();
    st.add(script("b", "2", &[])).unwrap();
    st.edit("a", "changed".to_string()).unwrap();
    assert_eq!(st.at(0).alias, "a");
    assert_eq!(st.at(0).command, "changed");
    assert_eq!(st.at(1).command, "2");
}

#[test]
fn edit_missing_alias_is_not_found() {
    let mut st = Store::new();
    assert_eq!(st.edit("a", "x".to_string()), Err(PierError::AliasNotFound));
}

#[test]
fn filter_keeps_exactly_the_scripts_with_all_requested_tags() {
    let mut st = Store::new();
    st.add(script("a", "1", &["t1"])).unwrap();
    st.add(script("b", "2", &["t1", "t2"])).unwrap();
    st.add(script("c", "3", &["t2"])).unwrap();
    st.add(script("d", "4", &["t2", "t1", "t3"])).unwrap();
    let both = st.filter(&vec!["t1".to_string(), "t2".to_string()]);
    let names: Vec<&str> = both.iter().map(|s| s.alias.as_str()).collect();
    assert_eq!(names, vec!["b", "d"]);
}

#[test]
fn filter_with_no_tags_returns_the_full_sequence_unchanged() {
    let mut st = Store::new();
    st.add(script("a", "1", &["t1"])).unwrap();
    st.add(script("b", "2", &[])).unwrap();
    let all = st.filter(&Vec::new());
    let names: Vec<&str> = all.iter().map(|s| s.alias.as_str()).collect();
    assert_eq!(names, vec!["a", "b"]);
}

#[test]
fn aliases_lists_matching_aliases_in_order() {
    let mut st = Store::new();
    st.add(script("a", "1", &["x"])).unwrap();
    st.add(script("b", "2", &["y"])).unwrap();
    st.add(script("c", "3", &["x"])).unwrap();
    let names = st.aliases(&vec!["x".to_string()]);
    assert_eq!(names, vec!["a".to_string(), "c".to_string()]);
}

#[test]
fn error_messages_name_each_failure() {
    assert_eq!(PierError::DuplicateAlias.message(), "alias already exists in the store");
    assert_eq!(PierError::AliasNotFound.message(), "alias not found in the store");
    assert_eq!(PierError::LoadError.message(), "persisted store state is missing or malformed");
    assert_eq!(PierError::ExecutionFailed.message(), "the shell process could not be started");
    assert_eq!(PierError::EditorFailed.message(), "the external editor did not produce content");
}
