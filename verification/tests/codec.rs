use pier::error::PierError;
use pier::script::Script;
use pier::store::Store;

fn pad20(n: usize) -> String {
    format!("{:020}", n)
}

fn enc_text(s: &str) -> String {
    format!("{}{}", pad20(s.chars().count()), s)
}

fn sample_store() -> Store {
    let mut st = Store::new();
    st.add(Script {
        alias: "greet".to_string(),
        description: Some("say hello".to_string()),
        command: "echo hi".to_string(),
        tags: vec!["fun".to_string(), "demo".to_string()],
        reference: None,
    })
    .unwrap();
    st.add(Script {
        alias: "up".to_string(),
        description: None,
        command: "cd /\nls".to_string(),
        tags: Vec::new(),
        reference: Some("imported".to_string()),
    })
    .unwrap();
    st
}

#[test]
fn load_of_save_reconstructs_the_store() {
    let st = sample_store();
    let text = st.save();
    let loaded = Store::load(&text).unwrap();
    assert_eq!(loaded, st);
    let g = loaded.get("greet").unwrap();
    assert_eq!(g.description.as_deref(), Some("say hello"));
    assert_eq!(g.tags, vec!["fun".to_string(), "demo".to_string()]);
    let u = loaded.get("up").unwrap();
    assert_eq!(u.command, "cd /\nls");
    assert_eq!(u.reference.as_deref(), Some("imported"));
}

#[test]
fn save_of_load_is_a_no_op_on_saved_text() {
    let st = sample_store();
    let text = st.save();
    let loaded = Store::load(&text).unwrap();
    assert_eq!(loaded.save(), text);
}

#[test]
fn empty_store_round_trips() {
    let st = Store::new();
    let text = st.save();
    assert_eq!(text, pad20(0));
    let loaded = Store::load(&text).unwrap();
    assert_eq!(loaded.len(), 0);
}

#[test]
fn load_accepts_a_handwritten_encoding() {
    let text = format!(
        "{}{}n{}{}n",
        pad20(1),
        enc_text("a"),
        enc_text("echo x"),
        pad20(0)
    );
    let st = Store::load(&text).unwrap();
    assert_eq!(st.len(), 1);
    assert_eq!(st.get("a").unwrap().command, "echo x");
}

#[test]
fn load_rejects_garbage() {
    assert_eq!(Store::load("garbage").unwrap_err(), PierError::LoadError);
    assert_eq!(Store::load("").unwrap_err(), PierError::LoadError);
}

#[test]
fn load_rejects_trailing_text_after_a_valid_encoding() {
    let text = sample_store().save() + "x";
    assert_eq!(Store::load(&text).unwrap_err(), PierError::LoadError);
}

#[test]
fn load_rejects_duplicate_aliases() {
    let one = format!("{}n{}{}n", enc_text("a"), enc_text("echo x"), pad20(0));
    let text = format!("{}{}{}", pad20(2), one, one);
    assert_eq!(Store::load(&text).unwrap_err(), PierError::LoadError);
}

#[test]
fn load_rejects_an_empty_alias() {
    let text = format!(
        "{}{}n{}{}n",
        pad20(1),
        enc_text(""),
        enc_text("echo x"),
        pad20(0)
    );
    assert_eq!(Store::load(&text).unwrap_err(), PierError::LoadError);
}

#[test]
fn load_rejects_an_oversized_length_header() {
    let text = format!("{}99999999999999999999", pad20(1));
    assert_eq!(Store::load(&text).unwrap_err(), PierError::LoadError);
}
