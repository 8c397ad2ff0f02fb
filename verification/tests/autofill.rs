use eve_settings::autofill::project_edit_history;
use eve_settings::value::Value;

fn b(s: &str) -> Value {
    Value::Bytes(s.as_bytes().to_vec())
}

fn ts() -> Value {
    Value::Long(vec![0u8; 8])
}

/// user root -> b"ui" -> b"editHistory" -> (ts, { widget: [entries] })
fn user_with_history() -> Value {
    let hist = Value::Dict(vec![
        (b("/addressbook/.../SingleLineEditText"), Value::List(vec![Value::Str("Jita".into()), Value::Str("Amarr".into())])),
        (b("/inventory/.../quickFilter"), Value::List(vec![Value::Str("veldspar".into())])),
    ]);
    let ui = Value::Dict(vec![(b("editHistory"), Value::Tuple(vec![ts(), hist]))]);
    Value::Dict(vec![(b("ui"), ui)])
}

#[test]
fn projects_widget_lists_in_order() {
    let lists = project_edit_history(&user_with_history());
    assert_eq!(lists.len(), 2);
    assert_eq!(lists[0].widget, "/addressbook/.../SingleLineEditText");
    assert_eq!(lists[0].entries, vec!["Jita", "Amarr"]);
    assert_eq!(lists[1].entries, vec!["veldspar"]);
}

#[test]
fn a_file_without_edit_history_projects_empty() {
    assert!(project_edit_history(&Value::Dict(vec![])).is_empty());
}

#[test]
fn resolves_ref_shared_keys_values_and_coerces_empty_bytes() {
    let jita = Value::Shared { slot: 1, value: Box::new(Value::Str("Jita".into())) };
    let hist = Value::Dict(vec![
        (b("/a/box"), Value::List(vec![jita, Value::Bytes(vec![])])),
        (b("/b/box"), Value::List(vec![Value::Ref(1)])),
    ]);
    let ui = Value::Dict(vec![(b("editHistory"), Value::Tuple(vec![ts(), hist]))]);
    let user = Value::Dict(vec![(b("ui"), ui)]);
    let lists = project_edit_history(&user);
    assert_eq!(lists[0].entries, vec!["Jita", ""], "Shared resolved, empty Bytes -> \"\"");
    assert_eq!(lists[1].entries, vec!["Jita"], "Ref resolved to the Shared value");
}

#[test]
fn entries_that_are_not_lists_or_not_byte_keyed_are_skipped() {
    let hist = Value::Dict(vec![
        (Value::Str("/text/key".into()), Value::List(vec![Value::Str("x".into())])),
        (b("/no/list"), Value::Int(3)),
        (b("/wrapped"), Value::Tuple(vec![ts(), Value::List(vec![Value::StrUcs2("w".into()), Value::Int(1)])])),
    ]);
    let ui = Value::Dict(vec![(b("editHistory"), hist)]);
    let lists = project_edit_history(&Value::Dict(vec![(b("ui"), ui)]));
    assert_eq!(lists.len(), 1);
    assert_eq!(lists[0].widget, "/wrapped");
    assert_eq!(lists[0].entries, vec!["w", ""], "a non-text entry reads as empty");
}
