use eve_settings::chat::{project_chat, ChatPanel};
use eve_settings::value::Value;

fn ts() -> Value {
    Value::Long(vec![0u8; 8])
}

fn b(s: &str) -> Value {
    Value::Bytes(s.as_bytes().to_vec())
}

/// (timestamp, value): the file-wide value wrapper.
fn wrapped(v: Value) -> Value {
    Value::Tuple(vec![ts(), v])
}

/// A user document whose root `ui` section holds `entries`.
fn user_doc(entries: Vec<(Value, Value)>) -> Value {
    Value::Dict(vec![(b("ui"), Value::Dict(entries))])
}

fn panel<'a>(panels: &'a [ChatPanel], id: &str) -> &'a ChatPanel {
    panels.iter().find(|p| p.window_id == id).expect("panel present")
}

#[test]
fn projects_both_keys_for_one_channel() {
    let doc = user_doc(vec![
        (b("chatchannel_local_userlistwidth"), wrapped(Value::Int(135))),
        (b("chatinputsize_chatchannel_local"), wrapped(Value::Int(64))),
    ]);
    let panels = project_chat(&doc);
    assert_eq!(panels.len(), 1);
    let p = panel(&panels, "chatchannel_local");
    assert_eq!(p.userlist_width, Some(135));
    assert_eq!(p.input_height, Some(64));
}

#[test]
fn a_channel_with_only_one_key_projects_the_other_as_none() {
    let doc = user_doc(vec![
        (b("chatchannel_fleet_userlistwidth"), wrapped(Value::Int(107))),
        (b("chatinputsize_chatchannel_corp"), wrapped(Value::Int(63))),
    ]);
    let panels = project_chat(&doc);
    assert_eq!(panels.len(), 2);
    assert_eq!(panel(&panels, "chatchannel_fleet").userlist_width, Some(107));
    assert_eq!(panel(&panels, "chatchannel_fleet").input_height, None);
    assert_eq!(panel(&panels, "chatchannel_corp").userlist_width, None);
    assert_eq!(panel(&panels, "chatchannel_corp").input_height, Some(63));
}

#[test]
fn resolves_a_shared_section_key_and_a_ref_entry_key() {
    let doc = Value::Dict(vec![(
        Value::Shared { slot: 1, value: Box::new(b("ui")) },
        Value::Dict(vec![
            (
                Value::Shared { slot: 2, value: Box::new(b("chatchannel_local_userlistwidth")) },
                wrapped(Value::Int(135)),
            ),
            (Value::Ref(2), wrapped(Value::Int(999))),
        ]),
    )]);
    let panels = project_chat(&doc);
    assert_eq!(panels.len(), 1);
    assert_eq!(panel(&panels, "chatchannel_local").userlist_width, Some(135));
}

#[test]
fn a_malformed_value_is_skipped_not_panicked_on() {
    let doc = user_doc(vec![
        (b("chatchannel_local_userlistwidth"), wrapped(b("wide"))),
        (b("chatchannel_corp_userlistwidth"), Value::Tuple(vec![ts()])),
        (b("chatchannel_fleet_userlistwidth"), wrapped(Value::Int(107))),
    ]);
    let panels = project_chat(&doc);
    assert_eq!(panels.len(), 1);
    assert_eq!(panel(&panels, "chatchannel_fleet").userlist_width, Some(107));
}

#[test]
fn ignores_keys_that_are_not_chat_windows() {
    let doc = user_doc(vec![
        (b("neocomWidth"), wrapped(Value::Int(37))),
        (b("someotherwindow_userlistwidth"), wrapped(Value::Int(90))),
    ]);
    assert!(project_chat(&doc).is_empty());
}

#[test]
fn a_document_with_no_ui_section_projects_nothing() {
    let doc = Value::Dict(vec![(b("windows"), Value::Dict(vec![]))]);
    assert!(project_chat(&doc).is_empty());
}

#[test]
fn panels_come_back_sorted_by_window_id() {
    let doc = user_doc(vec![
        (b("chatchannel_local_userlistwidth"), wrapped(Value::Int(135))),
        (b("chatchannel_alliance_userlistwidth"), wrapped(Value::Int(80))),
        (b("chatchannel_fleet_userlistwidth"), wrapped(Value::Int(107))),
    ]);
    let panels = project_chat(&doc);
    let ids: Vec<&str> = panels.iter().map(|p| p.window_id.as_str()).collect();
    assert_eq!(ids, ["chatchannel_alliance", "chatchannel_fleet", "chatchannel_local"]);
}

#[test]
fn a_bare_value_and_a_wrapped_ui_section_are_read() {
    let doc = Value::Dict(vec![(
        b("ui"),
        Value::Tuple(vec![
            ts(),
            Value::Dict(vec![
                (b("chatinputsize_chatchannel_local"), Value::Int(70)),
                (b("chatinputsize_chatchannel_local"), Value::Int(71)),
                (Value::Str("chatchannel_corp_userlistwidth".into()), wrapped(Value::Int(90))),
            ]),
        ]),
    )]);
    let panels = project_chat(&doc);
    let ids: Vec<&str> = panels.iter().map(|p| p.window_id.as_str()).collect();
    assert_eq!(ids, ["chatchannel_corp", "chatchannel_local"]);
    assert_eq!(panel(&panels, "chatchannel_local").input_height, Some(70), "the first value wins");
    assert_eq!(panel(&panels, "chatchannel_corp").userlist_width, Some(90));
}

#[test]
fn the_width_suffix_is_tried_before_the_input_prefix() {
    let doc = user_doc(vec![(b("chatinputsize_chatchannel_x_userlistwidth"), wrapped(Value::Int(5)))]);
    assert!(project_chat(&doc).is_empty(), "the id would be chatinputsize_chatchannel_x, not a chat window");
}
