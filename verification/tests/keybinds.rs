use eve_settings::batch::is_bytes;
use eve_settings::keybinds::{project_keybinds, set_keybind, KeybindEntry, KeybindError, Keybinds};
use eve_settings::value::Value;

fn b(s: &str) -> Value {
    Value::Bytes(s.as_bytes().to_vec())
}

fn ts() -> Value {
    Value::Long(vec![0u8; 8])
}

fn codes(v: &[i64]) -> Value {
    Value::Tuple(v.iter().map(|&n| Value::Int(n)).collect())
}

/// root -> cmd -> customCmds -> (ts, { command: value }), with a bare `cmd`
/// dict and bare code tuples as leaves.
fn user_with_binds() -> Value {
    let table = Value::Dict(vec![
        (b("CmdActivateHighPowerSlot1"), codes(&[81])),
        (b("CmdActivateMediumPowerSlot1"), codes(&[17, 83])),
        (b("CmdToggleAutopilot"), Value::Nil),
        (b("CmdDronesEngage"), codes(&[18, 16, 68])),
    ]);
    let cmd = Value::Dict(vec![(b("customCmds"), Value::Tuple(vec![ts(), table]))]);
    Value::Dict(vec![(b("cmd"), cmd)])
}

fn entry<'a>(k: &'a Keybinds, name: &str) -> &'a KeybindEntry {
    k.entries.iter().find(|e| e.command == name).expect("command projected")
}

#[test]
fn projects_every_command_in_file_order() {
    let k = project_keybinds(Some(&user_with_binds()));
    assert!(k.available);
    assert_eq!(k.entries.len(), 4);
    assert_eq!(k.entries[0].command, "CmdActivateHighPowerSlot1");
    assert_eq!(k.entries[3].command, "CmdDronesEngage");
}

#[test]
fn projects_bound_and_unbound_values() {
    let k = project_keybinds(Some(&user_with_binds()));
    assert_eq!(entry(&k, "CmdActivateHighPowerSlot1").keys, Some(vec![81]));
    assert_eq!(entry(&k, "CmdActivateMediumPowerSlot1").keys, Some(vec![17, 83]));
    assert_eq!(entry(&k, "CmdDronesEngage").keys, Some(vec![18, 16, 68]));
    let unbound = entry(&k, "CmdToggleAutopilot");
    assert_eq!(unbound.keys, None, "None is unbound, not malformed");
    assert!(!unbound.malformed);
}

#[test]
fn no_file_and_no_section_are_unavailable() {
    assert!(!project_keybinds(None).available);
    assert!(!project_keybinds(Some(&Value::Dict(vec![]))).available);
}

#[test]
fn an_empty_table_is_unavailable() {
    let cmd = Value::Dict(vec![(b("customCmds"), Value::Tuple(vec![ts(), Value::Dict(vec![])]))]);
    let user = Value::Dict(vec![(b("cmd"), cmd)]);
    let k = project_keybinds(Some(&user));
    assert!(!k.available);
    assert!(k.entries.is_empty());
}

#[test]
fn resolves_ref_and_shared_keys_and_values() {
    let table = Value::Dict(vec![
        (Value::Shared { slot: 3, value: Box::new(b("CmdApproachItem")) }, codes(&[65])),
        (b("CmdWarpToItem"), Value::Shared { slot: 4, value: Box::new(codes(&[83])) }),
        (Value::Ref(3), Value::Ref(4)),
    ]);
    let cmd = Value::Dict(vec![(b("customCmds"), Value::Tuple(vec![ts(), table]))]);
    let user = Value::Dict(vec![(Value::Shared { slot: 9, value: Box::new(b("cmd")) }, cmd)]);
    let k = project_keybinds(Some(&user));
    assert!(k.available, "a Ref-keyed section must still resolve");
    assert_eq!(entry(&k, "CmdApproachItem").keys, Some(vec![65]));
    assert_eq!(entry(&k, "CmdWarpToItem").keys, Some(vec![83]));
}

#[test]
fn an_unrecognised_value_is_malformed_not_silently_blank() {
    let table = Value::Dict(vec![
        (b("CmdWeird"), Value::Str("Q".into())),
        (b("CmdEmptyTuple"), Value::Tuple(vec![])),
    ]);
    let cmd = Value::Dict(vec![(b("customCmds"), Value::Tuple(vec![ts(), table]))]);
    let k = project_keybinds(Some(&Value::Dict(vec![(b("cmd"), cmd)])));
    assert!(entry(&k, "CmdWeird").malformed);
    assert_eq!(entry(&k, "CmdWeird").keys, None);
    assert!(entry(&k, "CmdEmptyTuple").malformed);
}

#[test]
fn binds_an_unbound_command() {
    let mut user = user_with_binds();
    let stolen = set_keybind(&mut user, "CmdToggleAutopilot", Some(vec![17, 90])).unwrap();
    assert!(stolen.is_empty());
    let k = project_keybinds(Some(&user));
    assert_eq!(entry(&k, "CmdToggleAutopilot").keys, Some(vec![17, 90]));
}

#[test]
fn unbinding_writes_none() {
    let mut user = user_with_binds();
    set_keybind(&mut user, "CmdActivateHighPowerSlot1", None).unwrap();
    let k = project_keybinds(Some(&user));
    let e = entry(&k, "CmdActivateHighPowerSlot1");
    assert_eq!(e.keys, None);
    assert!(!e.malformed, "an unbound leaf is None, not junk");
}

#[test]
fn rebinding_a_taken_combo_steals_it() {
    let mut user = user_with_binds();
    let stolen = set_keybind(&mut user, "CmdToggleAutopilot", Some(vec![81])).unwrap();
    assert_eq!(stolen, vec!["CmdActivateHighPowerSlot1"]);
    let k = project_keybinds(Some(&user));
    assert_eq!(entry(&k, "CmdToggleAutopilot").keys, Some(vec![81]));
    assert_eq!(entry(&k, "CmdActivateHighPowerSlot1").keys, None, "previous owner cleared");
}

#[test]
fn rebinding_a_command_to_its_own_combo_is_a_noop() {
    let mut user = user_with_binds();
    let stolen = set_keybind(&mut user, "CmdActivateHighPowerSlot1", Some(vec![81])).unwrap();
    assert!(stolen.is_empty(), "a command never steals from itself");
    let k = project_keybinds(Some(&user));
    assert_eq!(entry(&k, "CmdActivateHighPowerSlot1").keys, Some(vec![81]));
}

#[test]
fn modifier_order_is_canonicalised_to_ctrl_alt_shift() {
    let mut user = user_with_binds();
    set_keybind(&mut user, "CmdToggleAutopilot", Some(vec![16, 18, 17, 68])).unwrap();
    let k = project_keybinds(Some(&user));
    assert_eq!(entry(&k, "CmdToggleAutopilot").keys, Some(vec![17, 18, 16, 68]));
}

#[test]
fn canonicalisation_makes_a_reordered_combo_collide() {
    let mut user = user_with_binds();
    let stolen = set_keybind(&mut user, "CmdToggleAutopilot", Some(vec![83, 17])).unwrap();
    assert_eq!(stolen, vec!["CmdActivateMediumPowerSlot1"]);
}

#[test]
fn rejects_combos_that_break_the_corpus_invariant() {
    let mut user = user_with_binds();
    assert_eq!(set_keybind(&mut user, "CmdToggleAutopilot", Some(vec![])), Err(KeybindError::NoKey));
    assert_eq!(set_keybind(&mut user, "CmdToggleAutopilot", Some(vec![17])), Err(KeybindError::NoKey));
    assert_eq!(set_keybind(&mut user, "CmdToggleAutopilot", Some(vec![81, 83])), Err(KeybindError::MultipleKeys));
    assert_eq!(
        set_keybind(&mut user, "CmdToggleAutopilot", Some(vec![17, 17, 81])),
        Err(KeybindError::DuplicateModifier)
    );
    let k = project_keybinds(Some(&user));
    assert_eq!(entry(&k, "CmdToggleAutopilot").keys, None);
}

#[test]
fn rejects_an_unknown_command_and_a_missing_table() {
    let mut user = user_with_binds();
    assert_eq!(set_keybind(&mut user, "CmdNotInThisClient", Some(vec![81])), Err(KeybindError::UnknownCommand));
    let k = project_keybinds(Some(&user));
    assert_eq!(
        entry(&k, "CmdActivateHighPowerSlot1").keys,
        Some(vec![81]),
        "rejected write must not steal CmdActivateHighPowerSlot1's binding"
    );

    let mut bare = Value::Dict(vec![]);
    assert_eq!(set_keybind(&mut bare, "CmdAnything", None), Err(KeybindError::NoTable));
}

#[test]
fn a_write_preserves_the_table_timestamp_and_never_wraps_a_leaf() {
    let mut user = user_with_binds();
    set_keybind(&mut user, "CmdToggleAutopilot", Some(vec![17, 90])).unwrap();

    let Value::Dict(root) = &user else { panic!("root is a dict") };
    let (_, cmd) = root.iter().find(|(k, _)| is_bytes(k, b"cmd")).expect("cmd section");
    let Value::Dict(cmd) = cmd else { panic!("cmd is a bare dict, not wrapped") };
    let (_, wrapper) = cmd.iter().find(|(k, _)| is_bytes(k, b"customCmds")).expect("customCmds");
    let Value::Tuple(parts) = wrapper else { panic!("customCmds is a (ts, dict) tuple") };
    assert_eq!(parts.len(), 2);
    assert_eq!(parts[0], ts(), "the table timestamp must survive untouched");

    let Value::Dict(table) = &parts[1] else { panic!("payload is a dict") };
    let (_, leaf) = table.iter().find(|(k, _)| is_bytes(k, b"CmdToggleAutopilot")).unwrap();
    assert_eq!(leaf, &codes(&[17, 90]), "the leaf is a bare code tuple");
}

#[test]
fn steals_from_every_holder_and_reports_them_in_order() {
    let table = Value::Dict(vec![
        (b("CmdA"), codes(&[17, 70])),
        (b("CmdB"), Value::Nil),
        (b("CmdC"), codes(&[17, 70])),
        (b("CmdD"), codes(&[71])),
    ]);
    let cmd = Value::Dict(vec![(b("customCmds"), Value::Tuple(vec![ts(), table]))]);
    let mut user = Value::Dict(vec![(b("cmd"), cmd)]);
    let stolen = set_keybind(&mut user, "CmdB", Some(vec![70, 17])).unwrap();
    assert_eq!(stolen, vec!["CmdA", "CmdC"]);
    let k = project_keybinds(Some(&user));
    assert_eq!(entry(&k, "CmdA").keys, None);
    assert_eq!(entry(&k, "CmdB").keys, Some(vec![17, 70]));
    assert_eq!(entry(&k, "CmdC").keys, None);
    assert_eq!(entry(&k, "CmdD").keys, Some(vec![71]));
}

#[test]
fn a_rejected_combination_leaves_the_document_identical() {
    let mut user = user_with_binds();
    let before = user_with_binds();
    assert_eq!(set_keybind(&mut user, "CmdDronesEngage", Some(vec![18, 18, 68])), Err(KeybindError::DuplicateModifier));
    assert_eq!(user, before);
    assert_eq!(set_keybind(&mut user, "CmdNope", None), Err(KeybindError::UnknownCommand));
    assert_eq!(user, before);
}

#[test]
fn a_malformed_row_is_rebound_to_a_bare_tuple() {
    let table = Value::Dict(vec![(b("CmdWeird"), Value::Str("Q".into()))]);
    let cmd = Value::Dict(vec![(b("customCmds"), Value::Tuple(vec![ts(), table]))]);
    let mut user = Value::Dict(vec![(b("cmd"), cmd)]);
    set_keybind(&mut user, "CmdWeird", Some(vec![16, 81])).unwrap();
    let k = project_keybinds(Some(&user));
    assert_eq!(entry(&k, "CmdWeird").keys, Some(vec![16, 81]));
    assert!(!entry(&k, "CmdWeird").malformed);
}
