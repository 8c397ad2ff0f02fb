use eve_settings::overview_presets::{
    create_preset, create_preset_from_lists, delete_preset, fork_preset, rename_preset, set_preset_groups,
};
use eve_settings::overview_tabs::OverviewTabError;
use eve_settings::value::Value;

fn b(s: &str) -> Value {
    Value::Bytes(s.as_bytes().to_vec())
}

fn is_b(k: &Value, name: &[u8]) -> bool {
    matches!(k, Value::Bytes(x) if x.as_slice() == name)
}

fn as_str(v: &Value) -> Option<String> {
    match v {
        Value::Bytes(b) => Some(String::from_utf8_lossy(b).into_owned()),
        Value::Str(s) | Value::StrUcs2(s) => Some(s.clone()),
        _ => None,
    }
}

fn preset(g: i64) -> Value {
    Value::Dict(vec![(b("groups"), Value::List(vec![Value::Int(g)]))])
}

/// user -> overview -> {
///   tabsettings_new: { 0: {overview: "alpha"}, 1: {overview: "beta"} },
///   overviewProfilePresets: (ts, { "alpha": {groups: [1]}, "beta": {groups: [2]} }),
///   overviewProfilePresets_notSaved: (ts, { "alpha": {groups: [9]} }),
/// }
fn user_with_presets() -> Value {
    let tab0 = Value::Dict(vec![(b("overview"), b("alpha"))]);
    let tab1 = Value::Dict(vec![(b("overview"), b("beta"))]);
    let overview = Value::Dict(vec![
        (b("tabsettings_new"), Value::Dict(vec![(Value::Int(0), tab0), (Value::Int(1), tab1)])),
        (
            b("overviewProfilePresets"),
            Value::Tuple(vec![Value::Int(1), Value::Dict(vec![(b("alpha"), preset(1)), (b("beta"), preset(2))])]),
        ),
        (b("overviewProfilePresets_notSaved"), Value::Tuple(vec![Value::Int(1), Value::Dict(vec![(b("alpha"), preset(9))])])),
    ]);
    Value::Dict(vec![(b("overview"), overview)])
}

fn overview(v: &Value) -> &Vec<(Value, Value)> {
    let Value::Dict(root) = v else { panic!() };
    let (_, ov) = root.iter().find(|(k, _)| is_b(k, b"overview")).unwrap();
    let Value::Dict(ovd) = ov else { panic!() };
    ovd
}

fn dict_or_wrapped(v: &Value) -> &Vec<(Value, Value)> {
    match v {
        Value::Dict(d) => d,
        Value::Tuple(it) => it
            .iter()
            .find_map(|e| if let Value::Dict(d) = e { Some(d) } else { None })
            .unwrap(),
        _ => panic!(),
    }
}

fn presets_dict(v: &Value) -> &Vec<(Value, Value)> {
    let (_, p) = overview(v).iter().find(|(k, _)| is_b(k, b"overviewProfilePresets")).unwrap();
    dict_or_wrapped(p)
}

fn preset_names(v: &Value) -> Vec<String> {
    presets_dict(v).iter().filter_map(|(k, _)| as_str(k)).collect()
}

fn tab_preset(v: &Value, idx: i64) -> String {
    let (_, tabs) = overview(v).iter().find(|(k, _)| is_b(k, b"tabsettings_new")).unwrap();
    let td = dict_or_wrapped(tabs);
    let (_, tab) = td.iter().find(|(k, _)| matches!(k, Value::Int(i) if *i == idx)).unwrap();
    let Value::Dict(fields) = tab else { panic!() };
    let (_, val) = fields.iter().find(|(k, _)| is_b(k, b"overview")).unwrap();
    as_str(val).unwrap()
}

fn not_saved_names(v: &Value) -> Vec<String> {
    let (_, p) = overview(v).iter().find(|(k, _)| is_b(k, b"overviewProfilePresets_notSaved")).unwrap();
    dict_or_wrapped(p).iter().filter_map(|(k, _)| as_str(k)).collect()
}

fn preset_groups(v: &Value, name: &str) -> Vec<i64> {
    let (_, blob) = presets_dict(v).iter().find(|(k, _)| as_str(k).as_deref() == Some(name)).unwrap();
    let Value::Dict(bf) = blob else { panic!() };
    let (_, groups) = bf.iter().find(|(k, _)| is_b(k, b"groups")).unwrap();
    let Value::List(l) = groups else { panic!() };
    l.iter().filter_map(|e| if let Value::Int(n) = e { Some(*n) } else { None }).collect()
}

#[test]
fn duplicate_clones_the_blob_under_the_new_key() {
    let mut v = user_with_presets();
    create_preset(&mut v, "alpha", "gamma").unwrap();
    let names = preset_names(&v);
    assert!(names.contains(&"gamma".to_string()));
    let (_, gamma) = presets_dict(&v).iter().find(|(k, _)| as_str(k).as_deref() == Some("gamma")).unwrap();
    let Value::Dict(gf) = gamma else { panic!() };
    let (_, groups) = gf.iter().find(|(k, _)| is_b(k, b"groups")).unwrap();
    assert_eq!(groups, &Value::List(vec![Value::Int(1)]));
}

#[test]
fn duplicate_unknown_source_errors() {
    let mut v = user_with_presets();
    assert!(matches!(create_preset(&mut v, "nope", "gamma"), Err(OverviewTabError::UnknownPreset { .. })));
}

#[test]
fn duplicate_existing_target_errors() {
    let mut v = user_with_presets();
    assert!(matches!(create_preset(&mut v, "alpha", "beta"), Err(OverviewTabError::PresetExists { .. })));
}

#[test]
fn rename_renames_key_retargets_tabs_and_mirrors_notsaved() {
    let mut v = user_with_presets();
    rename_preset(&mut v, "alpha", "alpha2").unwrap();
    let names = preset_names(&v);
    assert!(names.contains(&"alpha2".to_string()) && !names.contains(&"alpha".to_string()));
    assert_eq!(tab_preset(&v, 0), "alpha2", "tab 0 followed the rename");
    assert_eq!(tab_preset(&v, 1), "beta", "tab 1 unaffected");
    assert!(not_saved_names(&v).contains(&"alpha2".to_string()), "notSaved buffer followed");
}

#[test]
fn rename_unknown_source_errors() {
    let mut v = user_with_presets();
    assert!(matches!(rename_preset(&mut v, "nope", "x"), Err(OverviewTabError::UnknownPreset { .. })));
}

#[test]
fn rename_to_existing_name_errors() {
    let mut v = user_with_presets();
    assert!(matches!(rename_preset(&mut v, "alpha", "beta"), Err(OverviewTabError::PresetExists { .. })));
}

#[test]
fn delete_reassigns_tabs_to_preceding_preset_and_pops_notsaved() {
    let mut v = user_with_presets();
    delete_preset(&mut v, "beta").unwrap();
    let names = preset_names(&v);
    assert!(!names.contains(&"beta".to_string()));
    assert_eq!(tab_preset(&v, 1), "alpha", "tab moved to the preceding preset");
}

#[test]
fn delete_first_reassigns_to_successor() {
    let mut v = user_with_presets();
    delete_preset(&mut v, "alpha").unwrap();
    assert!(!preset_names(&v).contains(&"alpha".to_string()));
    assert_eq!(tab_preset(&v, 0), "beta");
    assert!(!not_saved_names(&v).contains(&"alpha".to_string()), "notSaved entry removed");
}

#[test]
fn delete_last_preset_is_refused() {
    let overview = Value::Dict(vec![(
        b("overviewProfilePresets"),
        Value::Tuple(vec![Value::Int(1), Value::Dict(vec![(b("only"), Value::Dict(vec![]))])]),
    )]);
    let mut v = Value::Dict(vec![(b("overview"), overview)]);
    assert!(matches!(delete_preset(&mut v, "only"), Err(OverviewTabError::LastPreset)));
}

#[test]
fn delete_unknown_preset_errors() {
    let mut v = user_with_presets();
    assert!(matches!(delete_preset(&mut v, "nope"), Err(OverviewTabError::UnknownPreset { .. })));
}

#[test]
fn set_groups_replaces_with_sorted_list() {
    let mut v = user_with_presets();
    set_preset_groups(&mut v, "alpha", &[30, 10, 20]).unwrap();
    assert_eq!(preset_groups(&v, "alpha"), vec![10, 20, 30]);
}

#[test]
fn set_groups_unknown_preset_errors() {
    let mut v = user_with_presets();
    assert!(matches!(set_preset_groups(&mut v, "nope", &[1]), Err(OverviewTabError::UnknownPreset { .. })));
}

#[test]
fn set_groups_inserts_groups_key_when_absent() {
    let overview = Value::Dict(vec![(
        b("overviewProfilePresets"),
        Value::Tuple(vec![Value::Int(1), Value::Dict(vec![(b("solo"), Value::Dict(vec![]))])]),
    )]);
    let mut v = Value::Dict(vec![(b("overview"), overview)]);
    set_preset_groups(&mut v, "solo", &[5, 1]).unwrap();
    assert_eq!(preset_groups(&v, "solo"), vec![1, 5]);
}

#[test]
fn rename_and_delete_no_op_when_notsaved_absent() {
    let tab0 = Value::Dict(vec![(b("overview"), b("alpha"))]);
    let tab1 = Value::Dict(vec![(b("overview"), b("beta"))]);
    let overview = Value::Dict(vec![
        (b("tabsettings_new"), Value::Dict(vec![(Value::Int(0), tab0), (Value::Int(1), tab1)])),
        (
            b("overviewProfilePresets"),
            Value::Tuple(vec![Value::Int(1), Value::Dict(vec![(b("alpha"), preset(1)), (b("beta"), preset(2))])]),
        ),
    ]);
    let mut v = Value::Dict(vec![(b("overview"), overview)]);
    rename_preset(&mut v, "alpha", "alpha2").unwrap();
    assert!(preset_names(&v).contains(&"alpha2".to_string()));
    assert_eq!(tab_preset(&v, 0), "alpha2");
    delete_preset(&mut v, "beta").unwrap();
    assert!(!preset_names(&v).contains(&"beta".to_string()));
    assert_eq!(tab_preset(&v, 1), "alpha2");
}

fn overview_container_absent_presets() -> Value {
    let tab0 = Value::Dict(vec![(b("overview"), b("DefaultPreset_1"))]);
    let overview = Value::Dict(vec![(b("tabsettings_new"), Value::Dict(vec![(Value::Int(0), tab0)]))]);
    Value::Dict(vec![(b("overview"), overview)])
}

#[test]
fn create_from_lists_materializes_absent_container() {
    let mut v = overview_container_absent_presets();
    create_preset_from_lists(&mut v, "All copy", &[30, 10], &[5], &[]).unwrap();
    assert_eq!(preset_groups(&v, "All copy"), vec![10, 30]);
}

#[test]
fn create_from_lists_errors_on_existing_name() {
    let mut v = user_with_presets();
    assert!(matches!(
        create_preset_from_lists(&mut v, "alpha", &[1], &[], &[]),
        Err(OverviewTabError::PresetExists { .. })
    ));
}

#[test]
fn create_from_lists_stores_state_lists() {
    let mut v = overview_container_absent_presets();
    create_preset_from_lists(&mut v, "PvP copy", &[1], &[8, 7], &[9]).unwrap();
    let (_, blob) = presets_dict(&v).iter().find(|(k, _)| as_str(k).as_deref() == Some("PvP copy")).unwrap();
    let Value::Dict(bf) = blob else { panic!() };
    let (_, fs) = bf.iter().find(|(k, _)| is_b(k, b"filteredStates")).unwrap();
    assert_eq!(fs, &Value::List(vec![Value::Int(8), Value::Int(7)]));
}

#[test]
fn fork_creates_preset_and_retargets_the_tab() {
    let mut v = overview_container_absent_presets();
    fork_preset(&mut v, 0, "All copy", &[9, 1], &[], &[]).unwrap();
    assert_eq!(preset_groups(&v, "All copy"), vec![1, 9]);
    assert_eq!(tab_preset(&v, 0), "All copy");
}

#[test]
fn fork_with_unknown_tab_creates_no_preset() {
    let mut v = overview_container_absent_presets();
    assert!(matches!(fork_preset(&mut v, 99, "X", &[1], &[], &[]), Err(OverviewTabError::UnknownTab { .. })));
    let stranded = overview(&v).iter().find(|(k, _)| is_b(k, b"overviewProfilePresets")).is_some_and(|(_, p)| {
        dict_or_wrapped(p).iter().any(|(k, _)| as_str(k).as_deref() == Some("X"))
    });
    assert!(!stranded, "a failed fork must not strand a preset");
}

// Further cases.

#[test]
fn a_created_preset_is_minted_with_a_zero_timestamp_and_the_three_lists() {
    let mut v = overview_container_absent_presets();
    create_preset_from_lists(&mut v, "New", &[3, 1, 2], &[7], &[8]).unwrap();
    let (_, p) = overview(&v).iter().find(|(k, _)| is_b(k, b"overviewProfilePresets")).unwrap();
    assert_eq!(
        p,
        &Value::Tuple(vec![
            Value::Long(vec![0u8; 8]),
            Value::Dict(vec![(
                b("New"),
                Value::Dict(vec![
                    (b("groups"), Value::List(vec![Value::Int(1), Value::Int(2), Value::Int(3)])),
                    (b("filteredStates"), Value::List(vec![Value::Int(7)])),
                    (b("alwaysShownStates"), Value::List(vec![Value::Int(8)])),
                ]),
            )]),
        ])
    );
}

#[test]
fn delete_picks_the_neighbour_in_case_insensitive_order() {
    // Listed case-insensitively: alpha, Beta, gamma. Deleting gamma moves its
    // tab to Beta, though "Beta" sorts before "alpha" by code.
    let tab0 = Value::Dict(vec![(b("overview"), b("gamma"))]);
    let overview = Value::Dict(vec![
        (b("tabsettings_new"), Value::Dict(vec![(Value::Int(0), tab0)])),
        (
            b("overviewProfilePresets"),
            Value::Tuple(vec![
                Value::Int(1),
                Value::Dict(vec![(b("gamma"), preset(3)), (b("Beta"), preset(2)), (b("alpha"), preset(1))]),
            ]),
        ),
    ]);
    let mut v = Value::Dict(vec![(b("overview"), overview)]);
    delete_preset(&mut v, "gamma").unwrap();
    assert_eq!(tab_preset(&v, 0), "Beta");
    assert_eq!(preset_names(&v), vec!["Beta".to_string(), "alpha".to_string()]);
}

#[test]
fn renaming_to_the_same_name_only_rewrites_the_key() {
    let mut v = user_with_presets();
    let before_tabs = tab_preset(&v, 0);
    rename_preset(&mut v, "alpha", "alpha").unwrap();
    assert_eq!(preset_names(&v), vec!["alpha".to_string(), "beta".to_string()]);
    assert_eq!(tab_preset(&v, 0), before_tabs);
}

#[test]
fn a_refused_edit_reports_the_name() {
    let mut v = user_with_presets();
    let err = rename_preset(&mut v, "alpha", "beta").unwrap_err();
    assert_eq!(err, OverviewTabError::PresetExists { name: "beta".to_string() });
    let err = delete_preset(&mut v, "zeta").unwrap_err();
    assert_eq!(err, OverviewTabError::UnknownPreset { name: "zeta".to_string() });
}

#[test]
fn editing_a_file_without_an_overview_is_refused() {
    let mut v = Value::Dict(vec![(b("windows"), Value::Dict(vec![]))]);
    assert_eq!(create_preset(&mut v, "a", "b"), Err(OverviewTabError::NoOverview));
    assert_eq!(set_preset_groups(&mut v, "a", &[1]), Err(OverviewTabError::NoOverview));
}
