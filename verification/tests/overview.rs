use eve_settings::overview::{project_overview, set_column_order, set_column_visible, set_column_width, OverviewError};
use eve_settings::value::Value;

fn ts() -> Value {
    Value::Long(vec![0u8; 8])
}

fn bytes(s: &str) -> Value {
    Value::Bytes(s.as_bytes().to_vec())
}

/// user root -> overview -> tabsettings_new -> (ts, { 0: tab }) where the tab
/// owns its name and column lists.
fn user_with_tab() -> Value {
    let tab = Value::Dict(vec![
        (Value::Str("name".into()), Value::Str("PvP".into())),
        (bytes("tabColumnOrder"), Value::List(vec![bytes("NAME"), bytes("TYPE"), bytes("DISTANCE")])),
        (bytes("tabColumns"), Value::List(vec![bytes("NAME"), bytes("DISTANCE")])),
    ]);
    Value::Dict(vec![(
        bytes("overview"),
        Value::Dict(vec![(
            bytes("tabsettings_new"),
            Value::Tuple(vec![ts(), Value::Dict(vec![(Value::Int(0), tab)])]),
        )]),
    )])
}

/// char root -> ui -> SortHeadersSizes -> (ts, { (overviewScroll2, 0): { NAME: 120 } })
fn char_with_widths() -> Value {
    let widths = Value::Dict(vec![(bytes("NAME"), Value::Int(120))]);
    Value::Dict(vec![(
        bytes("ui"),
        Value::Dict(vec![(
            bytes("SortHeadersSizes"),
            Value::Tuple(vec![
                ts(),
                Value::Dict(vec![(Value::Tuple(vec![bytes("overviewScroll2"), Value::Int(0)]), widths)]),
            ]),
        )]),
    )])
}

#[test]
fn projects_a_tab_with_order_visibility_and_widths() {
    let oc = project_overview(&user_with_tab(), Some(&char_with_widths()));
    assert_eq!(oc.tabs.len(), 1);
    let t = &oc.tabs[0];
    assert_eq!(t.index, 0);
    assert_eq!(t.name, "PvP");
    assert!(!t.inherits, "tab has its own lists");
    let names: Vec<&str> = t.columns.iter().map(|c| c.name.as_str()).collect();
    assert_eq!(names, vec!["NAME", "TYPE", "DISTANCE"]);
    assert!(t.columns[0].visible && !t.columns[1].visible && t.columns[2].visible);
    assert_eq!(t.columns[0].width, Some(120));
    assert_eq!(t.columns[1].width, None);
    assert_eq!(t.columns[0].label, "Name");
}

#[test]
fn a_file_without_overview_projects_empty() {
    let empty = Value::Dict(vec![]);
    assert!(project_overview(&empty, None).tabs.is_empty());
}

#[test]
fn projects_preset_fallback_and_window_grouping() {
    let preset = Value::Dict(vec![(bytes("overviewColumns"), Value::List(vec![bytes("NAME"), bytes("TYPE")]))]);
    let presets = Value::Dict(vec![(bytes("P"), preset)]);
    let tab0 = Value::Dict(vec![
        (Value::StrTable(52), Value::Str("Alpha".into())),
        (bytes("overview"), bytes("P")),
    ]);
    let tab1 = Value::Dict(vec![
        (Value::StrTable(52), Value::Str("Beta".into())),
        (bytes("tabColumnOrder"), Value::List(vec![bytes("NAME"), bytes("TYPE"), bytes("DISTANCE")])),
        (bytes("tabColumns"), Value::List(vec![bytes("DISTANCE")])),
    ]);
    let tabs = Value::Tuple(vec![ts(), Value::Dict(vec![(Value::Int(0), tab0), (Value::Int(1), tab1)])]);
    let overview = Value::Dict(vec![
        (bytes("overviewProfilePresets"), presets),
        (bytes("tabsettings_new"), tabs),
        (
            bytes("tabsByWindowInstanceID"),
            Value::List(vec![Value::List(vec![Value::Int(0)]), Value::List(vec![Value::Int(1)])]),
        ),
    ]);
    let user = Value::Dict(vec![(Value::Shared { slot: 1, value: Box::new(bytes("overview")) }, overview)]);

    let oc = project_overview(&user, None);
    assert_eq!(oc.windows.len(), 2);
    assert_eq!(oc.windows[0].tab_indices, vec![0]);
    assert_eq!(oc.windows[1].tab_indices, vec![1]);
    let t0 = oc.tabs.iter().find(|t| t.index == 0).unwrap();
    assert!(t0.inherits, "tab 0 has no own lists");
    assert_eq!(t0.name, "Alpha");
    assert_eq!(t0.columns.iter().map(|c| c.name.as_str()).collect::<Vec<_>>(), vec!["NAME", "TYPE"]);
    assert!(t0.columns.iter().all(|c| c.visible), "preset columns are the visible set");
    let t1 = oc.tabs.iter().find(|t| t.index == 1).unwrap();
    assert!(!t1.inherits);
    assert_eq!(
        t1.columns.iter().filter(|c| c.visible).map(|c| c.name.as_str()).collect::<Vec<_>>(),
        vec!["DISTANCE"]
    );
    assert_eq!(t1.columns.len(), 3, "order list of 3");
}

fn tab_lists(user: &Value, index: i64) -> (Vec<String>, Vec<String>) {
    let t = project_overview(user, None).tabs.into_iter().find(|t| t.index == index).unwrap();
    let order: Vec<String> = t.columns.iter().map(|c| c.name.clone()).collect();
    let visible: Vec<String> = t.columns.iter().filter(|c| c.visible).map(|c| c.name.clone()).collect();
    (order, visible)
}

#[test]
fn toggle_visibility_on_an_owning_tab() {
    let mut user = user_with_tab();
    set_column_visible(&mut user, 0, "TYPE", true).unwrap();
    let (_, visible) = tab_lists(&user, 0);
    assert!(visible.contains(&"TYPE".to_string()));
    set_column_visible(&mut user, 0, "NAME", false).unwrap();
    let (_, visible) = tab_lists(&user, 0);
    assert!(!visible.contains(&"NAME".to_string()));
}

#[test]
fn reorder_sets_the_full_order() {
    let mut user = user_with_tab();
    set_column_order(&mut user, 0, &["DISTANCE".into(), "NAME".into(), "TYPE".into()]).unwrap();
    let (order, _) = tab_lists(&user, 0);
    assert_eq!(order, vec!["DISTANCE", "NAME", "TYPE"]);
}

fn user_inheriting_tab() -> Value {
    let tab = Value::Dict(vec![
        (Value::Str("name".into()), Value::Str("General".into())),
        (bytes("overview"), bytes("G")),
    ]);
    let preset = Value::Dict(vec![(bytes("overviewColumns"), Value::List(vec![bytes("NAME"), bytes("TYPE")]))]);
    Value::Dict(vec![(
        bytes("overview"),
        Value::Dict(vec![
            (bytes("overviewProfilePresets"), Value::Dict(vec![(bytes("G"), preset)])),
            (bytes("overviewColumnOrder"), Value::List(vec![bytes("NAME"), bytes("TYPE")])),
            (bytes("overviewColumns"), Value::List(vec![bytes("NAME")])),
            (bytes("tabsettings_new"), Value::Tuple(vec![ts(), Value::Dict(vec![(Value::Int(1), tab)])])),
        ]),
    )])
}

#[test]
fn editing_an_inheriting_tab_materializes_its_lists() {
    let mut user = user_inheriting_tab();
    assert!(project_overview(&user, None).tabs[0].inherits);
    set_column_visible(&mut user, 1, "TYPE", true).unwrap();
    let t = project_overview(&user, None).tabs.into_iter().find(|t| t.index == 1).unwrap();
    assert!(!t.inherits, "tab now owns its lists");
    assert_eq!(t.columns.iter().map(|c| c.name.clone()).collect::<Vec<_>>(), vec!["NAME", "TYPE"]);
    assert!(t.columns.iter().find(|c| c.name == "TYPE").unwrap().visible);
}

#[test]
fn editing_inheriting_tab_materializes_from_preset_not_account() {
    let preset = Value::Dict(vec![(bytes("overviewColumns"), Value::List(vec![bytes("NAME"), bytes("TYPE")]))]);
    let tab0 = Value::Dict(vec![(bytes("overview"), bytes("P"))]);
    let overview = Value::Dict(vec![
        (bytes("overviewProfilePresets"), Value::Dict(vec![(bytes("P"), preset)])),
        (bytes("tabsettings_new"), Value::Tuple(vec![ts(), Value::Dict(vec![(Value::Int(0), tab0)])])),
    ]);
    let mut user = Value::Dict(vec![(bytes("overview"), overview)]);

    set_column_visible(&mut user, 0, "DISTANCE", true).unwrap();

    let oc = project_overview(&user, None);
    let t0 = oc.tabs.iter().find(|t| t.index == 0).unwrap();
    assert!(!t0.inherits, "tab now owns its lists (materialized)");
    let visible: Vec<_> = t0.columns.iter().filter(|c| c.visible).map(|c| c.name.clone()).collect();
    assert!(visible.contains(&"DISTANCE".to_string()));
    assert!(visible.contains(&"NAME".to_string()) && visible.contains(&"TYPE".to_string()));
    // The preset's own column list is untouched.
    let Value::Dict(root) = &user else { unreachable!() };
    let Value::Dict(ov) = &root[0].1 else { unreachable!() };
    let Value::Dict(presets) = &ov[0].1 else { unreachable!() };
    let Value::Dict(p) = &presets[0].1 else { unreachable!() };
    assert_eq!(p[0].1, Value::List(vec![bytes("NAME"), bytes("TYPE")]));
}

#[test]
fn edits_a_tab_in_a_shared_keyed_overview_container() {
    let preset = Value::Dict(vec![(bytes("overviewColumns"), Value::List(vec![bytes("NAME"), bytes("TYPE")]))]);
    let tab0 = Value::Dict(vec![(bytes("overview"), bytes("P"))]);
    let overview = Value::Dict(vec![
        (bytes("overviewProfilePresets"), Value::Dict(vec![(bytes("P"), preset)])),
        (
            Value::Shared { slot: 2, value: Box::new(bytes("tabsettings_new")) },
            Value::Tuple(vec![ts(), Value::Dict(vec![(Value::Int(0), tab0)])]),
        ),
    ]);
    let mut user = Value::Dict(vec![(Value::Shared { slot: 1, value: Box::new(bytes("overview")) }, overview)]);

    set_column_visible(&mut user, 0, "DISTANCE", true).unwrap();

    let oc = project_overview(&user, None);
    let t0 = oc.tabs.iter().find(|t| t.index == 0).unwrap();
    assert!(!t0.inherits, "the edit materialized the tab despite Shared keys");
    assert!(t0.columns.iter().any(|c| c.visible && c.name == "DISTANCE"));
    assert!(t0.columns.iter().any(|c| c.name == "NAME") && t0.columns.iter().any(|c| c.name == "TYPE"));
}

#[test]
fn editing_a_missing_tab_errors() {
    let mut user = user_with_tab();
    assert_eq!(set_column_visible(&mut user, 99, "NAME", true), Err(OverviewError::NoTab));
}

fn width_of(char_tree: &Value, tab: i64, col: &str) -> Option<i64> {
    let user = user_with_tab();
    project_overview(&user, Some(char_tree))
        .tabs
        .into_iter()
        .find(|t| t.index == tab)?
        .columns
        .into_iter()
        .find(|c| c.name == col)?
        .width
}

#[test]
fn set_width_overwrites_existing() {
    let mut c = char_with_widths();
    set_column_width(&mut c, 0, "NAME", 200).unwrap();
    assert_eq!(width_of(&c, 0, "NAME"), Some(200));
}

#[test]
fn set_width_inserts_a_new_column_entry() {
    let mut c = char_with_widths();
    set_column_width(&mut c, 0, "TYPE", 88).unwrap();
    assert_eq!(width_of(&c, 0, "TYPE"), Some(88));
    assert_eq!(width_of(&c, 0, "NAME"), Some(120), "existing width untouched");
}

#[test]
fn set_width_creates_the_tab_width_dict_when_absent() {
    let mut c = char_with_widths();
    set_column_width(&mut c, 1, "NAME", 77).unwrap();
    let user = user_inheriting_tab();
    let w = project_overview(&user, Some(&c))
        .tabs
        .into_iter()
        .find(|t| t.index == 1)
        .unwrap()
        .columns
        .into_iter()
        .find(|col| col.name == "NAME")
        .unwrap()
        .width;
    assert_eq!(w, Some(77));
}

#[test]
fn set_width_unwraps_a_shared_width_dict() {
    let widths = Value::Shared { slot: 1, value: Box::new(Value::Dict(vec![(bytes("NAME"), Value::Int(120))])) };
    let mut c = Value::Dict(vec![(
        bytes("ui"),
        Value::Dict(vec![(
            bytes("SortHeadersSizes"),
            Value::Tuple(vec![
                ts(),
                Value::Dict(vec![(Value::Tuple(vec![bytes("overviewScroll2"), Value::Int(0)]), widths)]),
            ]),
        )]),
    )]);
    set_column_width(&mut c, 0, "NAME", 200).unwrap();
    assert_eq!(width_of(&c, 0, "NAME"), Some(200));
}

#[test]
fn set_width_resolves_a_shared_container_key() {
    let widths = Value::Dict(vec![(bytes("NAME"), Value::Int(120))]);
    let mut c = Value::Dict(vec![(
        Value::Shared { slot: 1, value: Box::new(bytes("ui")) },
        Value::Dict(vec![(
            Value::Shared { slot: 2, value: Box::new(bytes("SortHeadersSizes")) },
            Value::Tuple(vec![
                ts(),
                Value::Dict(vec![(Value::Tuple(vec![bytes("overviewScroll2"), Value::Int(0)]), widths)]),
            ]),
        )]),
    )]);
    set_column_width(&mut c, 0, "NAME", 200).unwrap();
    assert_eq!(width_of(&c, 0, "NAME"), Some(200));
}

#[test]
fn editing_a_shared_wrapped_tab_resolves_and_edits_it() {
    let tab = Value::Dict(vec![
        (Value::Str("name".into()), Value::Str("P".into())),
        (bytes("tabColumnOrder"), Value::List(vec![bytes("NAME"), bytes("TYPE")])),
        (bytes("tabColumns"), Value::List(vec![bytes("NAME")])),
    ]);
    let mut user = Value::Dict(vec![(
        bytes("overview"),
        Value::Dict(vec![(
            bytes("tabsettings_new"),
            Value::Tuple(vec![
                ts(),
                Value::Dict(vec![(Value::Int(0), Value::Shared { slot: 1, value: Box::new(tab) })]),
            ]),
        )]),
    )]);
    set_column_visible(&mut user, 0, "TYPE", true).unwrap();
    let t = project_overview(&user, None).tabs.into_iter().find(|t| t.index == 0).unwrap();
    assert!(t.columns.iter().find(|c| c.name == "TYPE").unwrap().visible);
}

#[test]
fn token_list_reads_ts_wrapped_ref_list() {
    // A tab whose order list is a (timestamp, list) of shared tokens.
    let tab = Value::Dict(vec![
        (
            bytes("tabColumnOrder"),
            Value::Tuple(vec![
                ts(),
                Value::List(vec![Value::Shared { slot: 7, value: Box::new(bytes("NAME")) }, Value::Ref(7)]),
            ]),
        ),
        (bytes("tabColumns"), Value::List(vec![])),
    ]);
    let user = Value::Dict(vec![(
        bytes("overview"),
        Value::Dict(vec![(bytes("tabsettings"), Value::Dict(vec![(Value::Int(3), tab)]))]),
    )]);
    let t = project_overview(&user, None).tabs.into_iter().next().unwrap();
    assert_eq!(t.name, "Tab 3");
    assert_eq!(t.columns.iter().map(|c| c.name.as_str()).collect::<Vec<_>>(), vec!["NAME", "NAME"]);
    assert!(t.columns.iter().all(|c| !c.visible));
}

#[test]
fn hiding_removes_every_copy_and_a_shown_column_joins_the_order() {
    let tab = Value::Dict(vec![
        (bytes("tabColumnOrder"), Value::List(vec![bytes("NAME")])),
        (bytes("tabColumns"), Value::List(vec![bytes("NAME"), bytes("TYPE"), bytes("NAME")])),
    ]);
    let mut user = Value::Dict(vec![(
        bytes("overview"),
        Value::Dict(vec![(bytes("tabsettings_new"), Value::Dict(vec![(Value::Int(0), tab)]))]),
    )]);
    set_column_visible(&mut user, 0, "NAME", false).unwrap();
    set_column_visible(&mut user, 0, "SPEED", true).unwrap();
    let (order, visible) = tab_lists(&user, 0);
    assert_eq!(order, vec!["NAME", "SPEED", "TYPE"]);
    assert_eq!(visible, vec!["SPEED", "TYPE"]);
}

#[test]
fn a_width_write_without_a_sizes_dict_is_refused() {
    let mut c = Value::Dict(vec![(bytes("ui"), Value::Dict(vec![]))]);
    assert_eq!(set_column_width(&mut c, 0, "NAME", 5), Err(OverviewError::NoTab));
    assert_eq!(c, Value::Dict(vec![(bytes("ui"), Value::Dict(vec![]))]));
}

#[test]
fn labels_are_title_cased() {
    let tab = Value::Dict(vec![
        (bytes("tabColumnOrder"), Value::List(vec![bytes("ICON"), bytes("tRANSVERSAL")])),
        (bytes("tabColumns"), Value::List(vec![])),
    ]);
    let user = Value::Dict(vec![(
        bytes("overview"),
        Value::Dict(vec![(bytes("tabsettings_new"), Value::Dict(vec![(Value::Int(0), tab)]))]),
    )]);
    let t = project_overview(&user, None).tabs.into_iter().next().unwrap();
    let labels: Vec<&str> = t.columns.iter().map(|c| c.label.as_str()).collect();
    assert_eq!(labels, vec!["Icon", "Transversal"]);
}
