use eve_settings::decode::decode;
use eve_settings::encode::encode;
use eve_settings::overview_tabs::{
    add_overview_window, add_overview_window_geometry, create_tab, create_window_mapping, delete_tab, move_tab,
    remove_overview_window, remove_overview_window_geometry, rename_tab, reorder_tabs_in_window, set_tab_preset,
    OverviewTabError,
};
use eve_settings::reshare::clone_value;
use eve_settings::value::Value;

fn b(s: &str) -> Value {
    Value::Bytes(s.as_bytes().to_vec())
}

/// A zero timestamp, as every `(timestamp, payload)` wrapper in these
/// fixtures carries.
fn ts() -> Value {
    Value::Long(vec![0u8; 8])
}

fn is_b(k: &Value, name: &[u8]) -> bool {
    matches!(k, Value::Bytes(x) if x.as_slice() == name)
}

fn as_int(v: &Value) -> Option<i64> {
    match v {
        Value::Int(i) => Some(*i),
        _ => None,
    }
}

fn dict_inner(v: &Value) -> Option<&Vec<(Value, Value)>> {
    match v {
        Value::Dict(d) => Some(d),
        Value::Tuple(items) => items.iter().find_map(|e| if let Value::Dict(d) = e { Some(d) } else { None }),
        _ => None,
    }
}

fn list_inner(v: &Value) -> Option<&Vec<Value>> {
    match v {
        Value::List(l) => Some(l),
        Value::Tuple(items) => items.iter().find_map(|e| if let Value::List(l) = e { Some(l) } else { None }),
        _ => None,
    }
}

/// user tree: overview -> tabsettings_new (ts, dict) -> {0: {bracket, color, name, overview: "P"}},
/// and a one-window mapping listing tab 0.
fn user_with_tabs() -> Value {
    let tab = Value::Dict(vec![
        (b("bracket"), b("_BracketFilterShowAll")),
        (b("color"), Value::Nil),
        (Value::Str("name".into()), Value::Str("Main".into())),
        (b("overview"), b("P")),
    ]);
    let overview = Value::Dict(vec![
        (b("tabsettings_new"), Value::Tuple(vec![ts(), Value::Dict(vec![(Value::Int(0), tab)])])),
        (b("tabsByWindowInstanceID"), Value::Tuple(vec![ts(), Value::List(vec![Value::List(vec![Value::Int(0)])])])),
    ]);
    Value::Dict(vec![(b("overview"), overview)])
}

fn overview_entries(v: &Value) -> &Vec<(Value, Value)> {
    let Value::Dict(root) = v else { panic!() };
    let (_, ov) = root.iter().find(|(k, _)| is_b(k, b"overview")).unwrap();
    let Value::Dict(ovd) = ov else { panic!() };
    ovd
}

fn tab_fields(v: &Value, idx: i64) -> &Vec<(Value, Value)> {
    let (_, tabs) = overview_entries(v).iter().find(|(k, _)| is_b(k, b"tabsettings_new")).unwrap();
    let td = dict_inner(tabs).unwrap();
    let (_, tab) = td.iter().find(|(k, _)| as_int(k) == Some(idx)).unwrap();
    let Value::Dict(fields) = tab else { panic!() };
    fields
}

fn tab_name(v: &Value, idx: i64) -> String {
    tab_fields(v, idx)
        .iter()
        .find_map(|(k, val)| match (k, val) {
            (Value::Str(s), Value::Str(name)) if s == "name" => Some(name.clone()),
            (Value::Str(s), Value::StrUcs2(name)) if s == "name" => Some(name.clone()),
            _ => None,
        })
        .unwrap()
}

fn tab_has_key(v: &Value, idx: i64, key: &[u8]) -> bool {
    tab_fields(v, idx).iter().any(|(k, _)| is_b(k, key))
}

fn window_indices(v: &Value, window: usize) -> Vec<i64> {
    let (_, g) = overview_entries(v).iter().find(|(k, _)| is_b(k, b"tabsByWindowInstanceID")).unwrap();
    let outer = list_inner(g).unwrap();
    let inner = list_inner(&outer[window]).unwrap();
    inner.iter().filter_map(as_int).collect()
}

fn has_mapping(v: &Value) -> bool {
    overview_entries(v).iter().any(|(k, _)| is_b(k, b"tabsByWindowInstanceID"))
}

#[test]
fn rename_sets_the_name_field() {
    let mut v = user_with_tabs();
    rename_tab(&mut v, 0, "Combat").unwrap();
    assert_eq!(tab_name(&v, 0), "Combat");
}

#[test]
fn rename_unknown_tab_errors() {
    let mut v = user_with_tabs();
    assert!(matches!(rename_tab(&mut v, 9, "X"), Err(OverviewTabError::UnknownTab { index: 9 })));
}

#[test]
fn create_allocates_next_index_and_joins_the_window() {
    let mut v = user_with_tabs();
    let idx = create_tab(&mut v, 0, "Mining", Some(0)).unwrap();
    assert_eq!(idx, 1, "next free index after 0");
    assert_eq!(tab_name(&v, 1), "Mining");
    assert_eq!(window_indices(&v, 0), vec![0, 1], "appended to window 0's strip");
    assert!(tab_has_key(&v, 1, b"bracket"), "created tab clones the sibling's bracket");
    assert!(tab_has_key(&v, 1, b"color"), "created tab clones the sibling's color");
}

#[test]
fn create_into_missing_window_errors() {
    let mut v = user_with_tabs();
    assert!(matches!(create_tab(&mut v, 5, "X", Some(0)), Err(OverviewTabError::UnknownWindow { index: 5 })));
}

#[test]
fn create_in_a_windowless_account_adds_the_tab_without_a_window_mapping() {
    let tab = Value::Dict(vec![
        (b("bracket"), b("_BracketFilterShowAll")),
        (b("color"), Value::Nil),
        (Value::Str("name".into()), Value::Str("Main".into())),
        (b("overview"), b("P")),
    ]);
    let overview = Value::Dict(vec![(b("tabsettings_new"), Value::Tuple(vec![ts(), Value::Dict(vec![(Value::Int(0), tab)])]))]);
    let mut v = Value::Dict(vec![(b("overview"), overview)]);
    let idx = create_tab(&mut v, 0, "Mining", Some(0)).unwrap();
    assert_eq!(idx, 1);
    assert!(tab_has_key(&v, 1, b"bracket"), "the new tab still clones bracket");
    assert!(!has_mapping(&v), "no tabsByWindowInstanceID is fabricated for a windowless account");
}

#[test]
fn create_with_no_sibling_still_carries_bracket_and_color() {
    let overview = Value::Dict(vec![(b("tabsettings_new"), Value::Tuple(vec![ts(), Value::Dict(vec![])]))]);
    let mut v = Value::Dict(vec![(b("overview"), overview)]);
    let idx = create_tab(&mut v, 0, "First", None).unwrap();
    assert_eq!(idx, 0);
    assert!(tab_has_key(&v, 0, b"bracket"), "fallback tab carries bracket");
    assert!(tab_has_key(&v, 0, b"color"), "fallback tab carries color");
}

#[test]
fn delete_on_a_windowless_account_does_not_fabricate_a_mapping() {
    let mk = |n: &str| Value::Dict(vec![(Value::Str("name".into()), Value::Str(n.to_string())), (b("overview"), b("P"))]);
    let overview = Value::Dict(vec![(
        b("tabsettings_new"),
        Value::Tuple(vec![ts(), Value::Dict(vec![(Value::Int(0), mk("A")), (Value::Int(1), mk("B"))])]),
    )]);
    let mut v = Value::Dict(vec![(b("overview"), overview)]);
    delete_tab(&mut v, 0).unwrap();
    assert!(!has_mapping(&v), "delete must not fabricate a window mapping on a windowless account");
}

#[test]
fn delete_removes_tab_and_purges_window_strips() {
    let mut v = user_with_tabs();
    create_tab(&mut v, 0, "Mining", Some(0)).unwrap();
    delete_tab(&mut v, 0).unwrap();
    assert_eq!(window_indices(&v, 0), vec![1], "0 purged from the strip");
    assert!(
        matches!(rename_tab(&mut v, 0, "X"), Err(OverviewTabError::UnknownTab { index: 0 })),
        "tab 0 is gone from tabsettings_new"
    );
}

#[test]
fn delete_last_tab_is_refused() {
    let mut v = user_with_tabs();
    assert!(matches!(delete_tab(&mut v, 0), Err(OverviewTabError::LastTab)));
}

#[test]
fn reorder_replaces_the_window_strip() {
    let mut v = user_with_tabs();
    create_tab(&mut v, 0, "Mining", Some(0)).unwrap();
    reorder_tabs_in_window(&mut v, 0, &[1, 0]).unwrap();
    assert_eq!(window_indices(&v, 0), vec![1, 0]);
}

#[test]
fn reorder_missing_window_errors() {
    let mut v = user_with_tabs();
    assert!(matches!(reorder_tabs_in_window(&mut v, 3, &[0]), Err(OverviewTabError::UnknownWindow { index: 3 })));
}

fn user_two_windows() -> Value {
    let tab = |p: &str| Value::Dict(vec![(Value::Str("name".into()), Value::Str(p.to_string())), (b("overview"), b("P"))]);
    let overview = Value::Dict(vec![
        (b("tabsettings_new"), Value::Tuple(vec![ts(), Value::Dict(vec![(Value::Int(0), tab("A")), (Value::Int(1), tab("B"))])])),
        (
            b("tabsByWindowInstanceID"),
            Value::Tuple(vec![
                ts(),
                Value::List(vec![Value::List(vec![Value::Int(0)]), Value::List(vec![Value::Int(1)])]),
            ]),
        ),
    ]);
    Value::Dict(vec![(b("overview"), overview)])
}

#[test]
fn move_relocates_tab_between_windows() {
    let mut v = user_two_windows();
    move_tab(&mut v, 0, 0, 1, 0).unwrap();
    assert_eq!(window_indices(&v, 0), Vec::<i64>::new(), "removed from source");
    assert_eq!(window_indices(&v, 1), vec![0, 1], "inserted at pos 0 of target");
}

#[test]
fn move_to_missing_window_errors() {
    let mut v = user_two_windows();
    assert!(matches!(move_tab(&mut v, 0, 0, 9, 0), Err(OverviewTabError::UnknownWindow { index: 9 })));
    assert_eq!(window_indices(&v, 0), vec![0], "source strip unchanged when destination is invalid");
}

#[test]
fn move_of_a_tab_that_does_not_exist_errors() {
    let mut v = user_two_windows();
    assert!(matches!(move_tab(&mut v, 9, 0, 1, 0), Err(OverviewTabError::UnknownTab { index: 9 })));
    assert_eq!(window_indices(&v, 1), vec![1], "no phantom index in the destination strip");
}

#[test]
fn add_window_appends_a_group_with_a_cloned_tab() {
    let mut v = user_with_tabs();
    let widx = add_overview_window(&mut v, "Scan", Some(0)).unwrap();
    assert_eq!(widx, 1, "new window appended at index 1");
    let new_tabs = window_indices(&v, 1);
    assert_eq!(new_tabs.len(), 1, "new window seeded with exactly one tab");
    assert_eq!(tab_name(&v, new_tabs[0]), "Scan");
    assert!(tab_has_key(&v, new_tabs[0], b"bracket"), "seeded tab clones bracket");
    assert!(tab_has_key(&v, new_tabs[0], b"color"), "seeded tab clones color");
    assert_eq!(window_indices(&v, 0), vec![0], "window 0 untouched");
}

#[test]
fn add_window_on_a_windowless_account_is_refused() {
    let tab = Value::Dict(vec![
        (b("bracket"), b("_BracketFilterShowAll")),
        (b("color"), Value::Nil),
        (Value::Str("name".into()), Value::Str("Main".into())),
        (b("overview"), b("P")),
    ]);
    let overview = Value::Dict(vec![(b("tabsettings_new"), Value::Tuple(vec![ts(), Value::Dict(vec![(Value::Int(0), tab)])]))]);
    let mut v = Value::Dict(vec![(b("overview"), overview)]);
    assert!(matches!(add_overview_window(&mut v, "X", Some(0)), Err(OverviewTabError::NoWindowMapping)));
}

#[test]
fn remove_last_window_reassigns_its_tabs_to_window_zero() {
    let mut v = user_two_windows();
    remove_overview_window(&mut v, 1).unwrap();
    assert_eq!(window_indices(&v, 0), vec![0, 1], "removed window's tab moved to window 0");
    let (_, g) = overview_entries(&v).iter().find(|(k, _)| is_b(k, b"tabsByWindowInstanceID")).unwrap();
    assert_eq!(list_inner(g).unwrap().len(), 1, "one window left");
    assert_eq!(tab_name(&v, 1), "B", "no tab deleted");
}

#[test]
fn remove_non_last_window_is_refused() {
    let mut v = user_two_windows();
    assert!(matches!(remove_overview_window(&mut v, 0), Err(OverviewTabError::NotLastWindow { index: 0 })));
}

#[test]
fn remove_the_only_window_is_refused() {
    let mut v = user_with_tabs();
    assert!(matches!(remove_overview_window(&mut v, 0), Err(OverviewTabError::LastWindow)));
}

#[test]
fn remove_unknown_window_errors() {
    let mut v = user_two_windows();
    assert!(matches!(remove_overview_window(&mut v, 2), Err(OverviewTabError::UnknownWindow { index: 2 })));
}

/// A char tree: `windows` (plain dict) with two `(ts, dict)` subdicts, each
/// holding a primary `overview` entry (geometry tuple / bool flag).
fn char_with_primary_overview() -> Value {
    let geom = |x: i64| {
        Value::Tuple(vec![
            Value::Int(x),
            Value::Int(100),
            Value::Int(400),
            Value::Int(300),
            Value::Int(2560),
            Value::Int(1440),
        ])
    };
    let sub = |entries: Vec<(Value, Value)>| Value::Tuple(vec![Value::Long(vec![0u8; 8]), Value::Dict(entries)]);
    let windows = Value::Dict(vec![
        (b("windowSizesAndPositions_1"), sub(vec![(b("overview"), geom(1000))])),
        (b("openWindows"), sub(vec![(b("overview"), Value::Bool(true))])),
    ]);
    Value::Dict(vec![(b("windows"), windows)])
}

fn win_keys(v: &Value, subdict: &[u8]) -> Vec<Vec<u8>> {
    let Value::Dict(root) = v else { panic!() };
    let (_, wins) = root.iter().find(|(k, _)| is_b(k, b"windows")).unwrap();
    let Value::Dict(subs) = wins else { panic!() };
    let (_, sv) = subs.iter().find(|(k, _)| is_b(k, subdict)).unwrap();
    let d = dict_inner(sv).unwrap();
    d.iter().filter_map(|(k, _)| if let Value::Bytes(b) = k { Some(b.clone()) } else { None }).collect()
}

fn geom_xy(v: &Value, key: &[u8]) -> (i64, i64) {
    let Value::Dict(root) = v else { panic!() };
    let (_, wins) = root.iter().find(|(k, _)| is_b(k, b"windows")).unwrap();
    let Value::Dict(subs) = wins else { panic!() };
    let (_, sv) = subs.iter().find(|(k, _)| is_b(k, b"windowSizesAndPositions_1")).unwrap();
    let d = dict_inner(sv).unwrap();
    let (_, g) = d.iter().find(|(k, _)| is_b(k, key)).unwrap();
    let Value::Tuple(items) = g else { panic!() };
    let Value::Int(x) = items[0] else { panic!() };
    let Value::Int(y) = items[1] else { panic!() };
    (x, y)
}

#[test]
fn add_geometry_clones_primary_into_overview_n_with_offset() {
    let mut v = char_with_primary_overview();
    add_overview_window_geometry(&mut v, 1);
    assert!(
        win_keys(&v, b"windowSizesAndPositions_1").iter().any(|k| k == b"overview_1"),
        "overview_1 minted in the geometry subdict"
    );
    assert!(win_keys(&v, b"openWindows").iter().any(|k| k == b"overview_1"), "overview_1 minted in the flags subdict too");
    assert_eq!(geom_xy(&v, b"overview"), (1000, 100), "primary unchanged");
    assert_eq!(geom_xy(&v, b"overview_1"), (1040, 140), "clone offset by (40, 40)");
}

#[test]
fn add_geometry_is_idempotent() {
    let mut v = char_with_primary_overview();
    add_overview_window_geometry(&mut v, 1);
    add_overview_window_geometry(&mut v, 1);
    let count = win_keys(&v, b"windowSizesAndPositions_1").iter().filter(|k| k.as_slice() == b"overview_1").count();
    assert_eq!(count, 1, "not double-added");
    assert_eq!(geom_xy(&v, b"overview_1"), (1040, 140), "not offset twice");
}

#[test]
fn remove_geometry_drops_overview_n_everywhere() {
    let mut v = char_with_primary_overview();
    add_overview_window_geometry(&mut v, 1);
    remove_overview_window_geometry(&mut v, 1);
    assert!(!win_keys(&v, b"windowSizesAndPositions_1").iter().any(|k| k == b"overview_1"));
    assert!(!win_keys(&v, b"openWindows").iter().any(|k| k == b"overview_1"));
    assert!(win_keys(&v, b"windowSizesAndPositions_1").iter().any(|k| k == b"overview"), "primary untouched");
}

#[test]
fn geometry_of_window_zero_changes_nothing() {
    let mut v = char_with_primary_overview();
    add_overview_window_geometry(&mut v, 0);
    assert_eq!(v, char_with_primary_overview());
    remove_overview_window_geometry(&mut v, 0);
    assert_eq!(v, char_with_primary_overview());
}

fn tab_preset(v: &Value, idx: i64) -> String {
    let (_, val) = tab_fields(v, idx).iter().find(|(k, _)| is_b(k, b"overview")).unwrap();
    match val {
        Value::Bytes(b) => String::from_utf8_lossy(b).into_owned(),
        _ => panic!(),
    }
}

#[test]
fn set_tab_preset_changes_the_field() {
    let mut v = user_with_tabs();
    set_tab_preset(&mut v, 0, "combat").unwrap();
    assert_eq!(tab_preset(&v, 0), "combat");
}

#[test]
fn set_tab_preset_unknown_tab_errors() {
    let mut v = user_with_tabs();
    assert!(matches!(set_tab_preset(&mut v, 9, "combat"), Err(OverviewTabError::UnknownTab { index: 9 })));
}

#[test]
fn set_tab_preset_adds_the_key_when_missing() {
    let tab = Value::Dict(vec![(Value::Str("name".into()), Value::StrUcs2("A".into()))]);
    let mut v = Value::Dict(vec![(
        b("overview"),
        Value::Dict(vec![(b("tabsettings_new"), Value::Tuple(vec![ts(), Value::Dict(vec![(Value::Int(0), tab)])]))]),
    )]);
    set_tab_preset(&mut v, 0, "mining").unwrap();
    assert_eq!(tab_preset(&v, 0), "mining");
}

/// An overview with tabs but no window mapping, the state the client's own
/// pack importer leaves behind.
fn windowless_root() -> Value {
    let tab = Value::Dict(vec![(Value::Str("name".into()), Value::StrUcs2("Default".into())), (b("overview"), b("P"))]);
    Value::Dict(vec![(
        b("overview"),
        Value::Dict(vec![(b("tabsettings_new"), Value::Tuple(vec![Value::Long(vec![0u8; 8]), Value::Dict(vec![(Value::Int(0), tab)])]))]),
    )])
}

#[test]
fn reorder_on_a_windowless_account_refuses_without_fabricating() {
    let mut v = windowless_root();
    assert!(matches!(reorder_tabs_in_window(&mut v, 0, &[0]), Err(OverviewTabError::NoWindowMapping)));
    assert!(!has_mapping(&v), "a refused reorder must not create the mapping");
}

#[test]
fn move_on_a_windowless_account_refuses_without_fabricating() {
    let mut v = windowless_root();
    assert!(matches!(move_tab(&mut v, 0, 0, 0, 0), Err(OverviewTabError::NoWindowMapping)));
    assert!(!has_mapping(&v), "a refused move must not create the mapping");
}

fn mapped_tabs(v: &Value) -> Vec<i64> {
    let (_, wv) = overview_entries(v).iter().find(|(k, _)| is_b(k, b"tabsByWindowInstanceID")).unwrap();
    let groups = list_inner(wv).unwrap();
    assert_eq!(groups.len(), 1, "exactly one window is created");
    list_inner(&groups[0]).unwrap().iter().filter_map(as_int).collect()
}

#[test]
fn create_mapping_lists_every_tab_in_one_window() {
    let tab = || Value::Dict(vec![(Value::Str("name".into()), Value::StrUcs2("Default".into())), (b("overview"), b("P"))]);
    let mut v = Value::Dict(vec![(
        b("overview"),
        Value::Dict(vec![(
            b("tabsettings_new"),
            Value::Tuple(vec![
                Value::Long(vec![0u8; 8]),
                Value::Dict(vec![(Value::Int(0), tab()), (Value::Int(5), tab()), (Value::Int(2), tab())]),
            ]),
        )]),
    )]);
    assert_eq!(create_window_mapping(&mut v).unwrap(), 3);
    assert_eq!(mapped_tabs(&v), vec![0, 2, 5]);
}

#[test]
fn create_mapping_refuses_when_one_already_exists() {
    let mut v = windowless_root();
    create_window_mapping(&mut v).unwrap();
    assert!(matches!(create_window_mapping(&mut v), Err(OverviewTabError::WindowMappingExists)));
}

#[test]
fn create_mapping_refuses_an_overview_with_no_tabs() {
    let mut v = Value::Dict(vec![(
        b("overview"),
        Value::Dict(vec![(b("tabsettings_new"), Value::Tuple(vec![Value::Long(vec![0u8; 8]), Value::Dict(Vec::new())]))]),
    )]);
    assert!(matches!(create_window_mapping(&mut v), Err(OverviewTabError::NoTabsToMap)));
    assert!(!has_mapping(&v), "a refused create must not leave a partial mapping");
}

#[test]
fn create_mapping_refuses_a_tab_it_cannot_name() {
    let tab = Value::Dict(vec![(Value::Str("name".into()), Value::StrUcs2("A".into()))]);
    let mut v = Value::Dict(vec![(
        b("overview"),
        Value::Dict(vec![(
            b("tabsettings_new"),
            Value::Tuple(vec![
                Value::Long(vec![0u8; 8]),
                Value::Dict(vec![(Value::Int(0), clone_value(&tab)), (Value::Long(vec![1u8; 8]), tab)]),
            ]),
        )]),
    )]);
    assert!(matches!(create_window_mapping(&mut v), Err(OverviewTabError::NoTabsToMap)));
    assert!(!has_mapping(&v), "a refused create must not leave a partial mapping");
}

#[test]
fn create_mapping_on_an_overview_with_no_tab_key_mints_nothing() {
    let mut v = Value::Dict(vec![(b("overview"), Value::Dict(Vec::new()))]);
    assert!(matches!(create_window_mapping(&mut v), Err(OverviewTabError::NoTabsToMap)));
    assert!(overview_entries(&v).is_empty(), "a refused create must not mint a tab dict");
}

#[test]
fn create_mapping_leaves_a_tree_that_still_encodes() {
    let mut v = windowless_root();
    create_window_mapping(&mut v).unwrap();
    let bytes = encode(&v).expect("edited tree still encodes");
    assert_eq!(decode(&bytes).unwrap(), v);
}

#[test]
fn add_window_works_once_a_mapping_exists() {
    let mut v = windowless_root();
    assert!(matches!(add_overview_window(&mut v, "Second", None), Err(OverviewTabError::NoWindowMapping)));
    create_window_mapping(&mut v).unwrap();
    assert_eq!(add_overview_window(&mut v, "Second", None).unwrap(), 1);
}

fn container_slot<'a>(v: &'a Value, key: &[u8]) -> &'a Value {
    let (_, slot) = overview_entries(v).iter().find(|(k, _)| is_b(k, key)).unwrap();
    slot
}

#[test]
fn editing_tabs_rewraps_a_bare_tabsettings() {
    let tab = Value::Dict(vec![(Value::Str("name".into()), Value::StrUcs2("A".into()))]);
    let mut v = Value::Dict(vec![(b("overview"), Value::Dict(vec![(b("tabsettings_new"), Value::Dict(vec![(Value::Int(0), tab)]))]))]);
    rename_tab(&mut v, 0, "B").unwrap();
    let slot = container_slot(&v, b"tabsettings_new");
    let Value::Tuple(items) = slot else {
        panic!("a bare tabsettings_new must come back wrapped, got {slot:?}");
    };
    assert!(matches!(items[0], Value::Long(_)), "the wrapper leads with a timestamp");
    assert_eq!(tab_name(&v, 0), "B", "the edit itself still landed");
}

#[test]
fn editing_window_groups_rewraps_a_bare_mapping() {
    let tab = Value::Dict(vec![(Value::Str("name".into()), Value::StrUcs2("A".into()))]);
    let mut v = Value::Dict(vec![(
        b("overview"),
        Value::Dict(vec![
            (b("tabsettings_new"), Value::Tuple(vec![ts(), Value::Dict(vec![(Value::Int(0), tab)])])),
            (b("tabsByWindowInstanceID"), Value::List(vec![Value::List(vec![Value::Int(0)])])),
        ]),
    )]);
    reorder_tabs_in_window(&mut v, 0, &[0]).unwrap();
    let slot = container_slot(&v, b"tabsByWindowInstanceID");
    let Value::Tuple(items) = slot else {
        panic!("a bare tabsByWindowInstanceID must come back wrapped, got {slot:?}");
    };
    assert!(matches!(items[0], Value::Long(_)), "the wrapper leads with a timestamp");
    assert_eq!(window_indices(&v, 0), vec![0], "the reorder itself still landed");
}

#[test]
fn rewrapping_never_resets_an_existing_timestamp() {
    let stamp = Value::Long(vec![7u8; 8]);
    let tab = Value::Dict(vec![(Value::Str("name".into()), Value::StrUcs2("A".into()))]);
    let mut v = Value::Dict(vec![(
        b("overview"),
        Value::Dict(vec![(b("tabsettings_new"), Value::Tuple(vec![clone_value(&stamp), Value::Dict(vec![(Value::Int(0), tab)])]))]),
    )]);
    rename_tab(&mut v, 0, "B").unwrap();
    let slot = container_slot(&v, b"tabsettings_new");
    let Value::Tuple(items) = slot else { panic!() };
    assert_eq!(items[0], stamp, "an existing timestamp must not be reset to zero");
}

#[test]
fn a_legacy_tabsettings_key_is_migrated() {
    let tab = Value::Dict(vec![(Value::Str("name".into()), Value::StrUcs2("A".into()))]);
    let mut v = Value::Dict(vec![(
        b("overview"),
        Value::Dict(vec![(b("tabsettings"), Value::Tuple(vec![ts(), Value::Dict(vec![(Value::Int(0), tab)])]))]),
    )]);
    rename_tab(&mut v, 0, "B").unwrap();
    assert_eq!(tab_name(&v, 0), "B");
    assert!(!overview_entries(&v).iter().any(|(k, _)| is_b(k, b"tabsettings")));
}

#[test]
fn a_renamed_bytes_name_stays_bytes() {
    let tab = Value::Dict(vec![(Value::StrTable(52), b("Old"))]);
    let mut v = Value::Dict(vec![(
        b("overview"),
        Value::Dict(vec![(b("tabsettings_new"), Value::Tuple(vec![ts(), Value::Dict(vec![(Value::Int(0), tab)])]))]),
    )]);
    rename_tab(&mut v, 0, "New").unwrap();
    assert_eq!(tab_fields(&v, 0), &vec![(Value::StrTable(52), b("New"))]);
}

#[test]
fn edits_without_an_overview_are_refused() {
    let mut v = Value::Dict(vec![(b("windows"), Value::Dict(vec![]))]);
    assert!(matches!(rename_tab(&mut v, 0, "X"), Err(OverviewTabError::NoOverview)));
    assert!(matches!(create_window_mapping(&mut v), Err(OverviewTabError::NoOverview)));
}
