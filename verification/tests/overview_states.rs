use eve_settings::overview_states::{
    overview_bools, set_overview_bool, set_state_color, set_state_list, state_colors, Channel, StateList,
};
use eve_settings::overview_tabs::OverviewTabError;
use eve_settings::value::Value;

fn b(s: &str) -> Value {
    Value::Bytes(s.as_bytes().to_vec())
}

fn is_b(k: &Value, name: &[u8]) -> bool {
    matches!(k, Value::Bytes(x) if x.as_slice() == name)
}

fn ints(v: &Value) -> Vec<i64> {
    let inner = match v {
        Value::List(l) => l,
        Value::Tuple(items) => match items.iter().find(|e| matches!(e, Value::List(_))) {
            Some(Value::List(l)) => l,
            _ => return Vec::new(),
        },
        _ => return Vec::new(),
    };
    inner.iter().filter_map(|e| if let Value::Int(n) = e { Some(*n) } else { None }).collect()
}

fn overview_dict(v: &Value) -> &Vec<(Value, Value)> {
    let Value::Dict(root) = v else { panic!() };
    let (_, ov) = root.iter().find(|(k, _)| is_b(k, b"overview")).unwrap();
    let Value::Dict(ovd) = ov else { panic!() };
    ovd
}

fn read(v: &Value, key: &str) -> Vec<i64> {
    overview_dict(v).iter().find(|(k, _)| is_b(k, key.as_bytes())).map(|(_, v)| ints(v)).unwrap_or_default()
}

/// A distinguishable non-zero timestamp.
fn seeded_ts() -> Value {
    Value::Long(vec![7, 0, 0, 0, 0, 0, 0, 0])
}

fn user_with_states() -> Value {
    let list = |ids: &[i64]| Value::Tuple(vec![seeded_ts(), Value::List(ids.iter().map(|n| Value::Int(*n)).collect())]);
    Value::Dict(vec![(
        b("overview"),
        Value::Dict(vec![
            (b("backgroundStates2"), list(&[9, 13, 44])),
            (b("backgroundOrder2"), list(&[13, 44, 9, 68])),
            (b("flagStates2"), list(&[9, 13])),
            (b("flagOrder2"), list(&[13, 9, 44, 68])),
        ]),
    )])
}

fn user_without_states() -> Value {
    Value::Dict(vec![(b("overview"), Value::Dict(vec![(b("tabsettings_new"), Value::Dict(Vec::new()))]))])
}

#[test]
fn enabled_list_is_written_sorted() {
    let mut v = user_with_states();
    set_state_list(&mut v, StateList::Background, &[44, 9, 13]).unwrap();
    assert_eq!(read(&v, "backgroundStates2"), vec![9, 13, 44]);
}

#[test]
fn order_list_keeps_caller_order() {
    let mut v = user_with_states();
    set_state_list(&mut v, StateList::BackgroundOrder, &[44, 9, 68, 13]).unwrap();
    assert_eq!(read(&v, "backgroundOrder2"), vec![44, 9, 68, 13]);
}

#[test]
fn flag_lists_are_independent_of_background() {
    let mut v = user_with_states();
    set_state_list(&mut v, StateList::Flag, &[44]).unwrap();
    assert_eq!(read(&v, "flagStates2"), vec![44]);
    assert_eq!(read(&v, "backgroundStates2"), vec![9, 13, 44], "background untouched");
}

#[test]
fn timestamp_wrapper_survives_the_edit() {
    let mut v = user_with_states();
    set_state_list(&mut v, StateList::Background, &[9]).unwrap();
    let (_, val) = overview_dict(&v).iter().find(|(k, _)| is_b(k, b"backgroundStates2")).unwrap();
    let Value::Tuple(items) = val else { panic!("the (ts, list) wrapper must be preserved") };
    let ts = items.iter().find(|e| matches!(e, Value::Long(_))).expect("a Long timestamp element");
    assert_eq!(ts, &seeded_ts(), "the ORIGINAL timestamp must survive the edit, not be replaced");
}

#[test]
fn absent_keys_are_materialised_on_first_edit() {
    let mut v = user_without_states();
    set_state_list(&mut v, StateList::Background, &[9, 13]).unwrap();
    assert_eq!(read(&v, "backgroundStates2"), vec![9, 13]);
    let (_, val) = overview_dict(&v).iter().find(|(k, _)| is_b(k, b"backgroundStates2")).unwrap();
    assert_eq!(
        val,
        &Value::Tuple(vec![Value::Long(vec![0u8; 8]), Value::List(vec![Value::Int(9), Value::Int(13)])]),
        "a freshly minted key must be a (zero Long timestamp, list) tuple, not a bare list"
    );
}

#[test]
fn enabled_list_dedups_duplicate_ids() {
    let mut v = user_with_states();
    set_state_list(&mut v, StateList::Background, &[9, 9, 13, 9]).unwrap();
    assert_eq!(read(&v, "backgroundStates2"), vec![9, 13]);
}

#[test]
fn unrendered_id_68_survives_a_toggle() {
    let mut v = user_with_states();
    set_state_list(&mut v, StateList::Background, &[9, 13, 44, 52]).unwrap();
    assert!(read(&v, "backgroundOrder2").contains(&68), "id 68 must round-trip");
}

#[test]
fn no_overview_container_is_an_error() {
    let mut v = Value::Dict(vec![(b("ui"), Value::Dict(Vec::new()))]);
    assert!(matches!(set_state_list(&mut v, StateList::Background, &[9]), Err(OverviewTabError::NoOverview)));
}

#[test]
fn an_order_list_keeps_duplicates_and_a_bare_list_stays_bare() {
    let mut v = Value::Dict(vec![(b("overview"), Value::Dict(vec![(b("flagOrder2"), Value::List(vec![Value::Int(1)]))]))]);
    set_state_list(&mut v, StateList::FlagOrder, &[3, 3, 1]).unwrap();
    let (_, val) = overview_dict(&v).iter().find(|(k, _)| is_b(k, b"flagOrder2")).unwrap();
    assert_eq!(val, &Value::List(vec![Value::Int(3), Value::Int(3), Value::Int(1)]));
}

fn rgba(r: f64, g: f64, bl: f64, a: f64) -> Value {
    Value::Tuple(vec![
        Value::Float(r.to_bits()),
        Value::Float(g.to_bits()),
        Value::Float(bl.to_bits()),
        Value::Float(a.to_bits()),
    ])
}

fn chans(c: [f64; 4]) -> [Channel; 4] {
    [Channel::Float(c[0].to_bits()), Channel::Float(c[1].to_bits()), Channel::Float(c[2].to_bits()), Channel::Float(c[3].to_bits())]
}

fn bits(c: [f64; 4]) -> [u64; 4] {
    [c[0].to_bits(), c[1].to_bits(), c[2].to_bits(), c[3].to_bits()]
}

fn color_key(surface: &str, id: i64) -> Value {
    Value::Tuple(vec![b(surface), Value::Int(id)])
}

fn user_with_colors() -> Value {
    Value::Dict(vec![(
        b("overview"),
        Value::Dict(vec![(
            b("stateColors"),
            Value::Tuple(vec![
                seeded_ts(),
                Value::Dict(vec![
                    (color_key("background", 44), rgba(0.75, 0.0, 0.0, 1.0)),
                    (color_key("background", 20), rgba(0.7, 0.7, 0.7, 0.5)),
                    (color_key("bracket", 44), rgba(0.1, 0.2, 0.3, 1.0)),
                ]),
            ]),
        )]),
    )])
}

#[test]
fn projects_only_the_background_surface() {
    let v = user_with_colors();
    let mut got = state_colors(&v);
    got.sort_by_key(|(id, _)| *id);
    assert_eq!(got, vec![(20, chans([0.7, 0.7, 0.7, 0.5])), (44, chans([0.75, 0.0, 0.0, 1.0]))]);
}

fn user_with_shared_colors() -> Value {
    let dict = Value::Dict(vec![
        (
            Value::Tuple(vec![Value::Shared { slot: 1, value: Box::new(b("background")) }, Value::Int(10)]),
            Value::Shared { slot: 2, value: Box::new(rgba(0.7, 0.7, 0.7, 1.0)) },
        ),
        (Value::Tuple(vec![Value::Ref(1), Value::Int(12)]), Value::Ref(2)),
    ]);
    Value::Dict(vec![(
        Value::Shared { slot: 3, value: Box::new(b("overview")) },
        Value::Dict(vec![(b("stateColors"), Value::Tuple(vec![seeded_ts(), dict]))]),
    )])
}

#[test]
fn resolves_shared_and_ref_colour_keys_and_values() {
    let mut got = state_colors(&user_with_shared_colors());
    got.sort_by_key(|(id, _)| *id);
    assert_eq!(got, vec![(10, chans([0.7, 0.7, 0.7, 1.0])), (12, chans([0.7, 0.7, 0.7, 1.0]))]);
}

#[test]
fn integer_colour_components_are_read_too() {
    let v = Value::Dict(vec![(
        b("overview"),
        Value::Dict(vec![(
            b("stateColors"),
            Value::Dict(vec![(
                color_key("background", 5),
                Value::Tuple(vec![Value::Int(1), Value::Int(0), Value::Int(0), Value::Int(1)]),
            )]),
        )]),
    )]);
    assert_eq!(state_colors(&v), vec![(5, [Channel::Int(1), Channel::Int(0), Channel::Int(0), Channel::Int(1)])]);
}

#[test]
fn resolves_a_ref_boolean_key() {
    let v = Value::Dict(vec![
        (b("restoreData"), Value::List(vec![Value::Shared { slot: 7, value: Box::new(b("useSmallText")) }])),
        (b("overview"), Value::Dict(vec![(Value::Ref(7), Value::Tuple(vec![seeded_ts(), Value::Bool(true)]))])),
    ]);
    assert_eq!(overview_bools(&v), vec![("useSmallText".to_string(), true)]);
}

#[test]
fn sets_a_colour_for_a_state_with_no_entry() {
    let mut v = user_with_colors();
    set_state_color(&mut v, 13, Some(bits([1.0, 0.0, 0.0, 1.0]))).unwrap();
    assert!(state_colors(&v).contains(&(13, chans([1.0, 0.0, 0.0, 1.0]))));
}

#[test]
fn overwrites_an_existing_colour() {
    let mut v = user_with_colors();
    set_state_color(&mut v, 44, Some(bits([0.0, 1.0, 0.0, 1.0]))).unwrap();
    assert!(state_colors(&v).contains(&(44, chans([0.0, 1.0, 0.0, 1.0]))));
    assert_eq!(state_colors(&v).iter().filter(|(id, _)| *id == 44).count(), 1);
}

#[test]
fn none_removes_the_entry_restoring_eves_default() {
    let mut v = user_with_colors();
    set_state_color(&mut v, 44, None).unwrap();
    assert!(!state_colors(&v).iter().any(|(id, _)| *id == 44));
}

#[test]
fn removing_an_absent_entry_is_a_no_op() {
    let mut v = user_with_colors();
    set_state_color(&mut v, 13, None).unwrap();
    assert_eq!(state_colors(&v).len(), 2);
}

#[test]
fn a_foreign_surface_entry_is_preserved() {
    let mut v = user_with_colors();
    set_state_color(&mut v, 44, Some(bits([0.0, 0.0, 1.0, 1.0]))).unwrap();
    let (_, sc) = overview_dict(&v).iter().find(|(k, _)| is_b(k, b"stateColors")).unwrap();
    let Value::Tuple(items) = sc else { panic!() };
    let Some(Value::Dict(d)) = items.iter().find(|e| matches!(e, Value::Dict(_))) else { panic!() };
    assert!(d.iter().any(|(k, _)| *k == color_key("bracket", 44)), "a non-background surface must round-trip untouched");
}

#[test]
fn colours_can_be_set_when_the_key_is_absent() {
    let mut v = user_without_states();
    set_state_color(&mut v, 13, Some(bits([1.0, 0.0, 0.0, 1.0]))).unwrap();
    assert_eq!(state_colors(&v), vec![(13, chans([1.0, 0.0, 0.0, 1.0]))]);
}

#[test]
fn clearing_a_colour_when_the_key_is_absent_mints_nothing() {
    let mut v = user_without_states();
    set_state_color(&mut v, 13, None).unwrap();
    assert_eq!(overview_dict(&v).len(), 1);
}

#[test]
fn color_timestamp_wrapper_survives_the_edit() {
    let mut v = user_with_colors();
    set_state_color(&mut v, 44, Some(bits([0.0, 1.0, 0.0, 1.0]))).unwrap();
    let (_, val) = overview_dict(&v).iter().find(|(k, _)| is_b(k, b"stateColors")).unwrap();
    let Value::Tuple(items) = val else { panic!("the (ts, dict) wrapper must be preserved") };
    let ts = items.iter().find(|e| matches!(e, Value::Long(_))).expect("a Long timestamp element");
    assert_eq!(ts, &seeded_ts(), "the ORIGINAL timestamp must survive the edit, not be replaced");
}

#[test]
fn set_state_color_with_no_overview_container_is_an_error() {
    let mut v = Value::Dict(vec![(b("ui"), Value::Dict(Vec::new()))]);
    assert!(matches!(set_state_color(&mut v, 9, Some(bits([0.0, 0.0, 0.0, 1.0]))), Err(OverviewTabError::NoOverview)));
}

#[test]
fn malformed_state_colors_value_is_an_error() {
    let mut v = Value::Dict(vec![(b("overview"), Value::Dict(vec![(b("stateColors"), Value::Int(1))]))]);
    assert!(matches!(set_state_color(&mut v, 9, Some(bits([0.0, 0.0, 0.0, 1.0]))), Err(OverviewTabError::NoOverview)));
}

#[test]
fn editing_rgb_preserves_a_non_default_alpha() {
    let mut v = user_with_colors();
    set_state_color(&mut v, 20, Some(bits([0.1, 0.2, 0.3, 0.5]))).unwrap();
    assert!(state_colors(&v).contains(&(20, chans([0.1, 0.2, 0.3, 0.5]))));
}

fn user_with_bools() -> Value {
    let flag = |on: bool| Value::Tuple(vec![seeded_ts(), Value::Bool(on)]);
    Value::Dict(vec![(
        b("overview"),
        Value::Dict(vec![
            (b("applyToStructures"), flag(true)),
            (b("applyToOtherObjects"), flag(false)),
            (b("useSmallText"), flag(false)),
        ]),
    )])
}

#[test]
fn projects_the_boolean_settings_present_in_the_file() {
    let mut got = overview_bools(&user_with_bools());
    got.sort();
    assert_eq!(
        got,
        vec![
            ("applyToOtherObjects".to_string(), false),
            ("applyToStructures".to_string(), true),
            ("useSmallText".to_string(), false),
        ]
    );
}

#[test]
fn sets_an_existing_boolean() {
    let mut v = user_with_bools();
    set_overview_bool(&mut v, "applyToOtherObjects", true).unwrap();
    assert!(overview_bools(&v).contains(&("applyToOtherObjects".to_string(), true)));
}

#[test]
fn bool_timestamp_wrapper_survives_the_edit() {
    let mut v = user_with_bools();
    set_overview_bool(&mut v, "applyToStructures", false).unwrap();
    let (_, val) = overview_dict(&v).iter().find(|(k, _)| is_b(k, b"applyToStructures")).unwrap();
    let Value::Tuple(items) = val else { panic!("the (ts, bool) wrapper must be preserved") };
    let ts = items.iter().find(|e| matches!(e, Value::Long(_))).expect("a Long timestamp element");
    assert_eq!(ts, &seeded_ts(), "the ORIGINAL timestamp must survive the edit, not be replaced");
}

#[test]
fn materialises_a_known_boolean_that_is_absent() {
    let mut v = user_with_bools();
    set_overview_bool(&mut v, "hideCorpTicker", true).unwrap();
    assert!(overview_bools(&v).contains(&("hideCorpTicker".to_string(), true)));
    let (_, val) = overview_dict(&v).iter().find(|(k, _)| is_b(k, b"hideCorpTicker")).unwrap();
    assert_eq!(
        val,
        &Value::Tuple(vec![Value::Long(vec![0u8; 8]), Value::Bool(true)]),
        "a freshly minted key must be a (zero Long timestamp, bool) tuple, not a bare bool"
    );
}

#[test]
fn rejects_a_key_outside_the_allow_list() {
    let mut v = user_with_bools();
    assert!(matches!(
        set_overview_bool(&mut v, "applyToStructuresTypo", true),
        Err(OverviewTabError::UnknownSetting { key }) if key == "applyToStructuresTypo"
    ));
    assert_eq!(overview_bools(&v).len(), 3, "nothing was minted");
    assert_eq!(overview_dict(&v).len(), 3, "no junk key was pushed into the raw overview container");
}
