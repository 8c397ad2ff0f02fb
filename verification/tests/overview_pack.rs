use eve_settings::overview_pack::{
    as_str, color_name, color_rgba, ints, pairs, strs, Node, Pack, PackError,
};
use eve_settings::pack_apply::{apply_pack, pack_applicable};
use eve_settings::pack_read::read_pack;
use eve_settings::reshare::clone_value;
use eve_settings::value::Value;
use eve_settings::pack_yaml::{load_yaml, pack_from_yaml, real_texts};

// ---------------------------------------------------------------------------
// Reading a pack file: the YAML parser's tree, converted node for node, then
// the library's reading of the top level.
// ---------------------------------------------------------------------------

fn parse_pack(text: &str) -> Result<Pack, PackError> {
    let docs = load_yaml(text);
    let reals: Vec<(String, u64)> = match &docs {
        Ok(d) => real_texts(d)
            .into_iter()
            .filter_map(|t| t.parse::<f64>().ok().map(|f| (t, f.to_bits())))
            .collect(),
        Err(_) => Vec::new(),
    };
    pack_from_yaml(&docs, &reals)
}

fn new_pack() -> Pack {
    Pack { sections: Vec::new(), ignored: Vec::new() }
}

fn fl(x: f64) -> u64 {
    x.to_bits()
}

/// A pack in the real published shape: dicts as sequences of two-element
/// `[key, value]` sequences, unicode and markup in names, a `''`-escaped
/// quote, and a tab label holding a newline.
const FIXTURE: &str = r#"backgroundOrder:
- 13
- 9
backgroundStates:
- 9
- 13
presets:
- - '✪ Friendly: Fleet'
  - - - alwaysShownStates
      - []
    - - filteredStates
      - - 21
        - 36
    - - groups
      - - 25
        - 26
- - 'Bob''s picks'
  - - - alwaysShownStates
      - []
    - - filteredStates
      - []
    - - groups
      - - 27
stateColorsNameList:
- - background_16
  - darkBlue
tabSetup:
- - 0
  - - - bracket
      - '✪ Friendly: Fleet'
    - - name
      - "line one\nline two"
    - - overview
      - 'Bob''s picks'
userSettings:
- - overviewBroadcastsToTop
  - true
"#;

#[test]
fn parses_every_section_of_the_fixture() {
    let pack = parse_pack(FIXTURE).unwrap();
    assert_eq!(ints(pack.get("backgroundStates").unwrap()), vec![9, 13]);
    assert_eq!(ints(pack.get("backgroundOrder").unwrap()), vec![13, 9]);

    let presets = pairs(pack.get("presets").unwrap());
    assert_eq!(presets.len(), 2);
    assert_eq!(as_str(presets[0].0), Some("✪ Friendly: Fleet"));
    let fields = pairs(presets[0].1);
    let groups = fields.iter().find(|(k, _)| as_str(k) == Some("groups")).unwrap().1;
    assert_eq!(ints(groups), vec![25, 26]);
    assert_eq!(as_str(presets[1].0), Some("Bob's picks"), "'' is an escaped quote");

    let tabs = pairs(pack.get("tabSetup").unwrap());
    assert_eq!(tabs[0].0, &Node::Int(0));
    let tab = pairs(tabs[0].1);
    let name = tab.iter().find(|(k, _)| as_str(k) == Some("name")).unwrap().1;
    assert_eq!(as_str(name), Some("line one\nline two"));

    let colors = pairs(pack.get("stateColorsNameList").unwrap());
    assert_eq!((as_str(colors[0].0), as_str(colors[0].1)), (Some("background_16"), Some("darkBlue")));

    let settings = pairs(pack.get("userSettings").unwrap());
    assert_eq!(settings[0].1, &Node::Bool(true));
}

#[test]
fn strips_a_leading_bom() {
    let with_bom = format!("\u{feff}{FIXTURE}");
    assert!(parse_pack(&with_bom).is_ok());
}

#[test]
fn rejects_a_yaml_file_that_is_not_a_pack() {
    let err = parse_pack("some: mapping\nother: 3\n").unwrap_err();
    assert!(matches!(err, PackError::NotAPack));
}

#[test]
fn rejects_a_document_that_is_not_a_mapping() {
    let err = parse_pack("- just\n- a list\n").unwrap_err();
    assert!(matches!(err, PackError::NotAMapping));
}

#[test]
fn rejects_malformed_yaml() {
    let err = parse_pack("presets:\n- - unclosed: [\n").unwrap_err();
    assert!(matches!(err, PackError::Yaml { .. }), "got {err:?}");
}

#[test]
fn accepts_the_suffixed_state_list_spelling() {
    let pack = parse_pack("backgroundStates2:\n- 9\nflagOrder2:\n- 13\n").unwrap();
    assert_eq!(ints(pack.get("backgroundStates").unwrap()), vec![9]);
    assert_eq!(ints(pack.get("flagOrder").unwrap()), vec![13]);
    assert!(pack.ignored.is_empty());
}

#[test]
fn keeps_unrecognised_sections_out_of_the_pack() {
    let pack = parse_pack("presets: []\nsomeFutureSection:\n- 1\n").unwrap();
    assert!(pack.get("someFutureSection").is_none());
    assert_eq!(pack.ignored, vec!["someFutureSection".to_string()]);
}

#[test]
fn palette_maps_both_directions() {
    assert_eq!(color_rgba("darkBlue"), Some([fl(0.0), fl(0.15), fl(0.6), fl(1.0)]));
    assert_eq!(color_rgba("blue"), Some([fl(0.2), fl(0.5), fl(1.0), fl(1.0)]));
    assert_eq!(color_rgba("red"), Some([fl(0.75), fl(0.0), fl(0.0), fl(1.0)]));
    assert_eq!(color_name([fl(0.0), fl(0.15), fl(0.6), fl(1.0)]), Some("darkBlue"));
    assert_eq!(color_rgba("chartreuse"), None);
    assert_eq!(color_name([fl(0.123), fl(0.0), fl(0.0), fl(1.0)]), None, "no near-miss matching");
}

#[test]
fn a_document_read_keeps_section_order_and_non_text_keys_out() {
    let pack = parse_pack("tabSetup:\n- - 0\n  - []\n3: [1]\npresets: []\nflagStates2: [9]\n").unwrap();
    let names: Vec<&str> = pack.sections.iter().map(|(n, _)| n.as_str()).collect();
    assert_eq!(names, vec!["tabSetup", "presets", "flagStates"]);
    assert!(pack.ignored.is_empty(), "a key that is not text is neither a section nor reported");
}

#[test]
fn a_parse_error_carries_the_parser_message() {
    let err = parse_pack("presets:\n- - unclosed: [\n").unwrap_err();
    match &err {
        PackError::Yaml { message } => {
            assert!(!message.is_empty());
            assert_eq!(err.message(), format!("This file is not valid YAML: {message}"));
        },
        other => panic!("got {other:?}"),
    }
}

// ---------------------------------------------------------------------------
// Applying a pack.
// ---------------------------------------------------------------------------

fn b(s: &str) -> Value {
    Value::Bytes(s.as_bytes().to_vec())
}

/// A distinguishable non-zero timestamp: an existing wrapper keeps its own,
/// while an absent key is minted with a zero one.
fn ts() -> Value {
    Value::Long(vec![7, 0, 0, 0, 0, 0, 0, 0])
}

fn ints_v(xs: &[i64]) -> Value {
    Value::List(xs.iter().map(|n| Value::Int(*n)).collect())
}

fn is_b(k: &Value, name: &[u8]) -> bool {
    matches!(k, Value::Bytes(x) if x.as_slice() == name)
}

fn as_int(v: &Value) -> Option<i64> {
    match v {
        Value::Int(i) => Some(*i),
        _ => None,
    }
}

/// A minimal but realistic user tree: an overview container with one preset,
/// one tab, columns, state lists, one colour, one blink and one bool.
fn user_doc() -> Value {
    let preset = Value::Dict(vec![
        (b("groups"), ints_v(&[25, 26])),
        (b("filteredStates"), ints_v(&[21])),
        (b("alwaysShownStates"), ints_v(&[])),
    ]);
    let tab = Value::Dict(vec![
        (b("color"), Value::Nil),
        (b("bracket"), b("Brackets")),
        (b("name"), Value::StrUcs2("Fleet".into())),
        (b("overview"), b("Friendly")),
    ]);
    Value::Dict(vec![(
        b("overview"),
        Value::Dict(vec![
            (b("overviewProfilePresets"), Value::Tuple(vec![ts(), Value::Dict(vec![(b("Friendly"), preset)])])),
            (b("tabsettings_new"), Value::Tuple(vec![ts(), Value::Dict(vec![(Value::Int(0), tab)])])),
            (b("overviewColumnOrder"), Value::List(vec![b("ICON"), b("NAME")])),
            (b("overviewColumns"), Value::List(vec![b("NAME")])),
            (b("backgroundStates2"), Value::Tuple(vec![ts(), ints_v(&[9, 13])])),
            (b("backgroundOrder2"), Value::Tuple(vec![ts(), ints_v(&[13, 9])])),
            (b("flagStates2"), Value::Tuple(vec![ts(), ints_v(&[9])])),
            (b("flagOrder2"), Value::Tuple(vec![ts(), ints_v(&[9, 13])])),
            (
                b("stateColors"),
                Value::Tuple(vec![
                    ts(),
                    Value::Dict(vec![
                        (
                            Value::Tuple(vec![b("background"), Value::Int(16)]),
                            Value::Tuple(vec![
                                Value::Float(fl(0.0)),
                                Value::Float(fl(0.15)),
                                Value::Float(fl(0.6)),
                                Value::Float(fl(1.0)),
                            ]),
                        ),
                        (
                            Value::Tuple(vec![b("background"), Value::Int(18)]),
                            Value::Tuple(vec![
                                Value::Float(fl(0.42)),
                                Value::Float(fl(0.42)),
                                Value::Float(fl(0.42)),
                                Value::Float(fl(1.0)),
                            ]),
                        ),
                    ]),
                ]),
            ),
            (
                b("stateBlinks"),
                Value::Tuple(vec![ts(), Value::Dict(vec![(Value::Tuple(vec![b("flag"), Value::Int(9)]), Value::Bool(true))])]),
            ),
            (b("overviewBroadcastsToTop"), Value::Tuple(vec![ts(), Value::Bool(true)])),
        ]),
    )])
}

fn overview_entries(doc: &Value) -> &Vec<(Value, Value)> {
    let Value::Dict(root) = doc else { panic!("doc is not a dict") };
    let (_, ov) = root.iter().find(|(k, _)| is_b(k, b"overview")).expect("overview container");
    let Value::Dict(entries) = ov else { panic!("overview is not a dict") };
    entries
}

fn overview_entries_mut(doc: &mut Value) -> &mut Vec<(Value, Value)> {
    let Value::Dict(root) = doc else { panic!("doc is not a dict") };
    let (_, ov) = root.iter_mut().find(|(k, _)| is_b(k, b"overview")).expect("overview container");
    let Value::Dict(entries) = ov else { panic!("overview is not a dict") };
    entries
}

/// The raw value under a key of the document's `overview` dict.
fn raw_overview_entry<'a>(doc: &'a Value, key: &str) -> &'a Value {
    overview_entries(doc)
        .iter()
        .find(|(k, _)| is_b(k, key.as_bytes()))
        .map(|(_, v)| v)
        .unwrap_or_else(|| panic!("missing key {key}"))
}

/// A `(timestamp, payload)` wrapper's payload, or a bare value itself.
fn payload(v: &Value) -> &Value {
    match v {
        Value::Tuple(items) => items.iter().find(|e| !matches!(e, Value::Long(_))).expect("wrapper has a payload"),
        other => other,
    }
}

fn list_or_wrapped(v: &Value) -> &Vec<Value> {
    match v {
        Value::List(l) => l,
        Value::Tuple(items) => items
            .iter()
            .find_map(|e| match e {
                Value::List(l) => Some(l),
                _ => None,
            })
            .expect("tuple has no inner list"),
        _ => panic!("expected a list or (ts, list) tuple, got {v:?}"),
    }
}

fn dict_or_wrapped(v: &Value) -> &Vec<(Value, Value)> {
    match v {
        Value::Dict(d) => d,
        Value::Tuple(items) => items
            .iter()
            .find_map(|e| match e {
                Value::Dict(d) => Some(d),
                _ => None,
            })
            .expect("tuple has no inner dict"),
        _ => panic!("expected a dict or (ts, dict) tuple, got {v:?}"),
    }
}

fn as_ints(items: &[Value]) -> Vec<i64> {
    items.iter().filter_map(as_int).collect()
}

fn tab_fields(doc: &Value, idx: i64) -> &Vec<(Value, Value)> {
    let tabs = dict_or_wrapped(raw_overview_entry(doc, "tabsettings_new"));
    let (_, tab) = tabs.iter().find(|(k, _)| as_int(k) == Some(idx)).unwrap_or_else(|| panic!("no tab {idx}"));
    dict_or_wrapped(tab)
}

#[test]
fn applies_lists_colours_blinks_and_bools() {
    let mut doc = user_doc();
    let pack = parse_pack(
        "backgroundStates:\n- 44\n- 9\nflagOrder:\n- 13\ncolumnOrder:\n- TYPE\n- NAME\n\
         stateColorsNameList:\n- - background_44\n  - red\nstateBlinks:\n- - flag_13\n  - true\n\
         userSettings:\n- - useSmallText\n  - true\n",
    )
    .unwrap();

    let report = apply_pack(&mut doc, &pack).unwrap();

    assert_eq!(as_ints(list_or_wrapped(raw_overview_entry(&doc, "backgroundStates2"))), vec![9, 44], "enabled lists are stored sorted");
    assert_eq!(as_ints(list_or_wrapped(raw_overview_entry(&doc, "flagOrder2"))), vec![13]);
    assert_eq!(
        list_or_wrapped(raw_overview_entry(&doc, "overviewColumnOrder")),
        &vec![b("TYPE"), b("NAME")],
        "order lists keep the pack's order"
    );

    let colors = dict_or_wrapped(raw_overview_entry(&doc, "stateColors"));
    assert_eq!(colors.len(), 1, "the pack's colours REPLACE the file's");
    assert_eq!(colors[0].0, Value::Tuple(vec![b("background"), Value::Int(44)]));
    assert_eq!(
        colors[0].1,
        Value::Tuple(vec![Value::Float(fl(0.75)), Value::Float(fl(0.0)), Value::Float(fl(0.0)), Value::Float(fl(1.0))])
    );

    let blinks = dict_or_wrapped(raw_overview_entry(&doc, "stateBlinks"));
    assert_eq!(blinks.len(), 1);
    assert_eq!(blinks[0], (Value::Tuple(vec![b("flag"), Value::Int(13)]), Value::Bool(true)));

    assert_eq!(payload(raw_overview_entry(&doc, "useSmallText")), &Value::Bool(true));
    assert!(report.applied.iter().any(|s| s == "backgroundStates"));
}

#[test]
fn leaves_sections_the_pack_omits_untouched() {
    let mut doc = user_doc();
    let before = user_doc();
    let pack = parse_pack("backgroundStates:\n- 44\n").unwrap();
    apply_pack(&mut doc, &pack).unwrap();

    for key in ["overviewColumns", "overviewProfilePresets", "stateColors", "tabsettings_new", "flagStates2"] {
        assert_eq!(raw_overview_entry(&doc, key), raw_overview_entry(&before, key), "{key} must be left alone");
    }
    assert_ne!(raw_overview_entry(&doc, "backgroundStates2"), raw_overview_entry(&before, "backgroundStates2"));
}

#[test]
fn skips_an_unknown_colour_name_and_an_unknown_setting() {
    let mut doc = user_doc();
    let pack = parse_pack(
        "stateColorsNameList:\n- - background_44\n  - chartreuse\n\
         userSettings:\n- - applyOnlyToShips\n  - true\n",
    )
    .unwrap();
    let report = apply_pack(&mut doc, &pack).unwrap();

    assert_eq!(dict_or_wrapped(raw_overview_entry(&doc, "stateColors")).len(), 0, "unknown name writes nothing");
    assert!(report.warnings.iter().any(|w| w.contains("chartreuse")));
    assert!(report.warnings.iter().any(|w| w.contains("applyOnlyToShips")));
    assert!(!overview_entries(&doc).iter().any(|(k, _)| is_b(k, b"applyOnlyToShips")), "an unknown setting is never minted");
}

#[test]
fn applying_a_pack_to_a_file_with_no_overview_container_errors() {
    let mut doc = Value::Dict(vec![(b("windows"), Value::Dict(vec![]))]);
    let pack = parse_pack("backgroundStates:\n- 44\n").unwrap();
    assert!(matches!(apply_pack(&mut doc, &pack), Err(PackError::NoOverview)));
}

#[test]
fn apply_pack_preserves_an_existing_wrappers_timestamp() {
    let mut doc = user_doc();
    let pack = parse_pack("backgroundStates:\n- 44\n").unwrap();
    apply_pack(&mut doc, &pack).unwrap();

    let Value::Tuple(items) = raw_overview_entry(&doc, "backgroundStates2") else {
        panic!("backgroundStates2 must stay a (timestamp, list) tuple");
    };
    assert_eq!(items[0], ts(), "an existing wrapper's own timestamp must survive, not be reset to zero");
}

#[test]
fn apply_pack_wraps_every_list_section() {
    let mut doc = user_doc();
    let pack = parse_pack("columnOrder:\n- TYPE\noverviewColumns:\n- TYPE\nbackgroundStates:\n- 44\n").unwrap();
    apply_pack(&mut doc, &pack).unwrap();

    for key in ["overviewColumnOrder", "overviewColumns", "backgroundStates2"] {
        let Value::Tuple(items) = raw_overview_entry(&doc, key) else {
            panic!("{key} must be a (timestamp, list) tuple, not a bare payload");
        };
        assert!(matches!(items[0], Value::Long(_)), "{key} keeps a timestamp first");
    }
}

#[test]
fn apply_pack_rewraps_a_bare_payload() {
    let mut doc = user_doc();
    let pack = parse_pack("columnOrder:\n- TYPE\n").unwrap();
    apply_pack(&mut doc, &pack).unwrap();
    let Value::Tuple(items) = raw_overview_entry(&doc, "overviewColumnOrder") else {
        panic!("the fixture's bare overviewColumnOrder must come back wrapped");
    };
    assert_eq!(items, &vec![Value::Long(vec![0u8; 8]), Value::List(vec![b("TYPE")])], "a zero timestamp, then the list");
}

fn fields(kvs: &[(&str, Node)]) -> Node {
    Node::List(kvs.iter().map(|(k, v)| Node::List(vec![Node::Str(k.to_string()), clone_node(v)])).collect())
}

fn clone_node(n: &Node) -> Node {
    match n {
        Node::Null => Node::Null,
        Node::Bool(x) => Node::Bool(*x),
        Node::Int(i) => Node::Int(*i),
        Node::Float(f) => Node::Float(*f),
        Node::Str(s) => Node::Str(s.clone()),
        Node::List(items) => Node::List(items.iter().map(clone_node).collect()),
    }
}

fn keyed(entries: Vec<(Node, Node)>) -> Node {
    Node::List(entries.into_iter().map(|(k, v)| Node::List(vec![k, v])).collect())
}

fn field(entries: &[(Value, Value)], name: &str) -> Value {
    entries
        .iter()
        .find(|(k, _)| is_b(k, name.as_bytes()))
        .map(|(_, v)| clone_value(v))
        .unwrap_or_else(|| panic!("missing field '{name}'"))
}

#[test]
fn apply_pack_reconstructs_ship_labels_from_order_and_bodies() {
    let mut pack = new_pack();
    pack.set("shipLabelOrder", Node::List(vec![Node::Null, Node::Str("hull".into()), Node::Str("ghost".into())]));
    pack.set(
        "shipLabels",
        keyed(vec![
            (
                Node::Str("orphan".into()),
                fields(&[("type", Node::Str("orphan".into())), ("pre", Node::Str("orphan-pre".into()))]),
            ),
            (
                Node::Str("hull".into()),
                fields(&[
                    ("type", Node::Str("hull".into())),
                    ("pre", Node::Str("hull-pre".into())),
                    ("post", Node::Str("hull-post".into())),
                    ("state", Node::Int(5)),
                ]),
            ),
            (
                Node::Null,
                fields(&[
                    ("type", Node::Null),
                    ("pre", Node::Str("null-pre".into())),
                    ("post", Node::Str("null-post".into())),
                    ("state", Node::Int(2)),
                ]),
            ),
        ]),
    );

    let mut doc = user_doc();
    apply_pack(&mut doc, &pack).unwrap();

    let Value::Tuple(wrapper) = raw_overview_entry(&doc, "shipLabels") else {
        panic!("shipLabels must be minted as a (timestamp, list) wrapper");
    };
    assert_eq!(wrapper.len(), 2, "a minted wrapper is exactly (timestamp, list): {wrapper:?}");
    assert_eq!(wrapper[0], Value::Long(vec![0u8; 8]), "an absent key mints a fresh ZERO timestamp");
    let Value::List(list) = &wrapper[1] else { panic!("wrapper's second element must be the label list") };
    assert_eq!(list.len(), 2, "ghost (no body) and orphan (no order entry) must both be skipped: {list:?}");

    let Value::Dict(first) = &list[0] else { panic!("label entry is a dict") };
    assert_eq!(field(first, "type"), Value::Nil, "the null label survives and decodes to nil");
    assert_eq!(field(first, "pre"), b("null-pre"));
    assert_eq!(field(first, "post"), b("null-post"));
    assert_eq!(field(first, "state"), Value::Int(2));

    let Value::Dict(second) = &list[1] else { panic!("label entry is a dict") };
    assert_eq!(field(second, "type"), b("hull"), "the file list follows the pack's ORDER, not the bodies' own sequence");
    assert_eq!(field(second, "pre"), b("hull-pre"));
    assert_eq!(field(second, "post"), b("hull-post"));
    assert_eq!(field(second, "state"), Value::Int(5));
}

#[test]
fn apply_pack_keeps_a_ship_labels_nested_color_field() {
    let mut pack = new_pack();
    pack.set("shipLabelOrder", Node::List(vec![Node::Str("hull".into())]));
    pack.set(
        "shipLabels",
        Node::List(vec![Node::List(vec![
            Node::Str("hull".into()),
            Node::List(vec![
                Node::List(vec![Node::Str("type".into()), Node::Str("hull".into())]),
                Node::List(vec![
                    Node::Str("color".into()),
                    Node::List(vec![Node::Float(fl(1.0)), Node::Float(fl(1.0)), Node::Float(fl(1.0))]),
                ]),
            ]),
        ])]),
    );

    let mut doc = user_doc();
    apply_pack(&mut doc, &pack).unwrap();

    let Value::Tuple(items) = raw_overview_entry(&doc, "shipLabels") else { panic!("shipLabels must be a (timestamp, list) wrapper") };
    let Value::List(list) = &items[1] else { panic!("wrapper's second element must be the label list") };
    let Value::Dict(fs) = &list[0] else { panic!("label entry is a dict") };
    let (_, color) = fs.iter().find(|(k, _)| is_b(k, b"color")).expect("color field must survive, not be dropped");
    assert_eq!(color, &Value::List(vec![Value::Float(fl(1.0)), Value::Float(fl(1.0)), Value::Float(fl(1.0))]));
}

#[test]
fn apply_pack_leaves_the_document_unchanged_on_a_build_phase_failure() {
    let mut doc = user_doc();
    let before = user_doc();
    let pack = parse_pack("shipLabelOrder: true\nshipLabels: []\n").unwrap();

    let err = apply_pack(&mut doc, &pack).unwrap_err();
    assert!(matches!(&err, PackError::BadSection { name } if name == "shipLabelOrder"), "got {err:?}");
    assert!(err.message().contains("shipLabelOrder"), "the message names it too: {}", err.message());
    assert_eq!(doc, before, "a build-phase failure must leave the document untouched");
}

fn with_mapping(windows: Vec<Value>) -> Value {
    let mut doc = user_doc();
    overview_entries_mut(&mut doc).push((b("tabsByWindowInstanceID"), Value::Tuple(vec![ts(), Value::List(windows)])));
    doc
}

/// Two windows: window 0 holds tab 0, window 1 holds tab 7 (not in the pack).
fn user_doc_with_windows() -> Value {
    with_mapping(vec![Value::List(vec![Value::Int(0)]), Value::List(vec![Value::Int(7)])])
}

/// The same two windows, each per-window entry itself a `(ts, list)` tuple.
fn user_doc_with_wrapped_windows() -> Value {
    with_mapping(vec![
        Value::Tuple(vec![ts(), Value::List(vec![Value::Int(0)])]),
        Value::Tuple(vec![ts(), Value::List(vec![Value::Int(7)])]),
    ])
}

/// Three windows with tabs split 6+1+1, as real multi-window accounts have.
fn user_doc_with_three_windows() -> Value {
    with_mapping(vec![
        Value::List([0, 1, 2, 3, 4, 7].into_iter().map(Value::Int).collect()),
        Value::List(vec![Value::Int(5)]),
        Value::List(vec![Value::Int(6)]),
    ])
}

const TWO_TAB_PACK: &str = r#"presets:
- - Enemies
  - - - alwaysShownStates
      - []
    - - filteredStates
      - []
    - - groups
      - - 27
tabSetup:
- - 0
  - - - bracket
      - Enemies
    - - name
      - Tab A
    - - overview
      - Enemies
- - 1
  - - - bracket
      - Enemies
    - - name
      - Tab B
    - - overview
      - Enemies
"#;

#[test]
fn replaces_presets_and_tabs() {
    let mut doc = user_doc();
    apply_pack(&mut doc, &parse_pack(TWO_TAB_PACK).unwrap()).unwrap();

    let presets = dict_or_wrapped(raw_overview_entry(&doc, "overviewProfilePresets"));
    assert_eq!(presets.len(), 1, "the file's own preset is gone");
    assert_eq!(presets[0].0, b("Enemies"));
    assert_eq!(
        presets[0].1,
        Value::Dict(vec![
            (b("alwaysShownStates"), Value::List(vec![])),
            (b("filteredStates"), Value::List(vec![])),
            (b("groups"), ints_v(&[27])),
        ])
    );

    let tabs = dict_or_wrapped(raw_overview_entry(&doc, "tabsettings_new"));
    assert_eq!(tabs.len(), 2);
    let names: Vec<Value> = [0i64, 1].iter().map(|i| field_any_name(tab_fields(&doc, *i))).collect();
    assert_eq!(names, vec![Value::StrUcs2("Tab A".into()), Value::StrUcs2("Tab B".into())]);
}

fn field_any_name(fields: &[(Value, Value)]) -> Value {
    let named: Vec<&(Value, Value)> = fields
        .iter()
        .filter(|(k, _)| is_b(k, b"name") || matches!(k, Value::Str(s) if s == "name") || matches!(k, Value::StrTable(52)))
        .collect();
    assert_eq!(named.len(), 1, "exactly one name entry: {fields:?}");
    clone_value(&named[0].1)
}

#[test]
fn a_new_tab_keeps_the_color_key_reset_needs() {
    let mut doc = user_doc();
    apply_pack(&mut doc, &parse_pack(TWO_TAB_PACK).unwrap()).unwrap();
    for idx in [0i64, 1] {
        assert!(tab_fields(&doc, idx).iter().any(|(k, _)| is_b(k, b"color")), "tab {idx} lost its color key");
    }
}

#[test]
fn a_new_tab_drops_per_tab_column_overrides() {
    let mut doc = user_doc();
    {
        let ov = overview_entries_mut(&mut doc);
        let (_, tabs) = ov.iter_mut().find(|(k, _)| is_b(k, b"tabsettings_new")).unwrap();
        let Value::Tuple(items) = tabs else { panic!() };
        let Value::Dict(tabs) = &mut items[1] else { panic!() };
        let (_, tab0) = tabs.iter_mut().find(|(k, _)| as_int(k) == Some(0)).unwrap();
        let Value::Dict(fs) = tab0 else { panic!() };
        fs.push((b("tabColumns"), Value::List(vec![b("NAME")])));
        fs.push((b("tabColumnOrder"), Value::List(vec![b("NAME")])));
    }
    apply_pack(&mut doc, &parse_pack(TWO_TAB_PACK).unwrap()).unwrap();

    for idx in [0i64, 1] {
        let fs = tab_fields(&doc, idx);
        assert!(!fs.iter().any(|(k, _)| is_b(k, b"tabColumns")), "tab {idx} kept a per-tab tabColumns override");
        assert!(!fs.iter().any(|(k, _)| is_b(k, b"tabColumnOrder")), "tab {idx} kept a per-tab tabColumnOrder override");
    }
}

#[test]
fn rebuilds_the_window_mapping_without_dangling_indices() {
    let mut doc = user_doc_with_windows();
    apply_pack(&mut doc, &parse_pack(TWO_TAB_PACK).unwrap()).unwrap();

    let groups_val = raw_overview_entry(&doc, "tabsByWindowInstanceID");
    let text = format!("{groups_val:?}");
    assert!(text.contains("Int(0)") && text.contains("Int(1)"), "both pack tabs are mapped: {text}");
    assert!(!text.contains("Int(7)"), "the dangling index is gone: {text}");

    let groups = list_or_wrapped(groups_val);
    assert_eq!(groups.len(), 2, "window 1 must stay present, not be removed");
    assert_eq!(as_ints(list_or_wrapped(&groups[0])), vec![0, 1], "window 0 gets both pack tabs");
    assert!(list_or_wrapped(&groups[1]).is_empty(), "window 1's only index (7) was dangling: must leave an EMPTY list");
}

#[test]
fn rebuilds_wrapped_per_window_entries_without_dangling_indices() {
    let mut doc = user_doc_with_wrapped_windows();
    apply_pack(&mut doc, &parse_pack(TWO_TAB_PACK).unwrap()).unwrap();

    let groups = list_or_wrapped(raw_overview_entry(&doc, "tabsByWindowInstanceID"));
    assert_eq!(groups.len(), 2, "window 1 must stay present, not be removed");

    assert!(matches!(&groups[0], Value::Tuple(_)), "window 0's own (ts, list) wrapper must survive");
    assert_eq!(as_ints(list_or_wrapped(&groups[0])), vec![0, 1], "window 0 gets both pack tabs");

    let Value::Tuple(w1_items) = &groups[1] else { panic!("window 1's own (ts, list) wrapper must survive") };
    assert_eq!(w1_items[0], ts(), "the per-window tuple's own timestamp must survive untouched");
    assert!(list_or_wrapped(&groups[1]).is_empty(), "window 1's only index (7) was dangling: must leave an EMPTY list");
}

fn named_tabs(indices: &[i64]) -> Node {
    Node::List(
        indices
            .iter()
            .map(|&i| {
                Node::List(vec![
                    Node::Int(i),
                    Node::List(vec![Node::List(vec![Node::Str("name".into()), Node::Str(format!("Tab {i}"))])]),
                ])
            })
            .collect(),
    )
}

#[test]
fn reapplying_the_full_tab_set_does_not_duplicate_an_index_across_windows() {
    let mut doc = user_doc_with_three_windows();
    let mut pack = new_pack();
    pack.set("tabSetup", named_tabs(&[0, 1, 2, 3, 4, 5, 6, 7]));

    apply_pack(&mut doc, &pack).unwrap();

    let groups = list_or_wrapped(raw_overview_entry(&doc, "tabsByWindowInstanceID"));
    assert_eq!(groups.len(), 3, "all three windows stay present");

    let per_window: Vec<Vec<i64>> = groups.iter().map(|g| as_ints(list_or_wrapped(g))).collect();
    assert_eq!(
        per_window,
        vec![vec![0, 1, 2, 3, 4, 7], vec![5], vec![6]],
        "re-importing the account's own full tab set must leave the mapping unchanged: {per_window:?}",
    );

    let mut seen: Vec<i64> = Vec::new();
    for idx in per_window.into_iter().flatten() {
        assert!(!seen.contains(&idx), "index {idx} appears in more than one window");
        seen.push(idx);
    }
}

#[test]
fn warns_when_a_pack_leaves_overview_windows_with_no_tabs() {
    let mut doc = user_doc_with_three_windows();
    let mut pack = new_pack();
    pack.set("tabSetup", named_tabs(&[0, 1, 2, 3, 4, 7]));

    let report = apply_pack(&mut doc, &pack).unwrap();
    assert!(
        report.warnings.iter().any(|w| w.contains('2') && w.contains("no tabs")),
        "warns how many windows ended up empty: {:?}",
        report.warnings,
    );
    assert_eq!(
        report.warnings,
        vec!["2 overview window(s) ended up with no tabs (the pack has fewer tabs than the account's window layout expects)".to_string()]
    );
}

#[test]
fn never_fabricates_a_window_mapping() {
    let mut doc = user_doc();
    apply_pack(&mut doc, &parse_pack(TWO_TAB_PACK).unwrap()).unwrap();
    assert!(
        !overview_entries(&doc).iter().any(|(k, _)| is_b(k, b"tabsByWindowInstanceID")),
        "a windowless account must stay windowless"
    );
}

#[test]
fn replacing_presets_drops_the_stale_not_saved_working_copy() {
    let mut doc = user_doc();
    overview_entries_mut(&mut doc).push((
        b("overviewProfilePresets_notSaved"),
        Value::Tuple(vec![ts(), Value::Dict(vec![(b("Friendly"), Value::Dict(vec![]))])]),
    ));
    apply_pack(&mut doc, &parse_pack(TWO_TAB_PACK).unwrap()).unwrap();

    assert!(
        !overview_entries(&doc).iter().any(|(k, _)| is_b(k, b"overviewProfilePresets_notSaved")),
        "a stale notSaved working copy must not survive a preset replacement"
    );
}

#[test]
fn zero_tab_account_fallback_carries_bracket_and_color() {
    let mut doc = Value::Dict(vec![(b("overview"), Value::Dict(vec![]))]);
    let mut pack = new_pack();
    pack.set(
        "tabSetup",
        Node::List(vec![Node::List(vec![
            Node::Int(0),
            Node::List(vec![Node::List(vec![Node::Str("name".into()), Node::Str("Solo".into())])]),
        ])]),
    );
    apply_pack(&mut doc, &pack).unwrap();

    let fs = tab_fields(&doc, 0);
    assert!(fs.iter().any(|(k, _)| is_b(k, b"bracket")), "fallback tab must carry bracket: {fs:?}");
    assert!(fs.iter().any(|(k, _)| is_b(k, b"color")), "fallback tab must carry color: {fs:?}");
}

#[test]
fn skips_an_empty_presets_section_and_warns() {
    let mut doc = user_doc();
    let before = user_doc();
    let pack = parse_pack("presets: []\nbackgroundStates:\n- 44\n").unwrap();
    let report = apply_pack(&mut doc, &pack).unwrap();

    assert_eq!(
        raw_overview_entry(&doc, "overviewProfilePresets"),
        raw_overview_entry(&before, "overviewProfilePresets"),
        "the account's own preset(s) survive untouched"
    );
    assert!(report.warnings.iter().any(|w| w.contains("presets")), "warns about the skipped section: {:?}", report.warnings);
    assert!(!report.applied.iter().any(|s| s == "presets"), "presets must not be reported as applied");
    assert!(report.applied.iter().any(|s| s == "backgroundStates"), "a good section in the same pack still applies");
}

#[test]
fn skips_an_empty_tab_setup_section_and_warns() {
    let mut doc = user_doc();
    let before = user_doc();
    let pack = parse_pack("tabSetup: []\nbackgroundStates:\n- 44\n").unwrap();
    let report = apply_pack(&mut doc, &pack).unwrap();

    assert_eq!(
        raw_overview_entry(&doc, "tabsettings_new"),
        raw_overview_entry(&before, "tabsettings_new"),
        "the account's own tab(s) survive untouched"
    );
    assert!(report.warnings.iter().any(|w| w.contains("tabSetup")), "warns about the skipped section: {:?}", report.warnings);
    assert!(!report.applied.iter().any(|s| s == "tabSetup"), "tabSetup must not be reported as applied");
    assert!(report.applied.iter().any(|s| s == "backgroundStates"), "a good section in the same pack still applies");
}

#[test]
fn the_report_lists_sections_and_warnings_in_order() {
    let mut doc = user_doc();
    let pack = parse_pack(
        "zzz: 1\npresets: []\nuserSettings:\n- - nope\n  - true\nstateBlinks: []\nflagOrder: [1]\n",
    )
    .unwrap();
    let report = apply_pack(&mut doc, &pack).unwrap();
    assert_eq!(report.applied, vec!["flagOrder".to_string(), "stateBlinks".to_string(), "userSettings".to_string()]);
    assert_eq!(
        report.warnings,
        vec![
            "ignored unknown section 'zzz'".to_string(),
            "ignored unknown setting 'nope'".to_string(),
            "ignored empty 'presets' section (would have left the account with no presets)".to_string(),
        ]
    );
}

#[test]
fn an_enabled_list_is_stored_without_duplicates_and_an_order_list_as_given() {
    let mut doc = user_doc();
    let pack = parse_pack("flagStates: [5, 3, 5, 1]\nflagOrder: [5, 3, 5]\n").unwrap();
    apply_pack(&mut doc, &pack).unwrap();
    assert_eq!(as_ints(list_or_wrapped(raw_overview_entry(&doc, "flagStates2"))), vec![1, 3, 5]);
    assert_eq!(as_ints(list_or_wrapped(raw_overview_entry(&doc, "flagOrder2"))), vec![5, 3, 5]);
}

#[test]
fn a_pack_is_applicable_exactly_when_the_tab_dict_can_be_reached() {
    let doc = user_doc_with_three_windows();
    let mut pack = new_pack();
    pack.set("tabSetup", named_tabs(&[0, 1]));
    assert!(pack_applicable(&doc, &pack));

    // The tab settings hold a list, not a dict: re-pointing tabs would fail.
    let mut bad = user_doc_with_three_windows();
    for (k, v) in overview_entries_mut(&mut bad).iter_mut() {
        if is_b(k, b"tabsettings_new") || is_b(k, b"tabsettings") {
            *v = Value::List(vec![]);
        }
    }
    assert!(!pack_applicable(&bad, &pack));

    // Without a tab section the same document takes the pack.
    let mut lists = new_pack();
    lists.set("backgroundStates", Node::List(vec![Node::Int(7)]));
    assert!(pack_applicable(&bad, &lists));

    // A store that refers to itself never resolves.
    let cyclic = Value::Dict(vec![(
        b("overview"),
        Value::Shared { slot: 1, value: Box::new(Value::List(vec![Value::Ref(1)])) },
    )]);
    assert!(!pack_applicable(&cyclic, &lists));
}

// ---------------------------------------------------------------------------
// Reading a pack back out of an account.
// ---------------------------------------------------------------------------

#[test]
fn reads_every_section_from_a_file() {
    let (pack, warnings) = read_pack(&user_doc());

    assert_eq!(ints(pack.get("backgroundStates").unwrap()), vec![9, 13]);
    assert_eq!(ints(pack.get("backgroundOrder").unwrap()), vec![13, 9]);
    assert_eq!(ints(pack.get("flagStates").unwrap()), vec![9]);
    assert_eq!(strs(pack.get("columnOrder").unwrap()), vec!["ICON".to_string(), "NAME".to_string()]);
    assert_eq!(strs(pack.get("overviewColumns").unwrap()), vec!["NAME".to_string()]);

    let presets = pairs(pack.get("presets").unwrap());
    assert_eq!(as_str(presets[0].0), Some("Friendly"));
    let fields = pairs(presets[0].1);
    assert_eq!(as_str(fields[0].0), Some("alwaysShownStates"), "preset fields are sorted");
    let groups = fields.iter().find(|(k, _)| as_str(k) == Some("groups")).unwrap().1;
    assert_eq!(ints(groups), vec![25, 26]);

    let tabs = pairs(pack.get("tabSetup").unwrap());
    assert_eq!(tabs[0].0, &Node::Int(0));
    let tab = pairs(tabs[0].1);
    assert_eq!(as_str(tab.iter().find(|(k, _)| as_str(k) == Some("name")).unwrap().1), Some("Fleet"));
    assert_eq!(as_str(tab.iter().find(|(k, _)| as_str(k) == Some("overview")).unwrap().1), Some("Friendly"));
    assert_eq!(as_str(tab.iter().find(|(k, _)| as_str(k) == Some("bracket")).unwrap().1), Some("Brackets"));

    // Only the palette-matching colour survives; the custom one is reported.
    let colors = pairs(pack.get("stateColorsNameList").unwrap());
    assert_eq!(colors.len(), 1);
    assert_eq!((as_str(colors[0].0), as_str(colors[0].1)), (Some("background_16"), Some("darkBlue")));
    assert_eq!(warnings.len(), 1);
    assert!(warnings[0].contains("1"), "warning counts the omitted colour: {warnings:?}");

    let blinks = pairs(pack.get("stateBlinks").unwrap());
    assert_eq!((as_str(blinks[0].0), blinks[0].1), (Some("flag_9"), &Node::Bool(true)));

    let settings = pairs(pack.get("userSettings").unwrap());
    assert_eq!((as_str(settings[0].0), settings[0].1), (Some("overviewBroadcastsToTop"), &Node::Bool(true)));
}

#[test]
fn omits_sections_the_file_does_not_have() {
    let doc = Value::Dict(vec![(b("overview"), Value::Dict(vec![(b("overviewColumns"), Value::List(vec![b("NAME")]))]))]);
    let (pack, _) = read_pack(&doc);
    assert!(pack.get("presets").is_none());
    assert!(pack.get("shipLabels").is_none());
    assert_eq!(pack.sections.len(), 1);
}

#[test]
fn reads_tabs_from_a_legacy_tabsettings_key() {
    let tab = Value::Dict(vec![
        (b("bracket"), b("Brackets")),
        (b("name"), Value::StrUcs2("Fleet".into())),
        (b("overview"), b("Friendly")),
    ]);
    let doc = Value::Dict(vec![(
        b("overview"),
        Value::Dict(vec![(b("tabsettings"), Value::Tuple(vec![ts(), Value::Dict(vec![(Value::Int(0), tab)])]))]),
    )]);
    let (pack, _) = read_pack(&doc);
    let tabs = pairs(pack.get("tabSetup").expect("legacy tabs are read"));
    assert_eq!(tabs.len(), 1);
    let fields = pairs(tabs[0].1);
    assert_eq!(as_str(fields.iter().find(|(k, _)| as_str(k) == Some("name")).unwrap().1), Some("Fleet"));
}

#[test]
fn a_read_pack_lists_sections_in_file_order_and_reapplies_to_the_same_values() {
    let (pack, _) = read_pack(&user_doc());
    let names: Vec<&str> = pack.sections.iter().map(|(n, _)| n.as_str()).collect();
    assert_eq!(
        names,
        vec![
            "backgroundOrder",
            "backgroundStates",
            "columnOrder",
            "flagOrder",
            "flagStates",
            "overviewColumns",
            "presets",
            "stateBlinks",
            "stateColorsNameList",
            "tabSetup",
            "userSettings"
        ]
    );
    let mut doc = user_doc();
    apply_pack(&mut doc, &pack).unwrap();
    let (again, _) = read_pack(&doc);
    assert_eq!(again.sections, pack.sections);
}

#[test]
fn presets_come_out_ordered_by_name_and_tabs_by_index() {
    let preset = |g: i64| Value::Dict(vec![(b("groups"), ints_v(&[g]))]);
    let tab = |n: &str| Value::Dict(vec![(b("name"), b(n))]);
    let doc = Value::Dict(vec![(
        b("overview"),
        Value::Dict(vec![
            (
                b("overviewProfilePresets"),
                Value::Dict(vec![(b("zeta"), preset(1)), (b("Alpha"), preset(2)), (b("mid"), preset(3))]),
            ),
            (b("tabsettings_new"), Value::Dict(vec![(Value::Int(3), tab("c")), (Value::Int(1), tab("a"))])),
        ]),
    )]);
    let (pack, _) = read_pack(&doc);
    let names: Vec<Option<&str>> = pairs(pack.get("presets").unwrap()).iter().map(|(k, _)| as_str(k)).collect();
    assert_eq!(names, vec![Some("Alpha"), Some("mid"), Some("zeta")]);
    let idx: Vec<&Node> = pairs(pack.get("tabSetup").unwrap()).iter().map(|(k, _)| *k).collect();
    assert_eq!(idx, vec![&Node::Int(1), &Node::Int(3)]);
}

#[test]
fn integer_colour_parts_match_the_palette_as_zero_and_one() {
    let doc = Value::Dict(vec![(
        b("overview"),
        Value::Dict(vec![(
            b("stateColors"),
            Value::Dict(vec![
                (
                    Value::Tuple(vec![b("flag"), Value::Int(2)]),
                    Value::Tuple(vec![Value::Int(0), Value::Int(0), Value::Int(0), Value::Int(1)]),
                ),
                (
                    Value::Tuple(vec![b("flag"), Value::Int(1)]),
                    Value::Tuple(vec![Value::Int(2), Value::Int(0), Value::Int(0), Value::Int(1)]),
                ),
            ]),
        )]),
    )]);
    let (pack, warnings) = read_pack(&doc);
    let colors = pairs(pack.get("stateColorsNameList").unwrap());
    assert_eq!(colors.len(), 1);
    assert_eq!((as_str(colors[0].0), as_str(colors[0].1)), (Some("flag_2"), Some("black")));
    assert_eq!(warnings, vec!["1 custom colour(s) had no pack name and were omitted".to_string()]);
}

#[test]
fn ship_labels_split_into_an_order_and_named_bodies() {
    let label = |t: &str| Value::Dict(vec![(b("type"), b(t)), (b("enabled"), Value::Bool(true))]);
    let doc = Value::Dict(vec![(
        b("overview"),
        Value::Dict(vec![(b("shipLabels"), Value::Tuple(vec![ts(), Value::List(vec![label("pilot"), label("corporation")])]))]),
    )]);
    let (pack, _) = read_pack(&doc);
    assert_eq!(strs(pack.get("shipLabelOrder").unwrap()), vec!["pilot".to_string(), "corporation".to_string()]);
    let labels = pairs(pack.get("shipLabels").unwrap());
    assert_eq!(as_str(labels[1].0), Some("corporation"));
    let fields = pairs(labels[1].1);
    assert_eq!(as_str(fields[0].0), Some("enabled"));
    assert_eq!(as_str(fields[1].0), Some("type"));
}

#[test]
fn a_real_is_read_through_the_table_the_caller_gives() {
    let docs = load_yaml("backgroundOrder:\n- 1.5\n- 2\n");
    let reals = real_texts(docs.as_ref().unwrap());
    assert_eq!(reals, vec!["1.5".to_string()]);
    let pack = pack_from_yaml(&docs, &vec![("1.5".to_string(), 1.5f64.to_bits())]).unwrap();
    assert_eq!(pack.get("backgroundOrder"), Some(&Node::List(vec![Node::Float(1.5f64.to_bits()), Node::Int(2)])));
    let bare = pack_from_yaml(&docs, &Vec::new()).unwrap();
    assert_eq!(bare.get("backgroundOrder"), Some(&Node::List(vec![Node::Str("1.5".to_string()), Node::Int(2)])));
}
