use eve_settings::batch::{apply_to_tree, extract_categories, is_bytes, Category};
use eve_settings::discover::{classify_file, profile_name, split_install, text_precedes, FileKind};
use eve_settings::document::{load_bytes, Fidelity, LoadError};
use eve_settings::encode::encode;
use eve_settings::decode::decode;
use eve_settings::mutate::{apply, MutateError, Mutation, NewValue};
use eve_settings::overview_pack::{
    color_name, color_rgba, join_surface_key, palette, split_surface_key, PackError,
};
use eve_settings::overview_tabs::OverviewTabError;
use eve_settings::path::{resolve, resolve_mut, Step};
use eve_settings::reshare::clone_value;
use eve_settings::value::Value;

fn b(s: &str) -> Value {
    Value::Bytes(s.as_bytes().to_vec())
}

fn f(x: f64) -> Value {
    Value::Float(x.to_bits())
}

fn inline(v: &Value) -> Value {
    eve_settings::reshare::inline(v)
}

// ----- path -----

fn sample() -> Value {
    Value::Dict(vec![(
        b("windows"),
        Value::Shared {
            slot: 1,
            value: Box::new(Value::Tuple(vec![Value::Int(1), Value::List(vec![f(2.5)])])),
        },
    )])
}

#[test]
fn resolve_walks_every_step_kind_used_in_real_files() {
    let v = sample();
    assert_eq!(resolve(&v, &[Step::DictKey(0)]), Some(&b("windows")));
    let deep = [Step::DictValue(0), Step::SharedInner, Step::Tuple(1), Step::List(0)];
    assert_eq!(resolve(&v, &deep), Some(&f(2.5)));
    assert_eq!(resolve(&v, &[Step::DictValue(1)]), None);
    assert_eq!(resolve(&v, &[Step::List(0)]), None);
}

#[test]
fn resolve_reaches_instance_reduce_and_stream_children() {
    let v = Value::Instance {
        class: Box::new(b("C")),
        state: Box::new(Value::Reduce {
            ctor: Box::new(Value::Stream(Box::new(Value::Int(3)))),
            items: vec![Value::Int(4)],
            pairs: vec![(Value::Int(5), Value::Int(6))],
        }),
    };
    assert_eq!(resolve(&v, &[Step::InstanceClass]), Some(&b("C")));
    assert_eq!(
        resolve(&v, &[Step::InstanceState, Step::ReduceCtor, Step::StreamInner]),
        Some(&Value::Int(3))
    );
    assert_eq!(resolve(&v, &[Step::InstanceState, Step::ReduceItem(0)]), Some(&Value::Int(4)));
    assert_eq!(resolve(&v, &[Step::InstanceState, Step::ReducePairKey(0)]), Some(&Value::Int(5)));
    assert_eq!(resolve(&v, &[Step::InstanceState, Step::ReducePairValue(0)]), Some(&Value::Int(6)));
    assert_eq!(resolve(&v, &[Step::InstanceState, Step::ReduceItem(1)]), None);
}

// ----- mutate -----

/// A scalar edit as the editor sends it: the text, and the same text read as
/// a finite double.
fn set(path: Vec<Step>, text: &str) -> Mutation {
    let as_float = match text.trim().parse::<f64>() {
        Ok(v) if v.is_finite() => Ok(v.to_bits()),
        Ok(_) => Err(format!("must be finite: {text:?}")),
        Err(e) => Err(format!("{e}: {text:?}")),
    };
    Mutation::SetScalar { path, text: text.to_string(), as_float }
}

fn doc() -> Value {
    Value::Dict(vec![
        (b("lists"), Value::List(vec![Value::Str("a".into()), Value::Str("b".into())])),
        (b("geom"), Value::Tuple(vec![Value::Int(1), Value::Int(2)])),
        (b("shared"), Value::Shared { slot: 1, value: Box::new(Value::List(vec![Value::Int(9)])) }),
    ])
}

#[test]
fn set_scalar_per_kind() {
    let mut v = doc();
    apply(&mut v, &set(vec![Step::DictValue(1), Step::Tuple(0)], "424")).unwrap();
    apply(&mut v, &set(vec![Step::DictValue(0), Step::List(1)], "edited")).unwrap();
    apply(&mut v, &set(vec![Step::DictValue(2), Step::SharedInner, Step::List(0)], "7")).unwrap();
    let Value::Dict(entries) = &v else { unreachable!() };
    assert_eq!(entries[1].1, Value::Tuple(vec![Value::Int(424), Value::Int(2)]));
    assert_eq!(entries[0].1, Value::List(vec![Value::Str("a".into()), Value::Str("edited".into())]));
}

#[test]
fn set_scalar_rejects_bad_input_without_mutating() {
    let mut v = doc();
    let before = clone_value(&v);
    let err = apply(&mut v, &set(vec![Step::DictValue(1), Step::Tuple(0)], "not-a-number")).unwrap_err();
    assert!(matches!(err, MutateError::Parse(_)));
    assert_eq!(v, before);
    let err = apply(&mut v, &set(vec![], "5")).unwrap_err();
    assert_eq!(err, MutateError::NotScalar("dict"));
}

#[test]
fn remove_list_item_and_dict_entry() {
    let mut v = doc();
    apply(&mut v, &Mutation::RemoveEntry { path: vec![Step::DictValue(0), Step::List(0)] }).unwrap();
    apply(&mut v, &Mutation::RemoveEntry { path: vec![Step::DictValue(1)] }).unwrap();
    let Value::Dict(entries) = &v else { unreachable!() };
    assert_eq!(entries.len(), 2);
    assert_eq!(entries[0].1, Value::List(vec![Value::Str("b".into())]));
    assert_eq!(entries[1].0, b("shared"));
}

#[test]
fn remove_refuses_shared_subtrees() {
    let mut v = doc();
    assert_eq!(
        apply(&mut v, &Mutation::RemoveEntry { path: vec![Step::DictValue(2)] }),
        Err(MutateError::SharedSubtree)
    );
    assert_eq!(apply(&mut v, &Mutation::RemoveEntry { path: vec![] }), Err(MutateError::NotRemovable));
}

#[test]
fn tuples_are_editable_sequences() {
    let mut v = doc();
    let list = vec![Step::DictValue(0)];
    apply(&mut v, &Mutation::InsertListItem { parent: list.clone(), index: 2, value: NewValue::EmptyTuple })
        .unwrap();
    let tup = vec![Step::DictValue(0), Step::List(2)];
    for (i, text) in ["chan", "oops"].iter().enumerate() {
        apply(
            &mut v,
            &Mutation::InsertListItem { parent: tup.clone(), index: i, value: NewValue::Str((*text).into()) },
        )
        .unwrap();
    }
    apply(&mut v, &Mutation::RemoveEntry { path: vec![Step::DictValue(0), Step::List(2), Step::Tuple(1)] })
        .unwrap();
    let Value::Dict(entries) = &v else { unreachable!() };
    let Value::List(items) = &entries[0].1 else { unreachable!() };
    assert_eq!(items[2], Value::Tuple(vec![Value::Str("chan".into())]));
    assert_eq!(
        apply(&mut v, &Mutation::InsertListItem { parent: tup.clone(), index: 9, value: NewValue::Nil }),
        Err(MutateError::BadIndex(9))
    );
    let mut shared_tup = Value::Tuple(vec![Value::Shared { slot: 1, value: Box::new(Value::Int(9)) }]);
    assert_eq!(
        apply(&mut shared_tup, &Mutation::RemoveEntry { path: vec![Step::Tuple(0)] }),
        Err(MutateError::SharedSubtree)
    );
}

#[test]
fn inserts_into_dict_and_list() {
    let mut v = doc();
    apply(
        &mut v,
        &Mutation::InsertDictEntry {
            parent: vec![],
            key: NewValue::BytesHex("6b32".into()),
            value: NewValue::EmptyList,
        },
    )
    .unwrap();
    apply(
        &mut v,
        &Mutation::InsertListItem { parent: vec![Step::DictValue(0)], index: 1, value: NewValue::Str("mid".into()) },
    )
    .unwrap();
    let Value::Dict(entries) = &v else { unreachable!() };
    assert_eq!(entries[3].0, b("k2"));
    assert_eq!(entries[3].1, Value::List(vec![]));
    assert_eq!(
        entries[0].1,
        Value::List(vec![Value::Str("a".into()), Value::Str("mid".into()), Value::Str("b".into())])
    );
    assert_eq!(
        apply(&mut v, &Mutation::InsertListItem { parent: vec![Step::DictValue(0)], index: 99, value: NewValue::Nil }),
        Err(MutateError::BadIndex(99))
    );
}

#[test]
fn insert_parse_errors_name_the_field_that_failed() {
    let mut v = doc();
    let bad_key = apply(
        &mut v,
        &Mutation::InsertDictEntry { parent: vec![], key: NewValue::Int("df".into()), value: NewValue::Nil },
    )
    .unwrap_err();
    assert!(matches!(bad_key, MutateError::ParseKey(_)));
    assert!(bad_key.message().contains("df"), "{}", bad_key.message());
    assert!(!bad_key.message().contains("ParseKey"), "{}", bad_key.message());

    let bad_value = apply(
        &mut v,
        &Mutation::InsertDictEntry { parent: vec![], key: NewValue::Str("k".into()), value: NewValue::Int("df".into()) },
    )
    .unwrap_err();
    assert!(matches!(bad_value, MutateError::Parse(_)));
    assert_eq!(v, doc(), "a rejected insert changes nothing");
}

#[test]
fn parse_hex_rejects_non_ascii_without_panicking() {
    let mut v = Value::List(vec![Value::Long(vec![0x2A])]);
    let err = apply(&mut v, &set(vec![Step::List(0)], "hex:€€")).unwrap_err();
    assert!(matches!(err, MutateError::Parse(_)));
    assert_eq!(v, Value::List(vec![Value::Long(vec![0x2A])]));
}

#[test]
fn set_scalar_covers_every_editable_kind() {
    let mut v = Value::List(vec![
        Value::Bool(false),
        f(1.0),
        Value::Bytes(b"x".to_vec()),
        Value::Long(vec![]),
        Value::StrTable(1),
        Value::StrUcs2("u".into()),
    ]);
    apply(&mut v, &set(vec![Step::List(0)], "True")).unwrap();
    apply(&mut v, &set(vec![Step::List(1)], " 2.5 ")).unwrap();
    apply(&mut v, &set(vec![Step::List(2)], "hex:00 ff")).unwrap();
    apply(&mut v, &set(vec![Step::List(3)], "2a00")).unwrap();
    apply(&mut v, &set(vec![Step::List(4)], " 255 ")).unwrap();
    apply(&mut v, &set(vec![Step::List(5)], "w")).unwrap();
    assert_eq!(
        v,
        Value::List(vec![
            Value::Bool(true),
            f(2.5),
            Value::Bytes(vec![0x00, 0xFF]),
            Value::Long(vec![0x2A, 0x00]),
            Value::StrTable(255),
            Value::StrUcs2("w".into()),
        ])
    );
    assert!(matches!(apply(&mut v, &set(vec![Step::List(4)], "0")), Err(MutateError::Parse(_))));
    assert!(matches!(apply(&mut v, &set(vec![Step::List(4)], "256")), Err(MutateError::Parse(_))));
    assert!(matches!(apply(&mut v, &set(vec![Step::List(0)], "yes")), Err(MutateError::Parse(_))));
    let err = apply(&mut v, &set(vec![Step::List(9)], "1")).unwrap_err();
    assert_eq!(err, MutateError::BadPath);
    assert_eq!(err.message(), "no such node");
    assert_eq!(MutateError::BadIndex(4).message(), "index out of range: 4");
    let err = apply(&mut v, &set(vec![Step::List(2)], "hex:zz")).unwrap_err();
    assert_eq!(err, MutateError::Parse("bad hex: \"hex:zz\"".into()));
}

#[test]
fn integer_edits_follow_rust_integer_parsing() {
    let mut v = Value::List(vec![Value::Int(0)]);
    apply(&mut v, &set(vec![Step::List(0)], "-9223372036854775808")).unwrap();
    assert_eq!(v, Value::List(vec![Value::Int(i64::MIN)]));
    apply(&mut v, &set(vec![Step::List(0)], "+12")).unwrap();
    assert_eq!(v, Value::List(vec![Value::Int(12)]));
    let err = apply(&mut v, &set(vec![Step::List(0)], "9223372036854775808")).unwrap_err();
    assert_eq!(
        err,
        MutateError::Parse("number too large to fit in target type: \"9223372036854775808\"".into())
    );
    let err = apply(&mut v, &set(vec![Step::List(0)], "  ")).unwrap_err();
    assert_eq!(err, MutateError::Parse("cannot parse integer from empty string: \"  \"".into()));
    let err = apply(&mut v, &set(vec![Step::List(0)], "-")).unwrap_err();
    assert_eq!(err, MutateError::Parse("invalid digit found in string: \"-\"".into()));
}

// ----- batch -----

#[test]
fn the_probe_formation_category_is_a_two_level_ui_key() {
    assert_eq!(
        Category::ProbeFormations.key_path(),
        &[b"ui".as_slice(), b"probescanning.customFormations".as_slice()],
    );
}

fn ts() -> Value {
    Value::Long(vec![0u8; 8])
}

fn user_a() -> Value {
    let hist = Value::Dict(vec![(b("/a"), Value::List(vec![Value::Str("Jita".into())]))]);
    let ui = Value::Dict(vec![(b("editHistory"), Value::Tuple(vec![ts(), hist]))]);
    Value::Dict(vec![(b("ui"), ui)])
}

fn user_b() -> Value {
    let hist = Value::Dict(vec![(b("/b"), Value::List(vec![Value::Str("Amarr".into())]))]);
    let ui = Value::Dict(vec![(b("editHistory"), Value::Tuple(vec![ts(), hist]))]);
    Value::Dict(vec![(b("ui"), ui), (b("keep"), Value::Int(7))])
}

fn entries(v: &Value) -> &Vec<(Value, Value)> {
    match v {
        Value::Dict(d) => d,
        Value::Tuple(items) => items
            .iter()
            .find_map(|e| match e {
                Value::Dict(d) => Some(d),
                _ => None,
            })
            .expect("a dict"),
        _ => panic!("not a dict"),
    }
}

fn child<'a>(d: &'a [(Value, Value)], key: &str) -> Option<&'a Value> {
    d.iter().find(|(k, _)| is_bytes(k, key.as_bytes())).map(|(_, v)| v)
}

/// The remembered-text lists: (widget, entries) under `ui -> editHistory`.
fn edit_history(v: &Value) -> Vec<(String, Vec<String>)> {
    let v = inline(v);
    let Some(ui) = child(entries(&v), "ui") else { return vec![] };
    let Some(eh) = child(entries(ui), "editHistory") else { return vec![] };
    entries(eh)
        .iter()
        .map(|(k, val)| {
            let Value::Bytes(w) = k else { panic!("widget key") };
            let list = match val {
                Value::List(l) => l.clone_list(),
                _ => panic!("list"),
            };
            (String::from_utf8_lossy(w).into_owned(), list)
        })
        .collect()
}

trait CloneList {
    fn clone_list(&self) -> Vec<String>;
}

impl CloneList for Vec<Value> {
    fn clone_list(&self) -> Vec<String> {
        self.iter()
            .map(|e| match e {
                Value::Str(s) | Value::StrUcs2(s) => s.clone(),
                Value::Bytes(b) => String::from_utf8_lossy(b).into_owned(),
                _ => String::new(),
            })
            .collect()
    }
}

#[test]
fn extract_then_apply_replaces_the_category_and_keeps_siblings() {
    let extracted = extract_categories(&user_a(), &[Category::Autofill]);
    assert_eq!(extracted.len(), 1);
    let mut target = user_b();
    apply_to_tree(&mut target, &extracted);
    let lists = edit_history(&target);
    assert_eq!(lists.len(), 1);
    assert_eq!(lists[0].0, "/a");
    assert_eq!(lists[0].1, vec!["Jita"]);
    let Value::Dict(root) = &target else { panic!() };
    assert!(root.iter().any(|(k, v)| is_bytes(k, b"keep") && matches!(v, Value::Int(7))));
}

#[test]
fn apply_inserts_the_category_when_the_target_lacks_it() {
    let extracted = extract_categories(&user_a(), &[Category::Autofill]);
    let mut target = Value::Dict(vec![(b("ui"), Value::Dict(vec![]))]);
    apply_to_tree(&mut target, &extracted);
    let lists = edit_history(&target);
    assert_eq!(lists[0].1, vec!["Jita"]);
}

#[test]
fn extract_resolves_a_ref_into_a_shared_defined_outside_the_category() {
    let jita = Value::Shared { slot: 1, value: Box::new(b("Jita")) };
    let hist = Value::Dict(vec![(b("/a"), Value::List(vec![Value::Ref(1)]))]);
    let ui = Value::Dict(vec![
        (b("shareDef"), Value::List(vec![jita])),
        (b("editHistory"), Value::Tuple(vec![ts(), hist])),
    ]);
    let source = Value::Dict(vec![(b("ui"), ui)]);
    encode(&source).expect("fixture encodes (def precedes ref)");
    let extracted = extract_categories(&source, &[Category::Autofill]);
    let mut target = Value::Dict(vec![(b("ui"), Value::Dict(vec![]))]);
    apply_to_tree(&mut target, &extracted);
    let bytes = encode(&target).expect("extracted subtree has no dangling Ref");
    let lists = edit_history(&decode(&bytes).unwrap());
    assert_eq!(lists[0].1, vec!["Jita"]);
}

#[test]
fn apply_inlines_the_target_so_an_outside_ref_into_the_old_category_survives() {
    let jita = Value::Shared { slot: 1, value: Box::new(b("Jita")) };
    let old_hist = Value::Dict(vec![(b("/old"), Value::List(vec![jita]))]);
    let ui = Value::Dict(vec![
        (b("editHistory"), Value::Tuple(vec![ts(), old_hist])),
        (b("sibling"), Value::List(vec![Value::Ref(1)])),
    ]);
    let mut target = Value::Dict(vec![(b("ui"), ui)]);
    encode(&target).expect("target fixture encodes before the splice");
    let extracted = extract_categories(&user_a(), &[Category::Autofill]);
    apply_to_tree(&mut target, &extracted);
    encode(&target).expect("post-splice target encodes (outside Ref inlined, not dangled)");
}

fn user_overview(col: &str) -> Value {
    let overview = Value::Dict(vec![
        (b("overviewColumns"), Value::List(vec![b(col)])),
        (b("tabsByWindowInstanceID"), Value::List(vec![Value::List(vec![Value::Int(0)])])),
    ]);
    Value::Dict(vec![(b("overview"), overview), (b("keep"), Value::Int(7))])
}

fn char_widths(w: i64) -> Value {
    let cols = Value::Dict(vec![(b("NAME"), Value::Int(w))]);
    let sizes = Value::Dict(vec![(Value::Tuple(vec![b("overviewScroll2"), Value::Int(0)]), cols)]);
    let ui = Value::Dict(vec![(b("SortHeadersSizes"), Value::Tuple(vec![ts(), sizes]))]);
    Value::Dict(vec![(b("ui"), ui), (b("other"), Value::Int(9))])
}

#[test]
fn overview_category_replaces_the_overview_subtree_and_keeps_siblings() {
    let extracted = extract_categories(&user_overview("SOURCECOL"), &[Category::Overview]);
    assert_eq!(extracted.len(), 1);
    let mut target = user_overview("TARGETCOL");
    apply_to_tree(&mut target, &extracted);
    let Value::Dict(root) = &target else { panic!() };
    let (_, ov) = root.iter().find(|(k, _)| is_bytes(k, b"overview")).unwrap();
    let Value::Dict(ov) = ov else { panic!() };
    let (_, cols) = ov.iter().find(|(k, _)| is_bytes(k, b"overviewColumns")).unwrap();
    assert_eq!(cols, &Value::List(vec![b("SOURCECOL")]), "overview came from the source");
    assert!(
        root.iter().any(|(k, v)| is_bytes(k, b"keep") && matches!(v, Value::Int(7))),
        "unrelated sibling survived"
    );
}

#[test]
fn overview_widths_category_replaces_sortheaderssizes_and_keeps_siblings() {
    let extracted = extract_categories(&char_widths(120), &[Category::OverviewWidths]);
    assert_eq!(extracted.len(), 1);
    let mut target = char_widths(999);
    apply_to_tree(&mut target, &extracted);
    let Value::Dict(root) = &target else { panic!() };
    let (_, ui) = root.iter().find(|(k, _)| is_bytes(k, b"ui")).unwrap();
    let Value::Dict(ui) = ui else { panic!() };
    let (_, shs) = ui.iter().find(|(k, _)| is_bytes(k, b"SortHeadersSizes")).unwrap();
    let Value::Tuple(items) = shs else { panic!() };
    let Value::Dict(sizes) = &items[1] else { panic!() };
    let Value::Dict(cols) = &sizes[0].1 else { panic!() };
    assert_eq!(cols.iter().find(|(k, _)| is_bytes(k, b"NAME")).unwrap().1, Value::Int(120));
    assert!(
        root.iter().any(|(k, v)| is_bytes(k, b"other") && matches!(v, Value::Int(9))),
        "sibling under root survived"
    );
}

#[test]
fn apply_to_tree_leaves_a_compact_shared_result() {
    let id = || Value::Bytes(b"overview_window".to_vec());
    let windows = Value::Dict(vec![
        (b("openWindows"), Value::Dict(vec![(id(), Value::Bool(true))])),
        (b("lockedWindows"), Value::Dict(vec![(id(), Value::Bool(false))])),
        (b("stacksWindows"), Value::Dict(vec![(id(), id())])),
    ]);
    let extracted = vec![(Category::Layout, Some(windows))];
    let mut target = Value::Dict(vec![(b("windows"), Value::Dict(vec![]))]);
    apply_to_tree(&mut target, &extracted);
    let bytes = encode(&target).expect("resharded target encodes");
    let shared_count = i32::from_le_bytes([bytes[1], bytes[2], bytes[3], bytes[4]]);
    assert!(shared_count > 0, "reshare shared the repeated id, count={shared_count}");
    let inlined_len = encode(&inline(&target)).unwrap().len();
    assert!(bytes.len() < inlined_len, "{} !< {}", bytes.len(), inlined_len);
}

/// The codes bound to `CmdApproachItem` under `cmd -> customCmds`.
fn approach_keys(v: &Value) -> Option<Vec<i64>> {
    let v = inline(v);
    let cmd = child(entries(&v), "cmd")?;
    let table = child(entries(cmd), "customCmds")?;
    let binding = child(entries(table), "CmdApproachItem")?;
    let Value::Tuple(codes) = binding else { return None };
    Some(codes.iter().filter_map(|c| if let Value::Int(i) = c { Some(*i) } else { None }).collect())
}

#[test]
fn keybinds_category_round_trips_the_whole_table() {
    let table = |code: i64| {
        Value::Dict(vec![(
            b("customCmds"),
            Value::Tuple(vec![ts(), Value::Dict(vec![(b("CmdApproachItem"), Value::Tuple(vec![Value::Int(code)]))])]),
        )])
    };
    let source = Value::Dict(vec![(b("cmd"), table(65))]);
    let mut target = Value::Dict(vec![(b("cmd"), table(90))]);
    let extracted = extract_categories(&source, &[Category::Keybinds]);
    assert_eq!(extracted.len(), 1);
    apply_to_tree(&mut target, &extracted);
    assert_eq!(approach_keys(&target), Some(vec![65]), "the source's binding replaced the target's");
}

#[test]
fn keybinds_category_populates_an_empty_table() {
    let source = Value::Dict(vec![(
        b("cmd"),
        Value::Dict(vec![(
            b("customCmds"),
            Value::Tuple(vec![ts(), Value::Dict(vec![(b("CmdApproachItem"), Value::Tuple(vec![Value::Int(65)]))])]),
        )]),
    )]);
    let mut target = Value::Dict(vec![(
        b("cmd"),
        Value::Dict(vec![(b("customCmds"), Value::Tuple(vec![ts(), Value::Dict(vec![])]))]),
    )]);
    apply_to_tree(&mut target, &extract_categories(&source, &[Category::Keybinds]));
    assert_eq!(approach_keys(&target), Some(vec![65]));
}

#[test]
fn neocom_buttons_extract_and_apply_across_files() {
    let source = Value::Dict(vec![(
        b("ui"),
        Value::Dict(vec![
            (b("neocomButtonRawData"), Value::Tuple(vec![ts(), Value::List(vec![b("SOURCE-BAR")])])),
            (b("neocomButtonRawDataOriginal"), Value::Tuple(vec![ts(), Value::Tuple(vec![b("SOURCE-ORIGINAL")])])),
        ]),
    )]);
    let mut target = Value::Dict(vec![(
        b("ui"),
        Value::Dict(vec![
            (b("neocomButtonRawData"), Value::Tuple(vec![ts(), Value::List(vec![b("TARGET-BAR")])])),
            (b("neocomButtonRawDataOriginal"), Value::Tuple(vec![ts(), Value::Tuple(vec![b("TARGET-ORIGINAL")])])),
        ]),
    )]);
    let extracted = extract_categories(&source, &[Category::NeocomButtons]);
    apply_to_tree(&mut target, &extracted);
    let target = inline(&target);
    let Value::Dict(root) = &target else { panic!() };
    let (_, ui) = root.iter().find(|(k, _)| is_bytes(k, b"ui")).unwrap();
    let Value::Dict(ui) = ui else { panic!() };
    let (_, bar) = ui.iter().find(|(k, _)| is_bytes(k, b"neocomButtonRawData")).unwrap();
    let Value::Tuple(bar_items) = bar else { panic!() };
    assert_eq!(bar_items[1], Value::List(vec![b("SOURCE-BAR")]), "the source bar did not replace the target's");
    let (_, original) = ui.iter().find(|(k, _)| is_bytes(k, b"neocomButtonRawDataOriginal")).unwrap();
    let Value::Tuple(orig_items) = original else { panic!() };
    assert_eq!(
        orig_items[1],
        Value::Tuple(vec![b("TARGET-ORIGINAL")]),
        "the target's Original was overwritten or the source's Original leaked across"
    );
}

#[test]
fn the_hud_categories_address_the_keys_hud_rs_writes() {
    let expected: [(Category, &[&[u8]]); 8] = [
        (Category::HudFighterPos, &[b"ui", b"fightersDetachedPosition"]),
        (Category::HudBadge, &[b"notifications", b"notification_badge_offset"]),
        (Category::HudShipTop, &[b"ui", b"shipuialigntop"]),
        (Category::HudFighterDetached, &[b"ui", b"detachFighterUI"]),
        (Category::HudFighterShown, &[b"ui", b"displayFighterUI"]),
        (Category::HudNeocomWidth, &[b"windows", b"neocomWidth"]),
        (Category::HudTargetOrigin, &[b"ui", b"targetOrigin"]),
        (Category::HudTargetAlign, &[b"ui", b"alignHorizontally"]),
    ];
    for (cat, path) in expected {
        assert_eq!(cat.key_path(), path, "{cat:?} addresses the wrong key");
        assert!(cat.absent_means_default(), "{cat:?} is a leaf HUD key");
    }
}

#[test]
fn a_whole_section_category_never_means_default() {
    for cat in [
        Category::Layout,
        Category::Autofill,
        Category::Overview,
        Category::OverviewWidths,
        Category::Keybinds,
        Category::ProbeFormations,
        Category::NeocomButtons,
    ] {
        assert!(!cat.absent_means_default(), "{cat:?} must never delete on the target");
    }
}

fn user_with_hud() -> Value {
    Value::Dict(vec![
        (b("ui"), Value::Dict(vec![(b("shipuialigntop"), Value::Bool(true))])),
        (b("windows"), Value::Dict(vec![(b("neocomWidth"), Value::Int(72))])),
    ])
}

#[test]
fn an_absent_leaf_hud_key_removes_the_targets_own_value() {
    let source = Value::Dict(vec![(b("ui"), Value::Dict(vec![]))]);
    let extracted = extract_categories(&source, &[Category::HudNeocomWidth]);
    assert_eq!(extracted.len(), 1, "the absence is reported, not dropped");
    assert!(extracted[0].1.is_none(), "absence is a removal");
    let mut target = user_with_hud();
    apply_to_tree(&mut target, &extracted);
    let Value::Dict(root) = &target else { panic!("root is a dict") };
    let (_, windows) = root.iter().find(|(k, _)| is_bytes(k, b"windows")).expect("windows survives");
    let Value::Dict(w) = windows else { panic!("windows is a dict") };
    assert!(!w.iter().any(|(k, _)| is_bytes(k, b"neocomWidth")), "the target's own neocomWidth is gone");
}

#[test]
fn an_absent_whole_section_category_leaves_the_target_alone() {
    let source = Value::Dict(vec![(b("ui"), Value::Dict(vec![]))]);
    let extracted = extract_categories(&source, &[Category::Overview]);
    assert!(extracted.is_empty(), "a missing section is nothing to copy");
    let mut target = Value::Dict(vec![(b("overview"), Value::Int(7))]);
    apply_to_tree(&mut target, &extracted);
    let Value::Dict(root) = &target else { panic!("root is a dict") };
    assert!(root.iter().any(|(k, _)| is_bytes(k, b"overview")), "the target's overview survives");
}

#[test]
fn a_removal_with_no_parent_section_on_the_target_is_a_no_op() {
    let source = Value::Dict(vec![(b("ui"), Value::Dict(vec![])), (b("notifications"), Value::Dict(vec![]))]);
    let extracted = extract_categories(&source, &[Category::HudBadge]);
    assert_eq!(extracted.len(), 1, "the source really does claim the default");
    let mut target = Value::Dict(vec![(b("keep"), Value::Int(1))]);
    apply_to_tree(&mut target, &extracted);
    let Value::Dict(root) = &target else { panic!("root is a dict") };
    assert!(root.iter().any(|(k, _)| is_bytes(k, b"keep")), "nothing else was touched");
}

#[test]
fn an_empty_root_source_contributes_neither_values_nor_removals() {
    let extracted =
        extract_categories(&Value::Dict(vec![]), &[Category::HudNeocomWidth, Category::HudShipTop]);
    assert!(extracted.is_empty(), "a pruned-away side carries no absences");
    let mut target = user_with_hud();
    apply_to_tree(&mut target, &extracted);
    let Value::Dict(root) = &target else { panic!("root is a dict") };
    let (_, windows) = root.iter().find(|(k, _)| is_bytes(k, b"windows")).expect("windows survives");
    let Value::Dict(w) = windows else { panic!("windows is a dict") };
    assert!(w.iter().any(|(k, _)| is_bytes(k, b"neocomWidth")), "an old preset leaves the target's neocom width alone");
}

fn old_layout_preset_char_doc() -> Value {
    Value::Dict(vec![
        (b("windows"), Value::Dict(vec![(b("openWindows"), Value::Dict(vec![]))])),
        (
            b("ui"),
            Value::Dict(vec![(b("neocomButtonRawData"), Value::Tuple(vec![ts(), Value::List(vec![b("SOURCE-BAR")])]))]),
        ),
    ])
}

fn char_with_hud(fighter: i64, badge: i64) -> Value {
    let point = |v: i64| Value::Tuple(vec![ts(), Value::Tuple(vec![Value::Int(v), Value::Int(v)])]);
    Value::Dict(vec![
        (b("windows"), Value::Dict(vec![])),
        (b("ui"), Value::Dict(vec![(b("fightersDetachedPosition"), point(fighter))])),
        (b("notifications"), Value::Dict(vec![(b("notification_badge_offset"), point(badge))])),
    ])
}

/// The (x, y) a char-side HUD point stores under `section -> key`.
fn hud_point(v: &Value, section: &str, key: &str) -> Option<(i64, i64)> {
    let v = inline(v);
    let sec = child(entries(&v), section)?;
    let val = child(entries(sec), key)?;
    let Value::Tuple(outer) = val else { return None };
    let Value::Tuple(xy) = &outer[1] else { return None };
    match (&xy[0], &xy[1]) {
        (Value::Int(x), Value::Int(y)) => Some((*x, *y)),
        _ => None,
    }
}

#[test]
fn an_old_layout_presets_char_side_claims_no_hud_absences() {
    let extracted = extract_categories(
        &old_layout_preset_char_doc(),
        &[Category::Layout, Category::NeocomButtons, Category::HudFighterPos, Category::HudBadge],
    );
    let cats: Vec<Category> = extracted.iter().map(|(c, _)| *c).collect();
    assert_eq!(
        cats,
        vec![Category::Layout, Category::NeocomButtons],
        "an old preset carries what it captured, and claims nothing about the HUD"
    );
    let mut target = char_with_hud(10, 20);
    apply_to_tree(&mut target, &extracted);
    assert_eq!(hud_point(&target, "ui", "fightersDetachedPosition").map(|p| p.0), Some(10), "the target's fighter panel survives");
    assert_eq!(
        hud_point(&target, "notifications", "notification_badge_offset").map(|p| p.0),
        Some(20),
        "the target's badge offset survives"
    );
}

#[test]
fn a_char_source_with_the_notifications_section_still_removes() {
    let source = Value::Dict(vec![(b("ui"), Value::Dict(vec![])), (b("notifications"), Value::Dict(vec![]))]);
    let extracted = extract_categories(&source, &[Category::HudFighterPos, Category::HudBadge]);
    assert_eq!(extracted.len(), 2, "both absences are claimed as EVE's default");
    assert!(extracted.iter().all(|(_, v)| v.is_none()), "both are removals");
    let mut target = char_with_hud(10, 20);
    apply_to_tree(&mut target, &extracted);
    assert_eq!(hud_point(&target, "ui", "fightersDetachedPosition"), None);
    assert_eq!(hud_point(&target, "notifications", "notification_badge_offset"), None);
}

#[test]
fn a_present_leaf_hud_key_is_copied_over_the_targets_own() {
    let extracted = extract_categories(&user_with_hud(), &[Category::HudNeocomWidth]);
    let mut target = Value::Dict(vec![(b("windows"), Value::Dict(vec![(b("neocomWidth"), Value::Int(37))]))]);
    apply_to_tree(&mut target, &extracted);
    let Value::Dict(root) = &target else { panic!("root is a dict") };
    let (_, windows) = root.iter().find(|(k, _)| is_bytes(k, b"windows")).expect("windows exists");
    let Value::Dict(w) = windows else { panic!("windows is a dict") };
    let (_, v) = w.iter().find(|(k, _)| is_bytes(k, b"neocomWidth")).expect("the key was copied");
    assert_eq!(*v, Value::Int(72), "the source's width won");
}

// ----- document -----

#[test]
fn canonical_file_loads_editable() {
    let bytes = encode(&Value::Dict(vec![(b("k"), Value::Int(5))])).unwrap();
    let (value, fidelity) = load_bytes(&bytes).unwrap();
    assert_eq!(fidelity, Fidelity::Editable);
    assert_eq!(value, Value::Dict(vec![(b("k"), Value::Int(5))]));
}

#[test]
fn noncanonical_file_loads_read_only() {
    let bytes = [0x7E, 0, 0, 0, 0, 0x06, 0x01];
    let (_, fidelity) = load_bytes(&bytes).unwrap();
    match fidelity {
        Fidelity::ReadOnly { ref reason } => {
            assert!(reason.contains("re-encode differs"), "reason: {reason}");
            assert!(reason.contains("(6 vs 7 bytes)"), "reason: {reason}");
        }
        ref other => panic!("expected ReadOnly, got {other:?}"),
    }
}

#[test]
fn undecodable_file_is_a_decode_error_with_offset() {
    let bytes = [0x7E, 0, 0, 0, 0, 0x3D];
    match load_bytes(&bytes) {
        Err(LoadError::Decode { offset, .. }) => assert_eq!(offset, 5),
        other => panic!("expected Decode error, got {other:?}"),
    }
}

// ----- discover -----

#[test]
fn classifies_settings_file_names() {
    assert_eq!(classify_file("core_char_123456789.dat"), Some((FileKind::Char, Some(123456789))));
    assert_eq!(classify_file("core_user_987654.dat"), Some((FileKind::User, Some(987654))));
    assert_eq!(classify_file("core_char__.dat"), Some((FileKind::Char, None)));
    assert_eq!(classify_file("core_user_1.dat.dat"), Some((FileKind::User, Some(1))));
    assert_eq!(classify_file("prefs.dat"), Some((FileKind::Other, None)));
    assert_eq!(classify_file("prefs.ini"), None);
}

#[test]
fn splits_install_names_and_profiles() {
    assert_eq!(
        split_install("c_eve_sharedcache_tq_tranquility"),
        ("c_eve_sharedcache_tq".to_string(), "tranquility".to_string())
    );
    assert_eq!(split_install("noserver_"), ("noserver_".to_string(), String::new()));
    assert_eq!(split_install("plain"), ("plain".to_string(), String::new()));
    assert_eq!(profile_name("settings_Default"), Some("Default".to_string()));
    assert_eq!(profile_name("cache"), None);
    assert!(text_precedes("singularity", "tranquility"));
    assert!(!text_precedes("tranquility", "tranquility"));
    assert!(text_precedes("core_char_1.dat", "core_char__.dat"));
}

// ----- overview -----

#[test]
fn palette_has_no_duplicate_colours() {
    let pal = palette();
    for (i, (_, a)) in pal.iter().enumerate() {
        for (_, b) in pal.iter().skip(i + 1) {
            let a: Vec<f64> = a.iter().map(|x| f64::from_bits(*x)).collect();
            let b: Vec<f64> = b.iter().map(|x| f64::from_bits(*x)).collect();
            assert_ne!(a, b, "two names share an RGBA, so color_name is ambiguous");
        }
    }
}

fn rgba(c: [f64; 4]) -> [u64; 4] {
    [c[0].to_bits(), c[1].to_bits(), c[2].to_bits(), c[3].to_bits()]
}

#[test]
fn colour_names_match_exactly() {
    assert_eq!(color_rgba("darkBlue"), Some(rgba([0.0, 0.15, 0.6, 1.0])));
    assert_eq!(color_rgba("blue"), Some(rgba([0.2, 0.5, 1.0, 1.0])));
    assert_eq!(color_rgba("red"), Some(rgba([0.75, 0.0, 0.0, 1.0])));
    assert_eq!(color_name(rgba([0.0, 0.15, 0.6, 1.0])), Some("darkBlue"));
    assert_eq!(color_rgba("chartreuse"), None);
    assert_eq!(color_name(rgba([0.123, 0.0, 0.0, 1.0])), None, "no near-miss matching");
    assert_eq!(color_name(rgba([-0.0, 0.0, 0.0, 1.0])), Some("black"), "zeros compare equal");
}

#[test]
fn splits_and_joins_surface_keys() {
    assert_eq!(split_surface_key("background_16"), Some(("background", 16)));
    assert_eq!(split_surface_key("flag_9"), Some(("flag", 9)));
    assert_eq!(split_surface_key("background"), None);
    assert_eq!(split_surface_key("background_x"), None);
    assert_eq!(split_surface_key("some_thing_5"), Some(("some_thing", 5)));
    assert_eq!(join_surface_key("flag", 9), "flag_9".to_string());
}

#[test]
fn the_windowless_message_does_not_read_as_damage() {
    let msg = OverviewTabError::NoWindowMapping.message();
    assert!(msg.contains("per-window"), "message should name the feature: {msg}");
    for bad in ["no window layout", "missing", "damaged", "corrupt", "invalid"] {
        assert!(!msg.to_lowercase().contains(bad), "message still reads as damage ({bad}): {msg}");
    }
}

#[test]
fn error_messages_read_as_sentences() {
    assert_eq!(OverviewTabError::UnknownTab { index: -3 }.message(), "Tab -3 does not exist.");
    assert_eq!(
        OverviewTabError::UnknownPreset { name: "combat".into() }.message(),
        "Preset \"combat\" does not exist."
    );
    assert_eq!(
        PackError::BadSection { name: "presets".into() }.message(),
        "This pack's 'presets' section is not a list, so it cannot be applied."
    );
    assert_eq!(PackError::NotAPack.message(), "This YAML file contains no overview pack sections.");
}

#[test]
fn resolve_mut_reaches_the_same_node() {
    let mut v = sample();
    let deep = [Step::DictValue(0), Step::SharedInner, Step::Tuple(0)];
    *resolve_mut(&mut v, &deep).unwrap() = Value::Int(42);
    assert_eq!(resolve(&v, &deep), Some(&Value::Int(42)));
}

#[test]
fn resolve_mut_refuses_a_step_that_does_not_fit() {
    let mut v = sample();
    assert!(resolve_mut(&mut v, &[Step::DictValue(1)]).is_none());
    assert!(resolve_mut(&mut v, &[Step::List(0)]).is_none());
    assert_eq!(v, sample());
}

#[test]
fn a_float_edit_refuses_a_pattern_that_is_not_finite() {
    let mut v = Value::Dict(vec![(b("x"), Value::Float(1.5f64.to_bits()))]);
    let nan = Mutation::SetScalar {
        path: vec![Step::DictValue(0)],
        text: "NaN".to_string(),
        as_float: Ok(f64::NAN.to_bits()),
    };
    match apply(&mut v, &nan) {
        Err(MutateError::Parse(m)) => assert!(m.starts_with("must be finite"), "{m}"),
        other => panic!("expected a parse error, got {other:?}"),
    }
    assert_eq!(v, Value::Dict(vec![(b("x"), Value::Float(1.5f64.to_bits()))]));
    let inf = Mutation::InsertDictEntry {
        parent: vec![],
        key: NewValue::Str("y".to_string()),
        value: NewValue::Float(Ok(f64::INFINITY.to_bits())),
    };
    assert!(matches!(apply(&mut v, &inf), Err(MutateError::Parse(_))));
}
