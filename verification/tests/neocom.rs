use eve_settings::decode::decode;
use eve_settings::encode::encode;
use eve_settings::neocom::{add, project_neocom, remove, reorder, reset, NeocomError};
use eve_settings::reshare::clone_value;
use eve_settings::value::Value;

fn b(s: &str) -> Value {
    Value::Bytes(s.as_bytes().to_vec())
}

fn ts() -> Value {
    Value::Long(vec![0u8; 8])
}

/// One button, in the client's own key order.
fn button(id: Value, btn_type: i64, icon: &str, children: Value) -> Value {
    Value::Instance {
        class: Box::new(b("utillib.KeyVal")),
        state: Box::new(Value::Dict(vec![
            (b("btnType"), Value::Int(btn_type)),
            (b("children"), children),
            (b("iconPath"), b(icon)),
            (b("id"), id),
        ])),
    }
}

/// char -> ui -> { neocomButtonRawData: (ts, List), neocomButtonRawDataOriginal: (ts, Tuple) }
fn doc() -> Value {
    Value::Dict(vec![(
        b("ui"),
        Value::Dict(vec![
            (
                b("neocomButtonRawData"),
                Value::Tuple(vec![
                    ts(),
                    Value::List(vec![
                        button(b("chat"), 10, "res:/ui/Texture/WindowIcons/chatchannel.png", Value::Nil),
                        button(
                            b("inventory"),
                            4,
                            "res:/UI/Texture/WindowIcons/items.png",
                            Value::List(vec![button(
                                b("InventoryStation"),
                                4,
                                "res:/UI/Texture/WindowIcons/station.png",
                                Value::Nil,
                            )]),
                        ),
                        button(Value::Tuple(vec![b("shipTree"), Value::Nil]), 1, "res:/ui/Texture/WindowIcons/shiptree.png", Value::Nil),
                    ]),
                ]),
            ),
            (
                b("neocomButtonRawDataOriginal"),
                Value::Tuple(vec![
                    ts(),
                    Value::Tuple(vec![
                        button(b("chat"), 10, "res:/ui/Texture/WindowIcons/chatchannel.png", Value::Nil),
                        button(b("wallet"), 1, "res:/ui/Texture/WindowIcons/wallet.png", Value::Nil),
                    ]),
                ]),
            ),
        ]),
    )])
}

#[test]
fn projects_the_bar_in_order_with_indices() {
    let bar = project_neocom(&doc()).unwrap();
    assert_eq!(bar.buttons.len(), 3);
    assert_eq!(bar.buttons.iter().map(|b| b.id.as_str()).collect::<Vec<_>>(), vec!["chat", "inventory", "shipTree"]);
    assert_eq!(bar.buttons.iter().map(|b| b.index).collect::<Vec<_>>(), vec![0, 1, 2]);
}

#[test]
fn reads_btn_type_icon_and_child_count() {
    let bar = project_neocom(&doc()).unwrap();
    assert_eq!(bar.buttons[0].btn_type, 10);
    assert_eq!(bar.buttons[0].icon_path, "res:/ui/Texture/WindowIcons/chatchannel.png");
    assert_eq!(bar.buttons[0].children, 0, "children: None reads as 0");
    assert_eq!(bar.buttons[1].children, 1, "a one-element children list reads as 1");
}

#[test]
fn a_tuple_shaped_id_renders_as_its_bytes_half() {
    let bar = project_neocom(&doc()).unwrap();
    assert_eq!(bar.buttons[2].id, "shipTree");
}

#[test]
fn projects_the_original_baseline_separately() {
    let bar = project_neocom(&doc()).unwrap();
    assert_eq!(bar.original.iter().map(|b| b.id.as_str()).collect::<Vec<_>>(), vec!["chat", "wallet"]);
}

#[test]
fn a_document_without_the_key_is_an_error_but_a_missing_original_is_not() {
    let empty = Value::Dict(vec![(b("ui"), Value::Dict(vec![]))]);
    assert!(matches!(project_neocom(&empty), Err(NeocomError::NoBar)));
    assert!(matches!(project_neocom(&Value::Dict(vec![])), Err(NeocomError::NoUi)));

    let no_orig = Value::Dict(vec![(
        b("ui"),
        Value::Dict(vec![(
            b("neocomButtonRawData"),
            Value::Tuple(vec![ts(), Value::List(vec![button(b("chat"), 10, "icon.png", Value::Nil)])]),
        )]),
    )]);
    let bar = project_neocom(&no_orig).unwrap();
    assert_eq!(bar.buttons.len(), 1);
    assert!(bar.original.is_empty());
}

#[test]
fn projects_buttons_whose_keys_and_icons_are_interned() {
    fn shared_key(slot: u32, name: &str) -> Value {
        Value::Shared { slot, value: Box::new(b(name)) }
    }
    fn interned_button(id: &str, btn_type: i64, icon: Value) -> Value {
        Value::Instance {
            class: Box::new(b("utillib.KeyVal")),
            state: Box::new(Value::Dict(vec![
                (shared_key(1, "btnType"), Value::Int(btn_type)),
                (shared_key(2, "children"), Value::Nil),
                (shared_key(3, "iconPath"), icon),
                (shared_key(4, "id"), b(id)),
            ])),
        }
    }
    fn refd_button(id: &str, btn_type: i64, icon: Value) -> Value {
        Value::Instance {
            class: Box::new(b("utillib.KeyVal")),
            state: Box::new(Value::Dict(vec![
                (Value::Ref(1), Value::Int(btn_type)),
                (Value::Ref(2), Value::Nil),
                (Value::Ref(3), icon),
                (Value::Ref(4), b(id)),
            ])),
        }
    }
    let shared_icon = Value::Shared { slot: 5, value: Box::new(b("res:/ui/Texture/WindowIcons/folder.png")) };
    let doc = Value::Dict(vec![(
        b("ui"),
        Value::Dict(vec![(
            b("neocomButtonRawData"),
            Value::Tuple(vec![
                ts(),
                Value::List(vec![interned_button("chat", 10, shared_icon), refd_button("inventory", 4, Value::Ref(5))]),
            ]),
        )]),
    )]);
    let bar = project_neocom(&doc).unwrap();
    assert_eq!(bar.buttons.len(), 2);
    assert_eq!(bar.buttons[0].icon_path, "res:/ui/Texture/WindowIcons/folder.png");
    assert_eq!(bar.buttons[1].id, "inventory");
    assert_eq!(bar.buttons[1].btn_type, 4);
    assert_eq!(bar.buttons[1].icon_path, "res:/ui/Texture/WindowIcons/folder.png");
}

fn ids(v: &Value) -> Vec<String> {
    project_neocom(v).unwrap().buttons.into_iter().map(|b| b.id).collect()
}

#[test]
fn reorder_rewrites_the_bar_in_the_given_order() {
    let mut v = doc();
    reorder(&mut v, &[2, 0, 1]).unwrap();
    assert_eq!(ids(&v), vec!["shipTree", "chat", "inventory"]);
}

#[test]
fn reorder_moves_whole_instances_so_children_survive() {
    let mut v = doc();
    reorder(&mut v, &[1, 0, 2]).unwrap();
    let bar = project_neocom(&v).unwrap();
    assert_eq!(bar.buttons[0].id, "inventory");
    assert_eq!(bar.buttons[0].children, 1, "the folder kept its child");
    assert_eq!(bar.buttons[2].id, "shipTree", "the Tuple-shaped id survived the move");
}

#[test]
fn reorder_rejects_anything_that_is_not_a_permutation() {
    for bad in [vec![0, 1], vec![0, 1, 3], vec![0, 0, 1], vec![0, 1, 2, 2]] {
        let mut v = doc();
        assert!(matches!(reorder(&mut v, &bad), Err(NeocomError::BadOrder)), "accepted {bad:?}");
        assert_eq!(ids(&v), vec!["chat", "inventory", "shipTree"], "a rejected reorder changed the bar");
    }
}

#[test]
fn remove_drops_that_button_and_reindexes() {
    let mut v = doc();
    remove(&mut v, 1).unwrap();
    assert_eq!(ids(&v), vec!["chat", "shipTree"]);
    assert_eq!(project_neocom(&v).unwrap().buttons[1].index, 1);
}

#[test]
fn remove_rejects_an_index_that_does_not_exist() {
    let mut v = doc();
    assert!(matches!(remove(&mut v, 3), Err(NeocomError::BadIndex)));
    assert_eq!(ids(&v), vec!["chat", "inventory", "shipTree"]);
}

/// A raw bar list with a non-instance entry mixed in: the projection skips
/// it, so the projected count (2) no longer matches the raw length (3).
fn doc_with_a_junk_entry() -> Value {
    Value::Dict(vec![(
        b("ui"),
        Value::Dict(vec![(
            b("neocomButtonRawData"),
            Value::Tuple(vec![
                ts(),
                Value::List(vec![
                    button(b("chat"), 10, "icon.png", Value::Nil),
                    b("not-a-button"),
                    button(b("wallet"), 1, "wallet.png", Value::Nil),
                ]),
            ]),
        )]),
    )])
}

#[test]
fn reorder_refuses_rather_than_scramble_when_the_raw_list_has_a_non_instance_entry() {
    let mut v = doc_with_a_junk_entry();
    assert!(matches!(reorder(&mut v, &[1, 0]), Err(NeocomError::BadOrder)));
    assert_eq!(ids(&v), vec!["chat", "wallet"], "a refused reorder changed nothing");
}

#[test]
fn remove_refuses_rather_than_drop_the_wrong_button_when_the_raw_list_has_a_non_instance_entry() {
    let mut v = doc_with_a_junk_entry();
    assert!(matches!(remove(&mut v, 0), Err(NeocomError::BadIndex)));
    assert_eq!(ids(&v), vec!["chat", "wallet"], "a refused remove changed nothing");
}

#[test]
fn add_appends_a_keyval_with_the_four_keys_in_order() {
    let mut v = doc();
    add(&mut v, "wallet", 1, "res:/ui/Texture/WindowIcons/wallet.png").unwrap();
    assert_eq!(ids(&v), vec!["chat", "inventory", "shipTree", "wallet"]);

    let bar = project_neocom(&v).unwrap();
    assert_eq!(bar.buttons[3].btn_type, 1);
    assert_eq!(bar.buttons[3].icon_path, "res:/ui/Texture/WindowIcons/wallet.png");
    assert_eq!(bar.buttons[3].children, 0);

    let Value::Dict(top) = &v else { panic!() };
    let (_, ui) = top.iter().find(|(k, _)| matches!(k, Value::Bytes(x) if x == b"ui")).unwrap();
    let Value::Dict(uid) = ui else { panic!() };
    let (_, raw) = uid.iter().find(|(k, _)| matches!(k, Value::Bytes(x) if x == b"neocomButtonRawData")).unwrap();
    let Value::Tuple(t) = raw else { panic!() };
    let Value::List(l) = &t[1] else { panic!() };
    let Value::Instance { class, state } = &l[3] else { panic!("added entry is not an instance") };
    assert_eq!(**class, b("utillib.KeyVal"));
    let Value::Dict(st) = &**state else { panic!() };
    let keys: Vec<String> = st
        .iter()
        .map(|(k, _)| match k {
            Value::Bytes(x) => String::from_utf8_lossy(x).into_owned(),
            _ => String::new(),
        })
        .collect();
    assert_eq!(keys, vec!["btnType", "children", "iconPath", "id"]);
    assert_eq!(st[1].1, Value::Nil, "children is authored as nil");
}

#[test]
fn reset_replaces_the_bar_with_the_original_as_a_list() {
    let mut v = doc();
    reset(&mut v).unwrap();
    assert_eq!(ids(&v), vec!["chat", "wallet"]);

    let Value::Dict(top) = &v else { panic!() };
    let (_, ui) = top.iter().find(|(k, _)| matches!(k, Value::Bytes(x) if x == b"ui")).unwrap();
    let Value::Dict(uid) = ui else { panic!() };
    let (_, raw) = uid.iter().find(|(k, _)| matches!(k, Value::Bytes(x) if x == b"neocomButtonRawData")).unwrap();
    let Value::Tuple(t) = raw else { panic!() };
    assert!(matches!(&t[1], Value::List(_)), "the live bar must stay a List");
}

#[test]
fn reset_without_an_original_errors_and_changes_nothing() {
    let mut v = Value::Dict(vec![(
        b("ui"),
        Value::Dict(vec![(
            b("neocomButtonRawData"),
            Value::Tuple(vec![ts(), Value::List(vec![button(b("chat"), 10, "icon.png", Value::Nil)])]),
        )]),
    )]);
    assert!(matches!(reset(&mut v), Err(NeocomError::NoOriginal)));
    assert_eq!(ids(&v), vec!["chat"]);
}

#[test]
fn every_command_leaves_a_tree_that_still_encodes() {
    let mut v = doc();
    reorder(&mut v, &[2, 1, 0]).unwrap();
    remove(&mut v, 0).unwrap();
    add(&mut v, "wallet", 1, "wallet.png").unwrap();
    let bytes = encode(&v).expect("edited tree still encodes");
    assert_eq!(decode(&bytes).unwrap(), v);
}

#[test]
fn a_refused_command_leaves_the_document_identical() {
    let before = doc();
    let mut v = clone_value(&before);
    assert_eq!(reorder(&mut v, &[0, 0, 1]), Err(NeocomError::BadOrder));
    assert_eq!(v, before);
    assert_eq!(remove(&mut v, 7), Err(NeocomError::BadIndex));
    assert_eq!(v, before);
    let mut no_ui = Value::Dict(vec![]);
    assert_eq!(add(&mut no_ui, "x", 1, "y"), Err(NeocomError::NoUi));
    assert_eq!(NeocomError::BadOrder.message(), "That is not a valid ordering of the neocom buttons.");
}
