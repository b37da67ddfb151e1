use asset_tree::decode::decode;
use asset_tree::decode::DecodeError;
use asset_tree::flatten::flatten_document;
use asset_tree::flatten::flatten_node;
use asset_tree::load::load_document;
use asset_tree::model::FolderAsset;
use asset_tree::model::ItemAsset;
use asset_tree::model::JsonObject;
use asset_tree::model::RootAsset;
use asset_tree::paths::join_path;
use asset_tree::registry::LifecycleEvent;
use asset_tree::registry::Registry;

fn item(text: &str) -> ItemAsset {
    ItemAsset { text: text.to_string() }
}

#[test]
fn join_path_uses_dot_only_after_a_prefix() {
    assert_eq!(join_path("", "a"), "a");
    assert_eq!(join_path("a", "b"), "a.b");
    assert_eq!(join_path("a.b", "c"), "a.b.c");
}

#[test]
fn empty_folder_yields_zero_pairs() {
    let root = RootAsset(JsonObject::Folder(FolderAsset { children: Vec::new() }));
    assert_eq!(flatten_document(&root).len(), 0);
}

#[test]
fn nested_empty_folders_yield_zero_pairs() {
    let inner = JsonObject::Folder(FolderAsset { children: Vec::new() });
    let root = RootAsset(JsonObject::Folder(FolderAsset {
        children: vec![("e".to_string(), inner)],
    }));
    assert_eq!(flatten_document(&root).len(), 0);
}

#[test]
fn item_node_yields_one_pair_under_the_prefix() {
    let node = JsonObject::Item(item("x"));
    let pairs = flatten_node(&node, "pre");
    assert_eq!(pairs.len(), 1);
    assert_eq!(pairs[0].0, "pre");
    assert_eq!(pairs[0].1.text, "x");
}

#[test]
fn item_root_document_yields_zero_pairs() {
    let root = RootAsset(JsonObject::Item(item("x")));
    assert_eq!(flatten_document(&root).len(), 0);
}

#[test]
fn decode_then_flatten_single_item() {
    let bytes = br#"{"type":"folder","a":{"type":"item","text":"x"}}"#;
    let root = decode(bytes).unwrap();
    let pairs = flatten_document(&root);
    assert_eq!(pairs.len(), 1);
    assert_eq!(pairs[0].0, "a");
    assert_eq!(pairs[0].1.text, "x");
}

#[test]
fn decode_then_flatten_nested_item() {
    let bytes = br#"{"type":"folder","a":{"type":"folder","b":{"type":"item","text":"y"}}}"#;
    let root = decode(bytes).unwrap();
    let pairs = flatten_document(&root);
    assert_eq!(pairs.len(), 1);
    assert_eq!(pairs[0].0, "a.b");
    assert_eq!(pairs[0].1.text, "y");
}

#[test]
fn decode_accepts_whitespace_and_member_order() {
    let bytes = b" { \"a\" : { \"text\" : \"x\" , \"type\" : \"item\" } , \"type\" : \"folder\" } ";
    let root = decode(bytes).unwrap();
    let pairs = flatten_document(&root);
    assert_eq!(pairs.len(), 1);
    assert_eq!(pairs[0].0, "a");
    assert_eq!(pairs[0].1.text, "x");
}

#[test]
fn decode_handles_escapes_in_text() {
    let bytes = br#"{"type":"folder","a":{"type":"item","text":"l1\nl2\t\"q\"\\"}}"#;
    let root = decode(bytes).unwrap();
    let pairs = flatten_document(&root);
    assert_eq!(pairs[0].1.text, "l1\nl2\t\"q\"\\");
}

#[test]
fn decode_keeps_non_ascii_text() {
    let bytes = "{\"type\":\"folder\",\"gr\u{fc}n\":{\"type\":\"item\",\"text\":\"\u{e9}t\u{e9}\"}}"
        .as_bytes()
        .to_vec();
    let root = decode(&bytes).unwrap();
    let pairs = flatten_document(&root);
    assert_eq!(pairs[0].0, "gr\u{fc}n");
    assert_eq!(pairs[0].1.text, "\u{e9}t\u{e9}");
}

#[test]
fn unknown_tag_is_rejected_and_registers_nothing() {
    let bytes = br#"{"type":"unknown"}"#;
    assert_eq!(decode(bytes).unwrap_err(), DecodeError::UnknownTag);
    let mut reg = Registry::new();
    assert!(load_document(&mut reg, bytes).is_err());
    assert_eq!(reg.len(), 0);
    assert_eq!(reg.take_events().len(), 0);
}

#[test]
fn malformed_bytes_are_a_syntax_error() {
    assert_eq!(decode(b"{").unwrap_err(), DecodeError::Syntax);
    assert_eq!(decode(b"").unwrap_err(), DecodeError::Syntax);
    assert_eq!(decode(br#"{"type":"folder""#).unwrap_err(), DecodeError::Syntax);
    assert_eq!(decode(b"[1,2]").unwrap_err(), DecodeError::Syntax);
    assert_eq!(decode(br#"{"type":3}"#).unwrap_err(), DecodeError::Syntax);
}

#[test]
fn missing_or_wrong_fields_are_a_shape_error() {
    assert_eq!(decode(br#""just a string""#).unwrap_err(), DecodeError::Shape);
    assert_eq!(decode(br#"{"a":{"type":"item","text":"x"}}"#).unwrap_err(), DecodeError::Shape);
    assert_eq!(decode(br#"{"type":"item"}"#).unwrap_err(), DecodeError::Shape);
    assert_eq!(
        decode(br#"{"type":"item","text":"x","more":"y"}"#).unwrap_err(),
        DecodeError::Shape
    );
    assert_eq!(
        decode(br#"{"type":"item","text":{"type":"item","text":"x"}}"#).unwrap_err(),
        DecodeError::Shape
    );
    assert_eq!(
        decode(br#"{"type":"folder","a":"bare"}"#).unwrap_err(),
        DecodeError::Shape
    );
}

#[test]
fn duplicate_child_names_are_rejected() {
    let bytes =
        br#"{"type":"folder","a":{"type":"item","text":"x"},"a":{"type":"item","text":"y"}}"#;
    assert_eq!(decode(bytes).unwrap_err(), DecodeError::DuplicateName);
}

#[test]
fn registering_twice_keeps_identity_and_reports_one_modified() {
    let mut reg = Registry::new();
    let id1 = reg.register("a".to_string(), item("x")).unwrap();
    let first_events = reg.take_events();
    assert_eq!(first_events.len(), 1);
    assert!(matches!(&first_events[0], LifecycleEvent::Added { path, identity }
        if path.as_str() == "a" && *identity == id1));

    let id2 = reg.register("a".to_string(), item("x")).unwrap();
    assert_eq!(id1, id2);
    let second_events = reg.take_events();
    assert_eq!(second_events.len(), 1);
    assert!(matches!(&second_events[0], LifecycleEvent::Modified { path, identity }
        if path.as_str() == "a" && *identity == id1));
}

#[test]
fn reload_updates_content_and_preserves_identity() {
    let mut reg = Registry::new();
    let id1 = reg.register("a".to_string(), item("x")).unwrap();
    let id2 = reg.register("a".to_string(), item("z")).unwrap();
    assert_eq!(id1, id2);
    assert_eq!(reg.len(), 1);
    let entry = reg.get("a").unwrap();
    assert_eq!(entry.item.text, "z");
    assert_eq!(entry.identity, id1);
}

#[test]
fn distinct_paths_get_distinct_identities() {
    let mut reg = Registry::new();
    let id_a = reg.register("a".to_string(), item("x")).unwrap();
    let id_b = reg.register("b".to_string(), item("y")).unwrap();
    assert_ne!(id_a, id_b);
    assert_eq!(reg.len(), 2);
}

#[test]
fn removal_reports_removed_and_reregistration_gets_a_new_identity() {
    let mut reg = Registry::new();
    let id1 = reg.register("a".to_string(), item("x")).unwrap();
    reg.take_events();
    let removed = reg.remove("a").unwrap();
    assert_eq!(removed, id1);
    assert_eq!(reg.len(), 0);
    let events = reg.take_events();
    assert_eq!(events.len(), 1);
    assert!(matches!(&events[0], LifecycleEvent::Removed { path, identity }
        if path.as_str() == "a" && *identity == id1));
    let id2 = reg.register("a".to_string(), item("x")).unwrap();
    assert_ne!(id1, id2);
}

#[test]
fn remove_of_an_unknown_path_changes_nothing() {
    let mut reg = Registry::new();
    assert!(reg.remove("missing").is_none());
    assert_eq!(reg.take_events().len(), 0);
}

#[test]
fn load_registers_every_flattened_pair() {
    let mut reg = Registry::new();
    let bytes = br#"{"type":"folder",
        "a":{"type":"item","text":"x"},
        "d":{"type":"folder","b":{"type":"item","text":"y"}}}"#;
    let outcome = load_document(&mut reg, bytes).unwrap();
    assert!(outcome.failed.is_empty());
    assert_eq!(reg.len(), 2);
    assert_eq!(reg.get("a").unwrap().item.text, "x");
    assert_eq!(reg.get("d.b").unwrap().item.text, "y");
    let events = reg.take_events();
    assert_eq!(events.len(), 2);
    assert!(events.iter().all(|e| matches!(e, LifecycleEvent::Added { .. })));
}

#[test]
fn reload_keeps_identities_and_reports_modified() {
    let mut reg = Registry::new();
    let bytes1 = br#"{"type":"folder","a":{"type":"item","text":"x"}}"#;
    load_document(&mut reg, bytes1).unwrap();
    let id_before = reg.get("a").unwrap().identity;
    reg.take_events();

    let bytes2 = br#"{"type":"folder","a":{"type":"item","text":"z"}}"#;
    load_document(&mut reg, bytes2).unwrap();
    let entry = reg.get("a").unwrap();
    assert_eq!(entry.item.text, "z");
    assert_eq!(entry.identity, id_before);
    let events = reg.take_events();
    assert_eq!(events.len(), 1);
    assert!(matches!(&events[0], LifecycleEvent::Modified { path, identity }
        if path.as_str() == "a" && *identity == id_before));
}

#[test]
fn failed_reload_leaves_previous_registrations_untouched() {
    let mut reg = Registry::new();
    let good = br#"{"type":"folder","a":{"type":"item","text":"x"}}"#;
    load_document(&mut reg, good).unwrap();
    reg.take_events();
    let bad = br#"{"type":"unknown"}"#;
    assert!(load_document(&mut reg, bad).is_err());
    assert_eq!(reg.len(), 1);
    assert_eq!(reg.get("a").unwrap().item.text, "x");
    assert_eq!(reg.take_events().len(), 0);
}

#[test]
fn flattening_order_follows_the_document() {
    let bytes = br#"{"type":"folder",
        "one":{"type":"item","text":"1"},
        "two":{"type":"folder",
            "three":{"type":"item","text":"3"},
            "four":{"type":"item","text":"4"}},
        "five":{"type":"item","text":"5"}}"#;
    let root = decode(bytes).unwrap();
    let pairs = flatten_document(&root);
    let paths: Vec<&str> = pairs.iter().map(|p| p.0.as_str()).collect();
    assert_eq!(paths, vec!["one", "two.three", "two.four", "five"]);
}

#[test]
fn decode_handles_unicode_escapes() {
    let bytes = br#"{"type":"folder","a":{"type":"item","text":"\u0041\u00e9\u20ac"}}"#;
    let root = decode(bytes).unwrap();
    let pairs = flatten_document(&root);
    assert_eq!(pairs[0].1.text, "A\u{e9}\u{20ac}");
}

#[test]
fn decode_handles_surrogate_pair_escapes() {
    let bytes = br#"{"type":"folder","a":{"type":"item","text":"\ud83d\ude00"}}"#;
    let root = decode(bytes).unwrap();
    let pairs = flatten_document(&root);
    assert_eq!(pairs[0].1.text, "\u{1f600}");
}

#[test]
fn bad_escapes_are_a_syntax_error() {
    assert_eq!(
        decode(br#"{"type":"item","text":"\x"}"#).unwrap_err(),
        DecodeError::Syntax
    );
    assert_eq!(
        decode(br#"{"type":"item","text":"\u12g4"}"#).unwrap_err(),
        DecodeError::Syntax
    );
    assert_eq!(
        decode(br#"{"type":"item","text":"\ud83d"}"#).unwrap_err(),
        DecodeError::Syntax
    );
}

#[test]
fn invalid_utf8_in_a_string_is_a_syntax_error() {
    let mut bytes = br#"{"type":"item","text":""#.to_vec();
    bytes.push(0xFF);
    bytes.extend_from_slice(br#""}"#);
    assert_eq!(decode(&bytes).unwrap_err(), DecodeError::Syntax);
}
