use treewm::names::{parse_view_mode, parse_window_id, str_eq, view_mode_name, window_id_string};
use treewm::state::{ModifierKey, Treewm, ViewMode};

#[test]
fn window_ids_in_decimal() {
    assert_eq!(window_id_string(0), "0");
    assert_eq!(window_id_string(7), "7");
    assert_eq!(window_id_string(10), "10");
    assert_eq!(window_id_string(4294967295), "4294967295");
}

#[test]
fn parsing_window_ids() {
    assert_eq!(parse_window_id("42"), Some(42));
    assert_eq!(parse_window_id("+7"), Some(7));
    assert_eq!(parse_window_id("007"), Some(7));
    assert_eq!(parse_window_id("4294967295"), Some(u32::MAX));
    assert_eq!(parse_window_id("4294967296"), None);
    assert_eq!(parse_window_id(""), None);
    assert_eq!(parse_window_id("+"), None);
    assert_eq!(parse_window_id("-1"), None);
    assert_eq!(parse_window_id("12a"), None);
    assert_eq!(parse_window_id(" 1"), None);
    assert_eq!(parse_window_id("99999999999999999999x"), None);
    for s in ["42", "+7", "007", "4294967295", "4294967296", "", "+", "-1", "12a", "٣"] {
        assert_eq!(parse_window_id(s), s.parse::<u32>().ok(), "{s}");
    }
}

#[test]
fn window_id_round_trip() {
    for id in [0u32, 1, 9, 10, 99, 100, 12345, u32::MAX] {
        assert_eq!(parse_window_id(&window_id_string(id)), Some(id));
    }
}

#[test]
fn view_mode_names() {
    assert_eq!(view_mode_name(ViewMode::Tiling), "tiling");
    assert_eq!(view_mode_name(ViewMode::TreeView), "tree");
    assert_eq!(parse_view_mode("tiling"), Some(ViewMode::Tiling));
    assert_eq!(parse_view_mode("tree"), Some(ViewMode::TreeView));
    assert_eq!(parse_view_mode("Tree"), None);
    assert_eq!(parse_view_mode(""), None);
}

#[test]
fn modifier_names() {
    assert_eq!(ModifierKey::from_config_name("Ctrl"), Some(ModifierKey::Ctrl));
    assert_eq!(ModifierKey::from_config_name("Super"), Some(ModifierKey::Super));
    assert_eq!(ModifierKey::from_config_name("Shift"), Some(ModifierKey::Shift));
    assert_eq!(ModifierKey::from_config_name("Alt"), Some(ModifierKey::Alt));
    assert_eq!(ModifierKey::from_config_name("ctrl"), None);
    assert_eq!(ModifierKey::from_config_name("Hyper"), None);
    for k in [ModifierKey::Ctrl, ModifierKey::Super, ModifierKey::Shift, ModifierKey::Alt] {
        assert_eq!(ModifierKey::from_config_name(k.config_name()), Some(k));
    }
}

#[test]
fn string_equality() {
    assert!(str_eq("abc", "abc"));
    assert!(!str_eq("abc", "abd"));
    assert!(!str_eq("ab", "abc"));
    assert!(str_eq("", ""));
}

#[test]
fn tree_listing_reports_ids_as_strings() {
    let mut t = Treewm::new(ModifierKey::Ctrl);
    let root = t.add_window();
    t.focus_by_id(root);
    let a = t.add_window();
    let b = t.add_window();
    let list = t.tree_listing();
    assert_eq!(list.len(), 3);
    assert_eq!(list[0].id, "0");
    assert_eq!(list[0].parent, None);
    assert_eq!(list[0].children, vec!["1".to_string(), "2".to_string()]);
    assert!(list[0].focused);
    assert_eq!(list[1].id, a.to_string());
    assert_eq!(list[1].parent, Some("0".to_string()));
    assert!(!list[1].focused);
    assert_eq!(list[2].id, b.to_string());
}
