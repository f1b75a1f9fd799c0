//! Display helpers: duration rendering and the library folder tree.

use midi_piano::timefmt::format_duration;
use midi_piano::tree::{collect_tree_items, LibraryNode, TreeItem};

#[test]
fn durations_render_as_padded_minutes_and_seconds() {
    assert_eq!(format_duration(0), "00:00");
    assert_eq!(format_duration(999_999), "00:00");
    assert_eq!(format_duration(1_000_000), "00:01");
    assert_eq!(format_duration(125_000_000), "02:05");
    assert_eq!(format_duration(60_000_000), "01:00");
    assert_eq!(format_duration(3_725_000_000), "62:05");
    assert_eq!(format_duration(6_000_000_000), "100:00");
}

#[test]
fn ensure_child_finds_or_inserts_in_key_order() {
    let mut root = LibraryNode::new("root".to_string(), "Library".to_string());
    // inserted out of key order: children still stand sorted by key
    let c = root.ensure_child("c".to_string(), "Choral".to_string());
    let a = root.ensure_child("a".to_string(), "Ambient".to_string());
    let b = root.ensure_child("b".to_string(), "Baroque".to_string());
    let a_again = root.ensure_child("a".to_string(), "ignored".to_string());
    assert_eq!(c, 0);
    assert_eq!(a, 0);
    assert_eq!(b, 1);
    assert_eq!(a_again, 0);
    assert_eq!(root.children.len(), 3);
    let ids: Vec<&str> = root.children.iter().map(|n| n.id.as_str()).collect();
    assert_eq!(ids, vec!["a", "b", "c"]);
    assert_eq!(root.children[0].name, "Ambient");
}

#[test]
fn collapsed_folders_hide_their_children() {
    let mut root = LibraryNode::new("root".to_string(), "Library".to_string());
    // built out of key order; rows must come out in key order
    root.ensure_child("c".to_string(), "Choral".to_string());
    let a = root.ensure_child("a".to_string(), "Ambient".to_string());
    root.children[a].ensure_child("a/x".to_string(), "Xylo".to_string());

    let mut items: Vec<TreeItem> = Vec::new();
    collect_tree_items(&root, 0, &vec![], &mut items);
    let names: Vec<(String, usize, bool, bool)> = items
        .iter()
        .map(|t| (t.name.clone(), t.depth, t.has_children, t.is_expanded))
        .collect();
    assert_eq!(
        names,
        vec![
            ("Ambient".to_string(), 0, true, false),
            ("Choral".to_string(), 0, false, false),
        ]
    );

    let mut expanded_items: Vec<TreeItem> = Vec::new();
    collect_tree_items(&root, 0, &vec!["a".to_string()], &mut expanded_items);
    let names: Vec<(String, usize)> =
        expanded_items.iter().map(|t| (t.name.clone(), t.depth)).collect();
    assert_eq!(
        names,
        vec![
            ("Ambient".to_string(), 0),
            ("Xylo".to_string(), 1),
            ("Choral".to_string(), 0),
        ]
    );
}
