use superdupervoxels::debug::{
    sync_debug_lines, text_less, update_fps_debug_stats, update_version_debug_info, DebugEntry,
    DebugInfo, LineSync,
};

#[test]
fn overlay_is_hidden_and_empty_at_first() {
    let d = DebugInfo::default();
    assert!(!d.is_active);
    assert!(d.entries.is_empty());
}

#[test]
fn entries_stay_in_key_order() {
    let mut d = DebugInfo::default();
    d.toggle();
    assert!(d.is_active);
    update_fps_debug_stats(&mut d, Some("60".to_string()));
    update_version_debug_info(&mut d, "0.1.0");
    let keys: Vec<&str> = d.entries.iter().map(|(k, _)| k.as_str()).collect();
    assert_eq!(keys, vec!["00_VERSION", "0_FPS"]);
    assert_eq!(d.line_texts(), vec!["superdupervoxels 0.1.0", "FPS: 60"]);
    update_fps_debug_stats(&mut d, Some("59".to_string()));
    assert_eq!(d.entries.len(), 2);
    assert_eq!(d.line_texts()[1], "FPS: 59");
}

#[test]
fn hidden_overlay_records_nothing() {
    let mut d = DebugInfo::default();
    update_version_debug_info(&mut d, "1");
    update_fps_debug_stats(&mut d, Some("1".to_string()));
    assert!(d.entries.is_empty());
    d.toggle();
    update_fps_debug_stats(&mut d, None);
    assert!(d.entries.is_empty());
}

#[test]
fn insert_replaces_and_sorts() {
    let mut d = DebugInfo::default();
    d.insert("b".to_string(), DebugEntry { label: None, value: "1".to_string() });
    d.insert("a".to_string(), DebugEntry { label: Some("A".to_string()), value: "2".to_string() });
    d.insert("b".to_string(), DebugEntry { label: None, value: "3".to_string() });
    assert_eq!(d.line_texts(), vec!["A: 2", "3"]);
}

#[test]
fn string_order_is_by_code_point() {
    assert!(text_less("00_VERSION", "0_FPS"));
    assert!(text_less("", "a"));
    assert!(text_less("ab", "abc"));
    assert!(!text_less("abc", "abc"));
    assert!(text_less("Z", "a"));
    assert!(text_less("é", "ê"));
}

#[test]
fn line_nodes_follow_entry_count() {
    assert_eq!(sync_debug_lines(1, 3), LineSync::Spawn(2));
    assert_eq!(sync_debug_lines(5, 2), LineSync::Despawn { from: 2, to: 5 });
    assert_eq!(sync_debug_lines(2, 2), LineSync::Keep);
}

#[test]
fn entries_clone_with_label() {
    let e = DebugEntry { label: Some("L".to_string()), value: "v".to_string() };
    let c = e.clone();
    assert_eq!(c.label.as_deref(), Some("L"));
    assert_eq!(c.value, "v");
}
