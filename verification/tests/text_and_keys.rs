use opennote::key_mappings::{into_action, UiAction};
use opennote::text::{decimal_string, fill_count, fill_placeholder};
use opennote::window_title::format_window_title;

#[test]
fn fill_placeholder_replaces_every_occurrence() {
    assert_eq!(fill_placeholder("Imported {} of {}", "3"), "Imported 3 of 3");
}

#[test]
fn fill_placeholder_without_placeholder_is_unchanged() {
    assert_eq!(fill_placeholder("Done", "3"), "Done");
}

#[test]
fn fill_placeholder_scans_left_to_right() {
    assert_eq!(fill_placeholder("{{}}", "x"), "{{}}".replace("{}", "x"));
    assert_eq!(fill_placeholder("{{}}", "x"), "{x}");
}

#[test]
fn fill_placeholder_keeps_multibyte_text() {
    assert_eq!(fill_placeholder("已导入 {} 个", "é"), "已导入 é 个");
}

#[test]
fn fill_count_writes_decimal() {
    assert_eq!(fill_count("Deleted {} blocks", 12), "Deleted 12 blocks");
}

#[test]
fn decimal_string_matches_to_string() {
    for n in [0usize, 7, 10, 99, 1234, usize::MAX] {
        assert_eq!(decimal_string(n), n.to_string());
    }
}

#[test]
fn window_title_joins_present_parts() {
    assert_eq!(format_window_title(None, None, None), "OpenNote");
    assert_eq!(format_window_title(None, Some("Local"), Some("Doc")), "OpenNote - Local - Doc");
    assert_eq!(format_window_title(Some("Settings"), None, None), "OpenNote - Settings");
}

#[test]
fn into_action_finds_known_actions() {
    assert_eq!(into_action("Workspace", "ToggleSidebar").ok(), Some(UiAction::ToggleSidebar));
    assert_eq!(into_action("Workspace", "CloseActiveTab").ok(), Some(UiAction::CloseActiveTab));
    assert_eq!(into_action("Sidebar", "DeleteBlocks").ok(), Some(UiAction::DeleteBlocks));
    assert_eq!(into_action("General", "MoveLeft").ok(), Some(UiAction::MoveLeft));
    assert_eq!(into_action("Editor", "SaveDocument").ok(), Some(UiAction::SaveDocument));
}

#[test]
fn into_action_rejects_unknown_pairs() {
    let e = into_action("Sidebar", "ToggleSidebar").err().unwrap();
    assert_eq!(e.message(), "Unknown action for context 'Sidebar': ToggleSidebar");
    let e = into_action("Nowhere", "Open").err().unwrap();
    assert_eq!(e.context, "Nowhere");
    assert_eq!(e.action, "Open");
}
