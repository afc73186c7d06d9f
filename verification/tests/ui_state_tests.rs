use opennote::focus::FocusStack;
use opennote::highlight::{highlight_keyword_ranges, is_blank};
use opennote::log_entry::{LogEntry, SpanStyle};
use opennote::selection::{collect_selections, DraggedItem, TreeSelection};
use opennote::states::{BlockNode, ServerBlocks, States};
use opennote::tabs::{tab_labels, PaneEvent, PaneTabs, TabStates};
use opennote::tracker::{get_notification_type, NotificationKind, TaskInformation, TaskResult, TaskTracker, TaskType};

#[test]
fn highlight_ranges_merge_overlapping_and_touching_matches() {
    assert_eq!(highlight_keyword_ranges("Hello World", "world"), vec![(6, 11)]);
    assert_eq!(highlight_keyword_ranges("abcabc", "bc ca"), vec![(1, 6)]);
    assert_eq!(highlight_keyword_ranges("abc", "  "), Vec::<(usize, usize)>::new());
    assert_eq!(highlight_keyword_ranges("Ünïcode NOTE", "note"), vec![(10, 14)]);
}

#[test]
fn blank_texts() {
    assert!(is_blank(""));
    assert!(is_blank(" \n\u{a0}"));
    assert!(!is_blank(" a "));
}

#[test]
fn ansi_log_line_is_split_into_styled_runs() {
    let entry = LogEntry::from_ansi("\u{1b}[1mINFO\u{1b}[0m started\n");
    assert_eq!(entry.get_text(), "INFO started");
    let h = entry.get_highlights();
    assert_eq!(h.len(), 2);
    assert_eq!((h[0].start, h[0].end), (0, 4));
    assert_eq!(h[0].style, SpanStyle { bold: true, color: None });
    assert_eq!((h[1].start, h[1].end), (4, 12));
    assert_eq!(h[1].style, SpanStyle::plain());
}

#[test]
fn ansi_colours_and_dim() {
    let entry = LogEntry::from_ansi("\u{1b}[31mred\u{1b}[2mdim\u{1b}[22mplain");
    assert_eq!(entry.get_text(), "reddimplain");
    let h = entry.get_highlights();
    assert_eq!(h[0].style.color, Some(0xff5555));
    assert_eq!(h[1].style.color, Some(0xa0a6ad));
    assert_eq!(h[2].style, SpanStyle::plain());
}

#[test]
fn tabs_open_switch_and_close() {
    let mut pane = PaneTabs::new();
    assert_eq!(pane.open_or_activate_tab(1), PaneEvent::RequestFocus);
    pane.open_or_activate_tab(2);
    pane.open_or_activate_tab(3);
    assert_eq!(pane.opened_block_ids, vec![1, 2, 3]);
    assert_eq!(pane.selected_block_id, Some(3));
    pane.activate_next_tab();
    assert_eq!(pane.selected_block_id, Some(1));
    pane.activate_previous_tab();
    assert_eq!(pane.selected_block_id, Some(3));
    let effects = pane.close_tab(3);
    assert_eq!(pane.opened_block_ids, vec![1, 2]);
    assert_eq!(pane.selected_block_id, Some(2));
    assert_eq!(effects.focus, Some(PaneEvent::RequestFocus));
    pane.close_tab(1);
    pane.close_tab(2);
    assert!(pane.opened_block_ids.is_empty());
    assert_eq!(pane.selected_block_id, None);
}

#[test]
fn closing_a_block_without_a_tab_changes_nothing() {
    let mut pane = PaneTabs::new();
    pane.open_or_activate_tab(5);
    pane.open_or_activate_tab(6);
    let effects = pane.close_tab(42);
    assert_eq!(pane.opened_block_ids, vec![5, 6]);
    assert_eq!(pane.selected_block_id, Some(6));
    assert_eq!((effects.focus, effects.window_edited), (None, None));
    let mut single = PaneTabs::new();
    single.open_or_activate_tab(5);
    single.close_tab(42);
    assert_eq!(single.opened_block_ids, vec![5]);
    pane.close_tab(5);
    assert_eq!(pane.opened_block_ids, vec![6]);
}

#[test]
fn tab_save_states_drive_edited_flag() {
    let mut states = TabStates::new();
    states.create_tab_state(&1);
    states.create_tab_state(&2);
    assert!(states.has_tab_saved(&1));
    assert_eq!(states.update_tab_save_state(&1, false), Some(true));
    assert!(states.has_unsaved_contents());
    assert_eq!(states.update_tab_save_state(&2, true), None);
    assert_eq!(states.update_tab_save_state(&1, true), Some(false));
    assert_eq!(states.remove_all_tab_state(), Some(false));
    assert!(!states.does_tab_exist(&1));
}

#[test]
fn tree_multi_selection_toggles() {
    let mut sel = TreeSelection::new();
    sel.click(1, true, false);
    sel.click(2, true, false);
    assert!(sel.is_multi_selected(1) && sel.is_multi_selected(2));
    sel.click(1, true, false);
    assert!(!sel.is_multi_selected(1));
    sel.right_click(9);
    assert_eq!(sel.selected_block, None);
    let deleted = sel.take_blocks_to_delete();
    assert_eq!(deleted, vec![2]);
    sel.right_click(9);
    assert_eq!(sel.selected_block, Some(9));
    assert_eq!(sel.parent_for_new_block(), Some(9));
    assert_eq!(sel.take_blocks_to_delete(), vec![9]);
}

#[test]
fn dropping_moves_dragged_blocks() {
    let mut sel = TreeSelection::new();
    let dragged = DraggedItem { label: None, owner_pane_id: None, block_id: Some(4), selections: vec![5, 6] };
    assert_eq!(collect_selections(&dragged), vec![4, 5, 6]);
    assert!(sel.drop_on(Some(4), &dragged).is_none());
    let update = sel.drop_on(None, &dragged).unwrap();
    assert_eq!(update.new_parent, None);
    assert_eq!(update.block_ids, vec![4, 5, 6]);
}

#[test]
fn tracker_round_trip() {
    let mut tracker = TaskTracker::new();
    let task = TaskInformation::new("Working".to_string(), TaskType::ImportNBlocks, true);
    let id = task.id;
    tracker.register(7, task);
    assert!(tracker.has_pending_items(7));
    tracker.register_result(7, TaskResult::new(id, true, "Done".to_string(), TaskType::ImportNBlocks, None));
    assert!(tracker.has_pending_task_results(7, Some(TaskType::ImportNBlocks)));
    let r = tracker.get_task_result(7, TaskType::ImportNBlocks).unwrap();
    assert_eq!(r.message, "Done");
    assert!(tracker.get_task_result(7, TaskType::ImportNBlocks).is_none());
    assert!(!tracker.has_pending_items(7));
    assert_eq!(get_notification_type(false), NotificationKind::Error);
}

#[test]
fn results_of_unknown_tasks_are_dropped() {
    let mut tracker = TaskTracker::new();
    let task = TaskInformation::new("Working".to_string(), TaskType::Uncategorized, false);
    let id = task.id;
    tracker.register(1, task);
    assert_eq!(tracker.complete(1, id).map(|t| t.id), Some(id));
    tracker.register_result(1, TaskResult::new(id, true, "Done".to_string(), TaskType::Uncategorized, None));
    assert!(!tracker.has_pending_task_results(1, None));
}

#[test]
fn focus_returns_to_previous_holder() {
    let mut stack: FocusStack<&str> = FocusStack::new();
    stack.advance_focus(Some("editor"));
    stack.advance_focus(None);
    assert_eq!(stack.return_focus("workspace"), "editor");
    assert_eq!(stack.return_focus("workspace"), "workspace");
}

#[test]
fn search_string_is_handed_out_once() {
    let mut pane = PaneTabs::new();
    assert_eq!(pane.pop_search_string(), None);
    pane.set_search_string("needle".to_string());
    pane.open_or_activate_tab(4);
    assert_eq!(pane.pop_search_string(), Some("needle".to_string()));
    assert_eq!(pane.pop_search_string(), None);
}

#[test]
fn completing_a_task_drops_its_earlier_results() {
    let mut tracker = TaskTracker::new();
    let task = |m: &str| TaskInformation {
        id: 42,
        message: m.to_string(),
        task_type: TaskType::ExportNBlocks,
        long_running: false,
    };
    tracker.register(3, task("first"));
    tracker.register_result(3, TaskResult::new(42, true, "old".to_string(), TaskType::ExportNBlocks, None));
    tracker.register(3, task("second"));
    tracker.register_result(3, TaskResult::new(42, true, "new".to_string(), TaskType::ExportNBlocks, None));
    let r = tracker.get_task_result(3, TaskType::ExportNBlocks).unwrap();
    assert_eq!(r.message, "new");
    assert!(tracker.get_task_result(3, TaskType::ExportNBlocks).is_none());
    assert!(!tracker.has_pending_items(3));
}

#[test]
fn tab_bar_shows_titles_selection_and_unsaved_marks() {
    let mut blocks = std::collections::HashMap::new();
    blocks.insert(1u128, BlockNode { title: "One".to_string(), parent_id: None });
    let states = States::new(vec![ServerBlocks {
        name: "Local".to_string(),
        connection_string: String::new(),
        password: String::new(),
        shared_key: [0; 32],
        blocks,
    }]);
    let mut pane = PaneTabs::new();
    pane.open_or_activate_tab(1);
    pane.open_or_activate_tab(2);
    pane.opened_tab_states.update_tab_save_state(&2, false);
    let labels: Vec<(u128, String, bool, bool)> = tab_labels(&pane, &states)
        .into_iter()
        .map(|l| (l.block_id, l.title, l.selected, l.unsaved))
        .collect();
    assert_eq!(labels, vec![(1, "One".to_string(), false, false), (2, String::new(), true, true)]);
}

#[test]
fn single_selection_joins_the_multi_selection() {
    let mut sel = TreeSelection::new();
    sel.right_click(4);
    assert_eq!(sel.selected_block, Some(4));
    sel.click(5, true, false);
    assert_eq!(sel.selected_block, None);
    assert!(sel.is_multi_selected(4) && sel.is_multi_selected(5));
    let mut again = TreeSelection::new();
    again.right_click(4);
    again.click(4, true, false);
    assert_eq!(again.selected_block, None);
    assert!(!again.is_multi_selected(4));
}
