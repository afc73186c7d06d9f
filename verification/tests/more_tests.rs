use std::collections::HashMap;

use opennote::editor_session::{content_to_show, ContentStep, EditorSession};
use opennote::keys_list::{KeyAction, KeysList};

use opennote::block_tasks::chunk_task_result;
use opennote::routing::{is_local_server, local_search_input, remote_blocks, LocalSearch, MissingSearchInput};
use opennote::search::{empty_message_key, SearchStatus, SupportedSearchMethod};
use opennote::states::{scope_label_key, BlockNode, SearchScope, ServerBlocks, States};
use opennote::text::single_line;
use opennote::tracker::{TaskInformation, TaskTracker, TaskType};
use opennote::window_title::workspace_window_title;

#[test]
fn selected_text_becomes_one_line() {
    assert_eq!(single_line("a\r\nb\nc\r"), "abc\r");
    let text = "first\nsecond\r\nthird";
    let expected: String = text.lines().map(|l| l.replace('\n', " ")).collect();
    assert_eq!(single_line(text), expected);
    assert_eq!(single_line("né\n"), "né");
}

#[test]
fn routing_decisions() {
    assert!(is_local_server("Local"));
    assert!(!is_local_server("Office"));
    assert_eq!(remote_blocks::<u8, String>(Err("down".to_string())), Vec::<u8>::new());
    assert_eq!(remote_blocks::<u8, String>(Ok(vec![1, 2])), vec![1, 2]);
    assert!(matches!(
        local_search_input::<f32>(SupportedSearchMethod::Keyword, Some("q".to_string()), None),
        Ok(LocalSearch::Keyword(q)) if q == "q"
    ));
    let missing = local_search_input::<f32>(SupportedSearchMethod::Semantic, Some("q".to_string()), None).err().unwrap();
    assert_eq!(missing, MissingSearchInput::Vector);
    assert_eq!(missing.message(), "Query vector required for semantic search");
    assert_eq!(MissingSearchInput::Query.message(), "Query string required for keyword search");
}

#[test]
fn label_keys() {
    assert_eq!(scope_label_key(SearchScope::Collection), "search_bar_scope_collection");
    assert_eq!(empty_message_key(SearchStatus::Idle, SupportedSearchMethod::Semantic), "search_bar_semantic_hint");
    assert_eq!(empty_message_key(SearchStatus::Idle, SupportedSearchMethod::Keyword), "search_bar_keyword_hint");
    assert_eq!(empty_message_key(SearchStatus::Empty, SupportedSearchMethod::Keyword), "search_bar_no_matches");
}

#[test]
fn chunking_results() {
    let ok = chunk_task_result(1, 5, Ok(serde_json::Value::Bool(true)));
    assert!(ok.status);
    assert_eq!(ok.message, "Chunking completed");
    assert_eq!(ok.task_type, TaskType::ChunkBlock { block_id: 5 });
    let err = chunk_task_result(1, 5, Err("no text".to_string()));
    assert_eq!(err.message, "Chunking failed: no text");
    assert!(err.data.is_none());
}

#[test]
fn closed_windows_are_forgotten() {
    let mut tracker = TaskTracker::new();
    tracker.register(1, TaskInformation::new("a".to_string(), TaskType::Uncategorized, false));
    tracker.register(2, TaskInformation::new("b".to_string(), TaskType::Uncategorized, false));
    tracker.retain_windows(&vec![2, 3]);
    assert!(!tracker.has_pending_items(1));
    assert!(tracker.has_pending_items(2));
}

#[test]
fn workspace_titles() {
    let mut blocks = HashMap::new();
    blocks.insert(1, BlockNode { title: "Plan".to_string(), parent_id: None });
    let mut states = States::new(vec![ServerBlocks { name: "Office".to_string(), connection_string: String::new(), password: String::new(), shared_key: [0; 32], blocks }]);
    assert_eq!(workspace_window_title(&states, Some(1), 3), "OpenNote - Office - Plan");
    assert_eq!(workspace_window_title(&states, None, 3), "OpenNote - Local");
    states.set_active_server(3, "Office".to_string());
    assert_eq!(workspace_window_title(&states, None, 3), "OpenNote - Office");
    assert_eq!(states.server_name_of_block(1), "Office");
    assert_eq!(states.server_name_of_block(2), "Local");
}

#[test]
fn command_bar_filters_by_lowercase_name() {
    let entry = |name: &str| KeyAction { action: name.len(), name: name.to_string(), key_binding: None };
    let mut list = KeysList::new(vec![entry("workspace::ToggleSidebar"), entry("workspace::CreateOneBlock"), entry("workspace::ToggleCommandBar")]);
    list.perform_search("TOGGLE");
    assert!(list.searched);
    assert_eq!(list.filtered_actions, vec![0, 2]);
    assert_eq!(list.items_count(), 3);
    assert_eq!(list.item(1).map(|a| a.name.as_str()), Some("workspace::ToggleCommandBar"));
    assert!(list.item(2).is_none());
    list.perform_search("");
    assert!(!list.searched);
    assert_eq!(list.item(1).map(|a| a.name.as_str()), Some("workspace::CreateOneBlock"));
}

#[test]
fn editor_switches_blocks_and_highlights_once() {
    let mut editor = EditorSession::new();
    assert!(matches!(editor.next_content_step(), ContentStep::Nothing));
    assert_eq!(editor.register_block(1), Some(None));
    editor.register_highlighted_text(Some("needle".to_string()));
    assert!(matches!(editor.next_content_step(), ContentStep::Load(1)));
    assert_eq!(editor.finish_load(false), Some(Some("needle".to_string())));
    assert_eq!(editor.register_block(1), None);
    editor.register_highlighted_text(Some("again".to_string()));
    assert!(matches!(editor.next_content_step(), ContentStep::Highlight(Some(t)) if t == "again"));
    assert_eq!(editor.register_block(2), Some(Some(1)));
    assert!(matches!(editor.next_content_step(), ContentStep::Load(2)));
    editor.register_highlighted_text(Some("kept".to_string()));
    editor.register_highlighted_text(None);
    assert_eq!(editor.finish_load(true), None);
    assert_eq!(editor.highlighted_text.as_deref(), Some("kept"));
    assert_eq!(content_to_show(Some("draft".to_string()), "saved".to_string()), "draft");
    assert_eq!(content_to_show(None, "saved".to_string()), "saved");
}

#[test]
fn log_window_keeps_the_newest_lines() {
    let mut lines = opennote::log_window::LogLines::new();
    assert!(!lines.drain_batch(Vec::new(), 3));
    assert!(lines.drain_batch(vec!["a".to_string(), "b".to_string()], 3));
    assert!(lines.drain_batch(vec!["c".to_string(), "d".to_string()], 3));
    let texts: Vec<String> = lines.lines.iter().map(|l| l.get_text()).collect();
    assert_eq!(texts, vec!["b".to_string(), "c".to_string(), "d".to_string()]);
}
