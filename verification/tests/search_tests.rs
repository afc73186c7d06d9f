use std::collections::HashMap;

use opennote::breadcrumb::{build_search_results, distinct_block_ids, get_breadcrumb, server_block_ids, FetchedBlock, Payload};
use opennote::ranking::{block_ids_of, rank_results, score_order_key, top_by_score, RawSearchResult, SearchResult};
use opennote::search::{
    plan_server_searches, resolve_search_targets, status_after, SearchResultsList, SearchStatus,
    SupportedSearchMethod,
};
use opennote::states::{BlockNode, SearchScope, ServerBlocks, States};

fn result(server: &str, block: u128, payload: u128, score: f32, texts: &str) -> SearchResult {
    SearchResult {
        raw: RawSearchResult { block_id: block, payload_id: payload, score_bits: score.to_bits() },
        server: server.to_string(),
        texts: texts.to_string(),
        breadcrumb: String::new(),
    }
}

fn keys(v: &[SearchResult]) -> Vec<(String, u128, u128)> {
    v.iter().map(|r| (r.server.clone(), r.raw.block_id, r.raw.payload_id)).collect()
}

#[test]
fn score_key_follows_total_order() {
    let values = [f32::NEG_INFINITY, -2.5, -0.0, 0.0, 1e-30, 0.5, 3.0, f32::INFINITY];
    for a in values {
        for b in values {
            assert_eq!(score_order_key(a.to_bits()).cmp(&score_order_key(b.to_bits())), a.total_cmp(&b));
        }
    }
}

#[test]
fn ranking_orders_by_score_then_server_block_payload() {
    let out = rank_results(
        vec![result("b", 1, 1, 0.5, "x")],
        vec![result("a", 2, 1, 0.5, "y"), result("a", 1, 2, 0.9, "z"), result("a", 1, 1, 0.5, "w")],
        10,
    );
    assert_eq!(
        keys(&out),
        vec![("a".to_string(), 1, 2), ("a".to_string(), 1, 1), ("a".to_string(), 2, 1), ("b".to_string(), 1, 1)]
    );
}

#[test]
fn ranking_keeps_best_match_of_an_entry() {
    let out = rank_results(
        vec![result("a", 1, 1, 0.2, "old")],
        vec![result("a", 1, 1, 0.7, "new"), result("a", 1, 1, 0.7, "later")],
        10,
    );
    assert_eq!(out.len(), 1);
    assert_eq!(out[0].texts, "new");
}

#[test]
fn ranking_cuts_after_top_n() {
    let out = rank_results(
        Vec::new(),
        vec![result("a", 1, 1, 0.1, ""), result("a", 2, 1, 0.3, ""), result("a", 3, 1, 0.2, "")],
        2,
    );
    assert_eq!(keys(&out), vec![("a".to_string(), 2, 1), ("a".to_string(), 3, 1)]);
    assert!(rank_results(Vec::new(), vec![result("a", 1, 1, 0.1, "")], 0).is_empty());
}

#[test]
fn status_labels_and_counts() {
    assert_eq!(SearchStatus::Idle.label_key(), "search_bar_placeholder");
    assert_eq!(SearchStatus::Searching.label_key(), "search_bar_searching");
    assert_eq!(SearchStatus::Empty.label_key(), "search_bar_no_matches");
    assert_eq!(SearchStatus::SemanticUnavailable.label_key(), "search_bar_semantic_unavailable");
    assert_eq!(SearchStatus::PartialFailure.label_key(), "search_bar_partial_failure");
    assert_eq!(SearchStatus::Matches(4).label_key(), "search_bar_match_count");
    assert_eq!(SearchStatus::Matches(4).label("{} matches"), "4 matches");
    assert_eq!(SearchStatus::Empty.label("No matches"), "No matches");
}

#[test]
fn status_after_answers() {
    assert_eq!(status_after(false, true, 3), SearchStatus::Searching);
    assert_eq!(status_after(true, true, 3), SearchStatus::PartialFailure);
    assert_eq!(status_after(true, false, 0), SearchStatus::Empty);
    assert_eq!(status_after(true, false, 3), SearchStatus::Matches(3));
}

#[test]
fn blank_query_leaves_list_idle() {
    let mut list = SearchResultsList::new(SupportedSearchMethod::Keyword);
    assert_eq!(list.begin_query(" \t\u{3000}"), None);
    assert_eq!(list.status, SearchStatus::Idle);
    assert_eq!(list.active_query_id, 1);
    assert_eq!(list.begin_query("note"), Some(2));
    assert_eq!(list.status, SearchStatus::Empty);
    assert_eq!(list.query, "note");
}

#[test]
fn answers_to_old_queries_are_dropped() {
    let mut list = SearchResultsList::new(SupportedSearchMethod::Semantic);
    let first = list.begin_query("a").unwrap();
    let second = list.begin_query("ab").unwrap();
    let mut failed = false;
    assert!(!list.apply_answer(first, Some(vec![result("s", 1, 1, 0.5, "")]), true, &mut failed, 5));
    assert!(list.results.is_empty());
    assert!(list.apply_answer(second, Some(vec![result("s", 1, 1, 0.5, "")]), false, &mut failed, 5));
    assert_eq!(list.status, SearchStatus::Searching);
    assert!(list.apply_answer(second, None, true, &mut failed, 5));
    assert!(failed);
    assert_eq!(list.status, SearchStatus::PartialFailure);
    assert_eq!(list.results.len(), 1);
    list.semantic_unavailable(first);
    assert_eq!(list.status, SearchStatus::PartialFailure);
    list.semantic_unavailable(second);
    assert_eq!(list.status, SearchStatus::SemanticUnavailable);
}

fn node(title: &str, parent: Option<u128>) -> BlockNode {
    BlockNode { title: title.to_string(), parent_id: parent }
}

fn sample_states() -> States {
    let mut local = HashMap::new();
    local.insert(1, node("Root", None));
    local.insert(2, node("Child", Some(1)));
    local.insert(3, node("Other child", Some(1)));
    let mut remote = HashMap::new();
    remote.insert(9, node("Remote", None));
    States::new(vec![
        ServerBlocks { name: "Local".to_string(), connection_string: String::new(), password: String::new(), shared_key: [0; 32], blocks: local },
        ServerBlocks { name: "Remote".to_string(), connection_string: String::new(), password: String::new(), shared_key: [0; 32], blocks: remote },
    ])
}

#[test]
fn breadcrumb_walks_up_to_the_server() {
    let states = sample_states();
    let tree = &states.servers[0].blocks;
    assert_eq!(get_breadcrumb("Local", 2, "Child", Some(1), tree), "Local › Root › Child");
    assert_eq!(get_breadcrumb("Local", 1, "Root", None, tree), "Local › Root");
}

#[test]
fn breadcrumb_stops_at_missing_parent_and_cycles() {
    let mut tree = HashMap::new();
    tree.insert(1, node("A", Some(2)));
    tree.insert(2, node("B", Some(1)));
    assert_eq!(get_breadcrumb("S", 1, "A", Some(2), &tree), "S › … › B › A");
    assert_eq!(get_breadcrumb("S", 5, "X", Some(77), &tree), "S › … › X");
}

#[test]
fn search_targets_follow_the_scope() {
    let mut states = sample_states();
    assert!(resolve_search_targets(&states, None).is_none());
    let t = resolve_search_targets(&states, Some(2)).unwrap();
    assert_eq!(t.block_ids, vec![2]);
    assert_eq!(t.servers, vec![0]);
    let t = resolve_search_targets(&states, Some(77)).unwrap();
    assert_eq!((t.block_ids, t.servers), (vec![77], vec![0]));
    states.set_search_scope(SearchScope::Collection);
    let t = resolve_search_targets(&states, Some(1)).unwrap();
    let mut ids = t.block_ids.clone();
    ids.sort();
    assert_eq!(ids, vec![2, 3]);
    assert!(resolve_search_targets(&states, Some(2)).is_none());
    states.set_search_scope(SearchScope::Userspace);
    let t = resolve_search_targets(&states, None).unwrap();
    assert_eq!(t.servers, vec![0, 1]);
    assert_eq!(t.block_ids.len(), 4);
    assert_eq!(states.get_search_scope_index(), 2);
}

#[test]
fn server_searches_skip_servers_without_blocks() {
    let states = sample_states();
    let plan = plan_server_searches(&states, &vec![0, 1], &vec![9, 2, 4]);
    assert_eq!(plan, vec![(0, vec![2]), (1, vec![9])]);
    assert_eq!(server_block_ids(&states.servers[1].blocks, &vec![1, 9, 9]), vec![9, 9]);
}

#[test]
fn raw_matches_become_results() {
    let states = sample_states();
    let mut fetched = HashMap::new();
    fetched.insert(
        2,
        FetchedBlock {
            title: "Child".to_string(),
            parent_id: Some(1),
            payloads: vec![Payload { id: 20, texts: "hello".to_string() }],
        },
    );
    let raw = vec![
        RawSearchResult { block_id: 2, payload_id: 20, score_bits: 0.5f32.to_bits() },
        RawSearchResult { block_id: 2, payload_id: 21, score_bits: 0.4f32.to_bits() },
        RawSearchResult { block_id: 7, payload_id: 70, score_bits: 0.3f32.to_bits() },
    ];
    assert_eq!(distinct_block_ids(&raw), vec![2, 7]);
    let out = build_search_results("Local", raw, &fetched, &states.servers[0].blocks);
    assert_eq!(out.len(), 1);
    assert_eq!(out[0].texts, "hello");
    assert_eq!(out[0].breadcrumb, "Local › Root › Child");
    assert_eq!(out[0].server, "Local");
}

#[test]
fn server_matches_sorted_by_score_then_cut() {
    let raw = |b: u128, s: f32| RawSearchResult { block_id: b, payload_id: 0, score_bits: s.to_bits() };
    let out = top_by_score(vec![raw(1, 0.2), raw(2, 0.9), raw(3, 0.2), raw(4, 0.5)], 3);
    assert_eq!(block_ids_of(&out), vec![2, 4, 1]);
    let all = top_by_score(vec![raw(1, 0.2), raw(3, 0.2)], 10);
    assert_eq!(block_ids_of(&all), vec![1, 3]);
    assert!(top_by_score(vec![raw(1, 0.2)], 0).is_empty());
}

#[test]
fn merging_the_same_answer_again_changes_nothing() {
    let mut list = SearchResultsList::new(SupportedSearchMethod::Keyword);
    let answer = || vec![result("a", 1, 1, 0.4, "x"), result("a", 2, 1, 0.9, "y"), result("b", 3, 1, 0.1, "z")];
    list.extend_results(vec![result("a", 1, 1, 0.6, "old"), result("c", 9, 9, 0.2, "q")], 3);
    list.extend_results(answer(), 3);
    let once = keys(&list.results);
    let texts: Vec<String> = list.results.iter().map(|r| r.texts.clone()).collect();
    list.extend_results(answer(), 3);
    assert_eq!(keys(&list.results), once);
    assert_eq!(list.results.iter().map(|r| r.texts.clone()).collect::<Vec<_>>(), texts);
    list.extend_results(Vec::new(), 3);
    assert_eq!(keys(&list.results), once);
}
