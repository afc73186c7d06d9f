use std::collections::HashMap;

use opennote::assets::{language_of_asset, load_profile, AssetsCollection, LanguageProfile};
use opennote::block_tasks::{
    block_task_result, collect_built, count_task, export_file_name, import_candidates, md_file_name,
    reparent_blocks, update_parent_results, Block, next_flow_step, start_flow, TaskFlowAction, TaskFlowEvent,
    TaskFlowStage,
};
use opennote::embedder::{
    attach_vectors, hub_endpoint, is_video_extension, join_batch_results, make_batches, next_lookup,
    query_vector, shard_filenames, weight_map_files, first_available, LookupFailure, Dtype, DownloadOutcome, EmbeddedPayload, EmbeddingResult, Lookup, Native,
    HUGGINGFACE_CHINESE_MIRROR,
};
use opennote::ids::{parse_block_ids, read_filter, BlockQuery};
use opennote::log_writer::WindowLogWriter;
use opennote::states::{build_servers, BlockNode, RemoteServerConfiguration, ServerBlocks, States};
use opennote::tracker::TaskType;

#[test]
fn batches_close_when_full() {
    assert_eq!(make_batches(vec![1, 2, 3, 4, 5], 2), vec![vec![1, 2], vec![3, 4], vec![5]]);
    assert_eq!(make_batches(vec![1, 2], 2), vec![vec![1, 2]]);
    assert_eq!(make_batches(Vec::<i32>::new(), 3), Vec::<Vec<i32>>::new());
    assert_eq!(make_batches(vec![1, 2, 3], 0), vec![vec![], vec![1, 2, 3]]);
}

#[test]
fn vectors_attach_in_order() {
    let payloads = vec![
        EmbeddedPayload { id: 1, texts: "a".to_string(), vector: vec![0.0f32] },
        EmbeddedPayload { id: 2, texts: "b".to_string(), vector: vec![] },
    ];
    let out = attach_vectors(payloads, vec![vec![1.0f32, 2.0]]);
    assert_eq!(out[0].vector, vec![1.0f32, 2.0]);
    assert_eq!(out[1].vector, Vec::<f32>::new());
    assert_eq!(out[1].texts, "b");
}

#[test]
fn batch_results_join_or_fail_first() {
    let ok: Vec<Result<Vec<i32>, String>> = vec![Ok(vec![1]), Ok(vec![]), Ok(vec![2, 3])];
    assert_eq!(join_batch_results(ok), Ok(vec![1, 2, 3]));
    let bad: Vec<Result<Vec<i32>, String>> = vec![Ok(vec![1]), Err("x".to_string()), Err("y".to_string())];
    assert_eq!(join_batch_results(bad), Err("x".to_string()));
}

#[test]
fn native_keeps_dense_vectors_only() {
    assert!(!Native::<()>::needs_model(0));
    assert!(Native::<()>::needs_model(2));
    let dense: Vec<EmbeddingResult<Vec<f32>, ()>> = vec![EmbeddingResult::DenseVector(vec![1.0])];
    assert_eq!(Native::<()>::dense_vectors(dense), Some(vec![vec![1.0f32]]));
    let multi: Vec<EmbeddingResult<Vec<f32>, ()>> =
        vec![EmbeddingResult::DenseVector(vec![1.0]), EmbeddingResult::MultiVector(())];
    assert!(Native::<()>::dense_vectors(multi).is_none());
    assert_eq!(query_vector(vec![vec![0.5f32]]), Some(vec![0.5f32]));
    assert_eq!(query_vector::<f32>(vec![vec![]]), None);
    assert_eq!(query_vector::<f32>(vec![]), None);
}

#[test]
fn video_extensions_ignore_ascii_case() {
    assert!(is_video_extension("MP4"));
    assert!(is_video_extension("webm"));
    assert!(!is_video_extension("mp3"));
    assert!(!is_video_extension("mp44"));
    assert_ne!(Dtype::F16, Dtype::BF16);
}

#[test]
fn model_download_choices() {
    assert_eq!(hub_endpoint(true, HUGGINGFACE_CHINESE_MIRROR), None);
    assert_eq!(hub_endpoint(false, HUGGINGFACE_CHINESE_MIRROR), Some("https://hf-mirror.com"));
    assert!(matches!(next_lookup::<u8, u8>(DownloadOutcome::Found(1)), Lookup::Done(1)));
    assert!(matches!(next_lookup::<u8, u8>(DownloadOutcome::Missing(2)), Lookup::TryNext(2)));
    assert!(matches!(next_lookup::<u8, u8>(DownloadOutcome::Failed(3)), Lookup::Stop(3)));
    let names = vec!["b.safetensors".to_string(), "a.safetensors".to_string(), "b.safetensors".to_string()];
    assert_eq!(shard_filenames(names), vec!["a.safetensors".to_string(), "b.safetensors".to_string()]);
}

#[test]
fn md_file_names_replace_the_extension() {
    assert_eq!(md_file_name("notes.v2").as_deref(), Some("notes.md"));
    assert_eq!(md_file_name("notes").as_deref(), Some("notes.md"));
    assert_eq!(md_file_name(".bashrc").as_deref(), Some(".bashrc.md"));
    assert_eq!(md_file_name("abc.").as_deref(), Some("abc.md"));
    assert_eq!(md_file_name(""), None);
    assert_eq!(md_file_name(".."), None);
    for name in ["notes.v2", "notes", ".bashrc", "abc.", "a.b.c"] {
        let expected = std::path::Path::new("dir").join(name).with_extension("md");
        assert_eq!(Some(expected.file_name().unwrap().to_str().unwrap()), md_file_name(name).as_deref());
    }
}

#[test]
fn exported_names_are_sanitized() {
    assert_eq!(export_file_name("a/b:c?").as_deref(), Some("abc.md"));
    assert_eq!(export_file_name("Meeting notes").as_deref(), Some("Meeting notes.md"));
    assert_eq!(export_file_name("///"), None);
    assert_eq!(export_file_name("..."), None);
    assert_eq!(export_file_name("Contact").as_deref(), Some("Contact.md"));
    assert_eq!(export_file_name("Null hypothesis").as_deref(), Some("Null hypothesis.md"));
    assert_eq!(export_file_name("tab\there.v1").as_deref(), Some("tabhere.md"));
    let long = "b".repeat(300);
    let expected = format!("{}.md", "b".repeat(255));
    assert_eq!(export_file_name(&long).as_deref(), Some(expected.as_str()));
}

#[test]
fn task_messages_and_results() {
    let t = count_task("Importing {} blocks", 3, TaskType::ImportNBlocks, true);
    assert_eq!(t.message, "Importing 3 blocks");
    assert!(t.long_running);
    let ok = block_task_result(9, TaskType::ImportNBlocks, Ok(()), "Imported {} blocks", "Import failed: {}", 3);
    assert!(ok.status);
    assert_eq!(ok.message, "Imported 3 blocks");
    let err = block_task_result(9, TaskType::ImportNBlocks, Err("disk".to_string()), "Imported {} blocks", "Import failed: {}", 3);
    assert!(!err.status);
    assert_eq!(err.message, "Import failed: disk");
    assert_eq!(err.id, 9);
}

#[test]
fn reparenting_reports_one_outcome() {
    let rs = update_parent_results(4, 2, Err("offline".to_string()));
    assert_eq!(rs.len(), 1);
    assert!(!rs[0].status);
    assert_eq!(rs[0].message, "Block parent update failed due to offline");
    let rs = update_parent_results(4, 2, Ok(()));
    assert_eq!(rs.len(), 1);
    assert!(rs[0].status);
    assert_eq!(rs[0].message, "Updated parent for 2 blocks");
    let blocks = vec![Block { id: 1, parent_id: Some(3), title: "t".to_string(), text: String::new(), payloads: () }];
    let moved = reparent_blocks(blocks, None);
    assert_eq!(moved[0].parent_id, None);
    assert_eq!(moved[0].title, "t");
}

#[test]
fn import_skips_paths_without_names_and_stops_at_first_failure() {
    let c = import_candidates(vec![Some("a.md".to_string()), None, Some("b.md".to_string())]);
    assert_eq!(c, vec![(0, "a.md".to_string()), (2, "b.md".to_string())]);
    assert_eq!(collect_built::<u8>(vec![Ok(1), Ok(2)]), Ok(vec![1, 2]));
    assert_eq!(collect_built::<u8>(vec![Ok(1), Err("bad".to_string()), Err("worse".to_string())]), Err("bad".to_string()));
}

#[test]
fn asset_paths_name_languages() {
    assert_eq!(language_of_asset("languages/en.json").as_deref(), Some("en"));
    assert_eq!(language_of_asset("languages/languages/zh.json.json").as_deref(), Some("zh"));
    assert_eq!(language_of_asset("x/languages/fr.json").as_deref(), Some("x/languages/fr"));
    assert_eq!(language_of_asset("icons/app.svg"), None);
}

#[test]
fn language_profiles_replace_and_look_up() {
    let mut assets = AssetsCollection::new();
    assets.insert("en".to_string(), LanguageProfile { entries: vec![("k".to_string(), "v1".to_string())] });
    assets.insert("en".to_string(), LanguageProfile { entries: vec![("k".to_string(), "v2".to_string())] });
    assets.insert("fr".to_string(), LanguageProfile { entries: vec![] });
    assert_eq!(assets.language_profiles.len(), 2);
    let en = assets.get_profile("en").unwrap();
    assert_eq!(en.get("k").map(|s| s.as_str()), Some("v2"));
    assert!(en.get("missing").is_none());
    assert!(assets.get_profile("de").is_none());
}

#[test]
fn log_events_are_sent_whole() {
    let (tx, rx) = std::sync::mpsc::sync_channel::<String>(4);
    let writer = WindowLogWriter::new(tx);
    let mut event = writer.make_writer();
    assert_eq!(event.write(b"line one\n"), 9);
    event.write("línea".as_bytes());
    event.flush();
    assert_eq!(event.finish(), Ok(true));
    assert_eq!(rx.try_recv().unwrap(), "line one\nlínea");
    let empty = writer.make_writer();
    assert_eq!(empty.finish(), Ok(false));
    let mut bad = writer.make_writer();
    bad.write(&[0x61, 0xff]);
    assert_eq!(bad.message().as_deref(), Some("a\u{fffd}"));
}

#[test]
fn refused_log_events_come_back() {
    let (tx, rx) = std::sync::mpsc::sync_channel::<String>(1);
    let writer = WindowLogWriter::new(tx);
    let mut first = writer.make_writer();
    first.write(b"first");
    assert_eq!(first.finish(), Ok(true));
    let mut second = writer.make_writer();
    second.write(b"second");
    assert_eq!(second.finish(), Err("second".to_string()));
    drop(rx);
    let mut third = writer.make_writer();
    third.write(b"third");
    assert_eq!(third.finish(), Err("third".to_string()));
}

#[test]
fn block_ids_parse_or_name_the_bad_one() {
    let ids = parse_block_ids(vec![
        "67e55044-10b1-426f-9247-bb680e5fe0c8".to_string(),
        "67e5504410b1426f9247bb680e5fe0c8".to_string(),
    ])
    .ok()
    .unwrap();
    assert_eq!(ids, vec![0x67e5504410b1426f9247bb680e5fe0c8u128; 2]);
    let e = parse_block_ids(vec!["67e55044-10b1-426f-9247-bb680e5fe0c8".to_string(), "nope".to_string()])
        .err()
        .unwrap();
    assert_eq!(e.message(), "Invalid block ID `nope`");
    assert!(matches!(read_filter(vec![]), BlockQuery::All));
    assert!(matches!(read_filter(vec![1]), BlockQuery::ByIds(v) if v == vec![1]));
}

fn node(title: &str, parent: Option<u128>) -> BlockNode {
    BlockNode { title: title.to_string(), parent_id: parent }
}

#[test]
fn states_find_blocks_and_servers() {
    let mut local = HashMap::new();
    local.insert(1, node("Root", None));
    local.insert(2, node("Child", Some(1)));
    let mut remote = HashMap::new();
    remote.insert(3, node("Remote child", Some(1)));
    let mut states = States::new(vec![
        ServerBlocks { name: "Local".to_string(), connection_string: String::new(), password: String::new(), shared_key: [0; 32], blocks: local },
        ServerBlocks { name: "Remote".to_string(), connection_string: String::new(), password: String::new(), shared_key: [0; 32], blocks: remote },
    ]);
    let mut children = states.find_block_children_ids(1);
    children.sort();
    assert_eq!(children, vec![2, 3]);
    let mut all = states.get_all_blocks_ids();
    all.sort();
    assert_eq!(all, vec![1, 2, 3]);
    assert_eq!(states.get_servers_by_block_ids(&vec![3, 42]), vec![1]);
    assert_eq!(states.get_servers_by_block_ids(&vec![42]), vec![0]);
    assert_eq!(states.get_servers_by_block_ids(&vec![]), vec![0]);
    assert_eq!(states.get_block(&2).map(|b| b.title.as_str()), Some("Child"));
    assert!(states.get_block(&7).is_none());
    assert_eq!(states.get_active_server_name(5), "Local");
    states.set_active_server(5, "Remote".to_string());
    assert_eq!(states.get_active_server_name(5), "Remote");
    states.hard_update_blocks("Remote", vec![(8, node("New", None)), (8, node("Newer", None))]);
    assert_eq!(states.get_block(&8).map(|b| b.title.as_str()), Some("Newer"));
    assert!(states.get_block(&3).is_none());
}

#[test]
fn states_list_a_servers_blocks_and_the_active_server() {
    let mut local = HashMap::new();
    local.insert(1, node("Root", None));
    local.insert(2, node("Child", Some(1)));
    let mut states = States::new(vec![
        ServerBlocks { name: "Local".to_string(), connection_string: String::new(), password: String::new(), shared_key: [0; 32], blocks: local },
        ServerBlocks { name: "Remote".to_string(), connection_string: String::new(), password: String::new(), shared_key: [0; 32], blocks: HashMap::new() },
    ]);
    let mut listed: Vec<(u128, String, Option<u128>)> = states
        .get_all_blocks_by_server("Local")
        .into_iter()
        .map(|(id, b)| (id, b.title, b.parent_id))
        .collect();
    listed.sort();
    assert_eq!(listed, vec![(1, "Root".to_string(), None), (2, "Child".to_string(), Some(1))]);
    assert!(states.get_all_blocks_by_server("Remote").is_empty());
    assert!(states.get_all_blocks_by_server("Elsewhere").is_empty());
    let (name, position) = states.get_active_server(9);
    assert_eq!((name.as_str(), position), ("Local", 0));
    states.set_active_server(9, "Remote".to_string());
    let (name, position) = states.get_active_server(9);
    assert_eq!((name.as_str(), position), ("Remote", 1));
}

fn remote(connection: &str, password: &str) -> RemoteServerConfiguration {
    RemoteServerConfiguration {
        connection_string: connection.to_string(),
        password: password.to_string(),
        shared_key: [7; 32],
    }
}

#[test]
fn registry_always_has_the_local_server_last() {
    let servers = build_servers(vec![
        ("Office".to_string(), remote("https://office", "pw")),
        ("Local".to_string(), remote("https://shadow", "x")),
    ]);
    let summary: Vec<(&str, &str, &str, usize)> = servers
        .iter()
        .map(|s| (s.name.as_str(), s.connection_string.as_str(), s.password.as_str(), s.blocks.len()))
        .collect();
    assert_eq!(summary, vec![("Office", "https://office", "pw", 0), ("Local", "", "", 0)]);
    assert_eq!(servers[0].shared_key, [7; 32]);
    assert_eq!(servers[1].shared_key, [0; 32]);
    let only_local = build_servers(Vec::new());
    assert_eq!(only_local.len(), 1);
    assert_eq!(only_local[0].name, "Local");

    let mut states = States::new(Vec::new());
    states.set_active_server(3, "Office".to_string());
    states.update_servers(vec![("Office".to_string(), remote("https://office", "pw"))]);
    let (name, position) = states.get_active_server(3);
    assert_eq!((name.as_str(), position), ("Office", 0));
    assert_eq!(states.server_name_of_block(77), "Local");
}

#[test]
fn block_ids_repeat_once_per_holding_server() {
    let mut first = HashMap::new();
    first.insert(5, node("Shared", Some(1)));
    first.insert(6, node("Own", None));
    let mut second = HashMap::new();
    second.insert(5, node("Shared copy", Some(1)));
    let states = States::new(vec![
        ServerBlocks { name: "Local".to_string(), connection_string: String::new(), password: String::new(), shared_key: [0; 32], blocks: first },
        ServerBlocks { name: "Remote".to_string(), connection_string: String::new(), password: String::new(), shared_key: [0; 32], blocks: second },
    ]);
    let mut all = states.get_all_blocks_ids();
    all.sort();
    assert_eq!(all, vec![5, 5, 6]);
    assert_eq!(states.find_block_children_ids(1), vec![5, 5]);
}

#[test]
fn language_files_load_into_profiles() {
    let mut c = AssetsCollection::new();
    assert_eq!(load_profile(&mut c, "languages/en.json", br#"{"hello": "Hello", "bye": "Bye"}"#), Ok(true));
    assert_eq!(load_profile(&mut c, "icons/app.json", b"not json"), Ok(false));
    assert_eq!(load_profile(&mut c, "languages/fr.json", b"[1, 2]"), Err("languages/fr.json".to_string()));
    assert_eq!(c.language_profiles.len(), 1);
    let en = c.get_profile("en").unwrap();
    assert_eq!(en.get("hello").map(|s| s.as_str()), Some("Hello"));
    assert_eq!(en.entries.len(), 2);
    assert_eq!(load_profile(&mut c, "languages/en.json", br#"{"hello": "Hi"}"#), Ok(true));
    let en = c.get_profile("en").unwrap();
    assert_eq!(en.get("hello").map(|s| s.as_str()), Some("Hi"));
    assert!(en.get("bye").is_none());
    assert_eq!(c.language_profiles.len(), 1);
}

#[test]
fn index_lists_its_shards_once_in_order() {
    let index = br#"{"metadata": {}, "weight_map": {"a": "m-2.safetensors", "b": "m-1.safetensors", "c": "m-1.safetensors", "d": 3}}"#;
    assert_eq!(
        weight_map_files(index),
        Some(vec!["m-1.safetensors".to_string(), "m-2.safetensors".to_string()])
    );
    assert_eq!(weight_map_files(b"{}"), None);
    assert_eq!(weight_map_files(br#"{"weight_map": []}"#), None);
    assert_eq!(weight_map_files(b"not json"), None);
}

#[test]
fn first_available_candidate_wins() {
    let r = first_available::<u8, &str>(vec![DownloadOutcome::Missing("a"), DownloadOutcome::Found(1), DownloadOutcome::Failed("x")]);
    assert!(matches!(r, Ok(1)));
    let r = first_available::<u8, &str>(vec![DownloadOutcome::Missing("a"), DownloadOutcome::Failed("x"), DownloadOutcome::Found(2)]);
    assert!(matches!(r, Err(LookupFailure::Failed("x"))));
    let r = first_available::<u8, &str>(vec![DownloadOutcome::Missing("a"), DownloadOutcome::Missing("b")]);
    assert!(matches!(r, Err(LookupFailure::LastMissing("b"))));
    let r = first_available::<u8, &str>(Vec::new());
    assert!(matches!(r, Err(LookupFailure::NoCandidates)));
}

#[test]
fn block_task_flow_stores_after_preparing_and_refreshes_after_storing() {
    let (stage, action) = start_flow(2);
    assert_eq!(action, TaskFlowAction::PrepareNext);
    let (stage, action) = next_flow_step(stage, TaskFlowEvent::Prepared, true);
    assert_eq!(action, TaskFlowAction::PrepareNext);
    let (stage, action) = next_flow_step(stage, TaskFlowEvent::Prepared, true);
    assert_eq!((stage, action), (TaskFlowStage::Storing, TaskFlowAction::Store));
    let (stage, action) = next_flow_step(stage, TaskFlowEvent::Stored, true);
    assert_eq!((stage, action), (TaskFlowStage::Finished, TaskFlowAction::ReportSuccessAndRefresh));
    let (_, action) = next_flow_step(TaskFlowStage::Preparing { remaining: 1 }, TaskFlowEvent::PreparationFailed, false);
    assert_eq!(action, TaskFlowAction::Stop);
    let (_, action) = next_flow_step(TaskFlowStage::Preparing { remaining: 3 }, TaskFlowEvent::PreparationFailed, true);
    assert_eq!(action, TaskFlowAction::ReportFailure);
    let (_, action) = next_flow_step(TaskFlowStage::Storing, TaskFlowEvent::StoreFailed, true);
    assert_eq!(action, TaskFlowAction::ReportFailure);
    assert_eq!(start_flow(0), (TaskFlowStage::Storing, TaskFlowAction::Store));
}
