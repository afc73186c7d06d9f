//! Verified core logic of the OpenNote desktop note-taking application.
pub mod assets;
pub mod block_tasks;
pub mod breadcrumb;
pub mod editor_session;
pub mod embedder;
pub mod focus;
pub mod highlight;
pub mod ids;
pub mod key_mappings;
pub mod keys_list;
pub mod log_entry;
pub mod log_window;
pub mod log_writer;
pub mod ranking;
pub mod routing;
pub mod search;
pub mod selection;
pub mod states;
pub mod text;
pub mod tabs;
pub mod tracker;
pub mod utf8_text;
pub mod window_title;
