//! The logic of Learnminal, a terminal with a chat overlay that explains what
//! happens on screen.

pub mod actions;
pub mod docs_fallback;
pub mod draw;
pub mod explain;
pub mod grid_extractor;
pub mod ipc_client;
pub mod journal;
pub mod json;
pub mod layout;
pub mod manpage;
pub mod ollama;
pub mod overlay;
pub mod path;
pub mod prompt;
pub mod read_exec;
pub mod requests;
pub mod session;
pub mod settings;
pub mod sysinfo;
pub mod text;
pub mod types;
pub mod verify;
pub mod web_search;
