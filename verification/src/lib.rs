//! A content-addressed store of tagged notes with tag and full-text indices.

pub mod commands;
pub mod digest;
pub mod model;
pub mod order;
pub mod prompt;
pub mod resource;
pub mod sorted;
pub mod state;
pub mod str_map;
pub mod str_set;
pub mod sync;
pub mod tokenizer;

pub use commands::{index_command, list_command, new_command, remove_command, search_command,
    tag_command};
pub use resource::Resource;
pub use state::State;
pub use str_set::StrSet;
pub use sync::SyncAction;
