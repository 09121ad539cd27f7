pub mod config;
pub mod counters;
pub mod fs_storage;
pub mod init;
pub mod lock;
pub mod paths;

pub use config::{HistoryConfig, WorkspaceConfig};
pub use counters::Counters;
pub use fs_storage::FsStorage;
