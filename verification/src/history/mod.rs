pub mod commands;
pub mod hook;
pub mod manager;
pub mod types;
