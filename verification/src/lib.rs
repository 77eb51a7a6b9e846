pub mod archive;
pub mod cleanup;
pub mod config;
pub mod dictionary;
pub mod encoding;
pub mod error;
pub mod listing;
pub mod paths;
pub mod platform;
pub mod probe;
pub mod run;
pub mod setup;
pub mod sync;
pub mod text;
pub mod ui;
pub mod walk;
pub mod webdav;
pub mod yaml;
