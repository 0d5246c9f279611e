//! Backups of the settings of apps: configuration, paths, exclude rules, names,
//! history, summaries and the course of a backup.
//!
//! Everything here computes on plain values. Reading and writing files, walking
//! through directories, compressing and threads are left to the program around
//! it, which hands in what it found and does what it is told.

pub mod appid;
pub mod archive;
pub mod backup;
pub mod checksum;
pub mod cli;
pub mod clock;
pub mod commands;
pub mod config;
pub mod course;
pub mod events;
pub mod excludes;
pub mod history;
pub mod job;
pub mod pack;
pub mod packer;
pub mod pathres;
pub mod paths;
pub mod platform;
pub mod scan;
pub mod summary;
pub mod table;
pub mod text;

pub use backup::{AppOutcome, BackupOptions, BackupReport};
pub use config::{generate_app_id, load_config, App, BackupSettings, CleanupMode, Config, Format};
pub use events::{AppResult, Event, LogLevel};
pub use platform::Platform;
