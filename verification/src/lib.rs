//! Verified core of an SSH connection manager: a lossless, editable model of
//! `~/.ssh/config` (with SSH Config Editor metadata), an importer that turns
//! config `Host` blocks into connection candidates, a one-way config → node
//! synchroniser, the display tree built from a config document and the
//! assembly of `ssh` command lines.
pub mod text;
pub mod types;
pub mod ssh_config_parser;
pub mod config_model;
pub mod config_laws;
pub mod sync_config;
pub mod ssh_command;
pub mod config_tree;
