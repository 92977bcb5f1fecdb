//! Verified core of the `interpreter` shell-command rewriter.

pub mod cli;
pub mod config;
pub mod init_tui;
pub mod install;
pub mod lines;
pub mod llm_client;
pub mod model_list;
pub mod shell;
pub mod text;
