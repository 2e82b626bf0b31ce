//! Natural language to shell command: the verified core of the `h` / `ht`
//! command-line assistant (prompt building, response parsing, session
//! history, configuration resolution and streaming decoding).

pub mod text;
pub mod path;
pub mod shell;
pub mod prompt;
pub mod testbench;
pub mod session;
pub mod config;
pub mod image;
pub mod api;
pub mod stream;
pub mod cli;
