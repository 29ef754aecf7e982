//! A small RESP-style wire-protocol library: a value model, a cursor-based
//! decoder with located errors, a command interpreter, and the pure part of a
//! per-connection request/response step.

pub mod commands;
pub mod laws;
pub mod parser;
pub mod server;
pub mod value;

pub use commands::RedisCommands;
pub use parser::RedisParser;
pub use value::Value;
pub use value::ValueModel;
