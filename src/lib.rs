pub mod token;
pub mod text;
pub mod lexer;
pub mod ast;
pub mod parser;
pub mod environment;
pub mod history;
pub mod config;
pub mod glob;
pub mod expander;
pub mod executor;
pub mod builtins;
pub mod error;
pub mod repl;
pub mod roundtrip;
