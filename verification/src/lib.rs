//! Verified core of a code-intelligence MCP server: token accounting, savings
//! reports, markdown/AST symbol extraction, rank fusion and the text that each
//! tool answers with.

pub mod text;
pub mod select;
pub mod telemetry;
pub mod gain;
pub mod update;
pub mod chunker;
pub mod index;
pub mod tools;
pub mod server;
pub mod context;
pub mod trace;
pub mod testutil;

