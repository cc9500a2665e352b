//! Review comments left on quoted lines of code, kept in an append-only log
//! of events and re-located in each file as it reads now.
//!
//! `store` folds the log into the comments still pending, `anchor` finds each
//! comment's quote in its file, `range` derives the rows a selection covers,
//! `text` holds the line and numeral handling they share, and `cli`, `mcp` and
//! `zed` hold what the command, the MCP server and the Zed extension decide.
pub mod anchor;
pub mod cli;
pub mod mcp;
pub mod range;
pub mod store;
pub mod text;
pub mod zed;

pub use anchor::{locate, pending, Anchor, AnchoredComment};
pub use range::derive_range;
pub use store::{Comment, CommentState, Event, Store};
