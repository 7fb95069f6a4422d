//! Synchronisation engine for dotenv files: a layout-preserving parser with
//! shell-style parameter expansion, a span-aware writer, and the decision
//! procedure that reconciles a local and a remote copy of a value.
pub mod blob;
pub mod document;
pub mod expand;
pub mod grammar;
pub mod laws;
pub mod names;
pub mod options;
pub mod plan;
pub mod roundtrip;
pub mod sync;
pub mod text;
pub mod unescape;
pub mod writer;

pub use document::{DotenvFile, ParseError};
pub use expand::{expand, Expand};
pub use names::{NameMap, VarMap};
pub use sync::{Choice, SkipReason, SyncMode, SyncType, Timestamp};
pub use unescape::{unescape, Unescape};
pub use writer::escape;
