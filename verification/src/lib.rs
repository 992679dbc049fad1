//! Reactive spreadsheet evaluation engine.
//!
//! Cells hold source strings; the engine keeps a cache of computed values,
//! tracks which cell consulted which, invalidates downstream cells on edit,
//! detects reference cycles, and evaluates scripts through an embedded Lua
//! interpreter driven over a coroutine yield/resume protocol.

pub mod csv;
pub mod engine;
pub mod ext;
pub mod file;
pub mod graph;
pub mod key;
pub mod map;
pub mod mode;
pub mod pos;
pub mod round;
pub mod script;
pub mod slice;
pub mod table;
pub mod value;
pub mod view;
