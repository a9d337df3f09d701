//! Streaming extraction of package manifest paths from cargo metadata JSON.
//!
//! The text is read once, front to back.  A scanner turns it into brackets and
//! string literals, and a small walker over those events picks the value of
//! every `manifest_path` key found directly inside an element of the top-level
//! `packages` array.  No parse tree is built and no text is copied: every path
//! handed out is a slice of the input.
pub mod text;
pub mod event;
pub mod scanner;
pub mod extract;
pub mod document;
