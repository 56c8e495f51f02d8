//! A document-section editor for Markdown text.
//!
//! Given a document and a literal heading text, the engine locates the
//! heading's exact span (the heading itself plus all nested sub-sections
//! beneath it) and either replaces that span's body or appends a new
//! top-level section when the heading does not exist.
//!
//! Documents are byte strings; the engine performs a line-classification
//! scan, treating a line as an ATX heading (`#`-prefixed), a Setext heading
//! (text underlined by `=` or `-`), or plain text.

pub mod text;
pub mod headings;
pub mod markdown;
pub mod laws;
