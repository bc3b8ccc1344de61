//! Converts Markdown text to an HTML page, one line at a time.
pub mod inline;
pub mod markdown;
pub mod text;
