//! Cleaning of extracted document text and its division into overlapping
//! chunks of bounded size.

pub mod clean;
pub mod content;
pub mod document;
pub mod overlap;
pub mod paragraph;
pub mod pattern;
pub mod pipeline;
pub mod splitter;
pub mod text;
