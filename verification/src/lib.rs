//! Line breaking for HWP paragraphs: character classes, tokenization,
//! greedy line filling, line-segment layout and section vertical positions,
//! plus the SVG-to-PDF conversion entry points.
pub mod chars;
pub mod metrics;
pub mod tokenize;
pub mod fill;
pub mod paragraph;
pub mod section;
pub mod pdf;

