//! Document post-processing engine: turns page-level OCR/layout output into a
//! document-level structure tree (text continuation, heading hierarchy,
//! image/caption association, cross-page table merging).

pub mod chars;
pub mod chunk;
pub mod table;
pub mod labels;
pub mod pyliteral;
pub mod block;
pub mod pattern;
pub mod truncation;
pub mod title;
pub mod visual;
pub mod merge;
pub mod errors;
pub mod model;
pub mod pages;
pub mod infer;
pub mod tree;
pub mod enrich;
pub mod readers;
pub mod eval;
pub mod engine;
pub mod cli;
pub mod title_prompt;
pub mod runner;
pub mod laws;

