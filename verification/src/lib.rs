//! Locates pattern occurrences inside text buffers, extracts a line-aligned
//! context window around each occurrence, normalizes the window's indentation,
//! and renders the result through a small directive-based template language
//! with optional terminal styling.
//!
//! The pipeline is: scan (`scan`) -> contextualize (`lines`) -> normalize
//! (`indent`) -> render (`template`, `render`). `paths` orders and
//! deduplicates the file list that a traversal hands in.

pub mod bytes;

pub mod lines;

pub mod indent;

pub mod template;

pub mod scan;

pub mod render;

pub mod output;

pub mod paths;
