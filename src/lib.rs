//! Inlines a tree of module files into one text, line by line.
//!
//! Each line is classified into a [`syntax::LineToken`]; module declarations are
//! resolved through a [`bundle::FileSystem`] and replaced by nested blocks, and the
//! resulting token tree is written back with every other line kept verbatim.

pub mod bundle;
pub mod laws;
pub mod lines;
pub mod scan;
pub mod syntax;
