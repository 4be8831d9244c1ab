//! Turns markdown documents with a metadata block into display records, and extracts
//! markdown files from tar-style archive buffers.

pub mod archive;
pub mod collection;
pub mod document;
pub mod frontmatter;
pub mod render;
pub mod sections;
pub mod text;
