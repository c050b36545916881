//! Repairs structurally non-conformant EPUB packages: classifies archive
//! entries, normalizes XML encoding declarations, repairs body-anchor link
//! tokens, repairs the package language tag, and re-serializes the archive
//! preserving entry order and binary content.

pub mod bytes_ops;
pub mod xml_decl;
pub mod entries;
pub mod zip_io;
pub mod html_q;
pub mod epub_converter;
pub mod props;
