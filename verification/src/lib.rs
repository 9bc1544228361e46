//! A corpus-wide reference-extraction and graph-assembly library.
//!
//! Records are small text files named by an identifier (a letter prefix
//! followed by zero-padded digits). The library decodes record names,
//! scans record text for reference tokens, resolves the tokens against
//! the set of identifiers present in the corpus, assembles a directed
//! reference graph, and exports the result as an edge table or as a
//! graph-description document.

pub mod codec;
pub mod scanner;
pub mod index;
pub mod resolver;
pub mod assembler;
pub mod pipeline;
