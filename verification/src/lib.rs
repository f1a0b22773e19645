//! A verified FTP crawler library.
//!
//! The library models the protocol side of an FTP directory crawler: reply
//! framing, passive-mode endpoint negotiation, `LIST` output parsing, the
//! depth-bounded crawl engine, and the resulting in-memory directory tree
//! with its renderings.

pub mod chars;
pub mod fs;
pub mod ftp;
