//! The protocol engine: commands, reply framing, passive-mode negotiation,
//! listing parsing, and the crawl state machine.

pub mod command;
pub mod crawl;
pub mod error;
pub mod listing;
pub mod passive;
pub mod reconnect;
pub mod response;
