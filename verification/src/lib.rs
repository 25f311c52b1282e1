//! A small stub DNS resolver: wire-format encoding and decoding of DNS
//! messages, the decisions of a UDP query with retries, and the text that
//! presents the answers.

pub mod text;
pub mod error;
pub mod dns;
pub mod render;
pub mod resolver;
