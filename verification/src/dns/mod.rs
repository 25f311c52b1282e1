//! The DNS wire format: messages, headers, questions and resource records.

pub mod wire;
pub mod header;
pub mod question;
pub mod answer;
pub mod message;
