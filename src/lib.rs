//! A DNS message codec (header, questions, answers, with name compression on
//! decode) and the two response strategies of a small DNS server: a stub
//! responder and a forwarding resolver.

pub mod message;
pub mod wire;
pub mod codec;
pub mod resolver;
pub mod laws;
pub mod defaults;
