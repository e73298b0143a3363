//! Core of a client-facing gateway for a peer-to-peer node: a session
//! registry binding authorization tokens to authorized resources, the
//! classification of inbound requests, the routing of execution outcomes
//! back to the transport that produced each request, and the fair choice
//! among ready transport sources.

pub mod address;
pub mod dispatch;
pub mod messages;
pub mod registry;
