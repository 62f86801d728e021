//! A minimal HTTP request router: route registration, request-to-route
//! matching and response framing, all specified and verified. The transport
//! loop (bind, accept, read, write) is left to the embedding program, which
//! feeds each request buffer to the dispatcher and writes the framed
//! response back.

pub mod handlers;
pub mod response;
pub mod types;
