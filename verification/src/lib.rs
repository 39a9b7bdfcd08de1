//! An authoritative DNS responder: the wire codec with name compression, a
//! static zone matcher, an address-in-name router and a small key/value
//! plane, assembled into one request-to-response pipeline.

pub mod decimal;
pub mod dns;
pub mod errors;
pub mod kv;
pub mod nameserver;
pub mod servers;
