//! The way of one request through the server.

pub mod shared;
