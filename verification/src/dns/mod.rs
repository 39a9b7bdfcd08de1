//! The wire format: names, records, headers and whole messages, written
//! and read, with the laws that tie writing to reading.

pub mod compression;
pub mod data;
pub mod header;
pub mod labels;
pub mod message_laws;
pub mod name;
pub mod name_laws;
pub mod name_wire;
pub mod question;
pub mod record;
pub mod record_text;
pub mod response;
pub mod rtypes;
pub mod text;
pub mod wire;
