//! The zone: its records and the rules that pick them for a question.

pub mod default_records;
pub mod records;
