//! Conversion between a binary table format and its text form.
//!
//! A binary table is a header, a list of field descriptors, a block of
//! fixed-size records and a pool of zero-terminated strings, filled up to a
//! multiple of 32 bytes. Its text form is a line of column labels and one
//! line of comma-separated cells for every row.

pub mod bytes;
pub mod codec;
pub mod convert;
pub mod csv;
pub mod hash;
pub mod laws;
pub mod layout;
pub mod pool;
pub mod projection;
pub mod reader;
pub mod seektask;
pub mod table;
pub mod text;
pub mod types;
pub mod writer;
