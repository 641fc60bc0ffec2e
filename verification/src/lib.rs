//! Decoder for batch exports of transaction receipts.
//!
//! An export is a marker byte followed by one length-prefixed item: a list
//! whose members are receipts, empty placeholders, or further lists of the
//! same shape. [`reader`] turns bytes into an [`item::Item`] tree,
//! [`cli::receipts`] turns a tree into the flat, ordered batch of
//! [`cli::receipts::Receipt`] records, and [`encode`] writes a tree back as
//! the bytes it is read from.

pub mod cli;
pub mod encode;
pub mod encode_laws;
pub mod error;
pub mod item;
pub mod primitives;
pub mod reader;
pub mod reader_laws;
