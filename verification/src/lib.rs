//! Invoice helpers for a GST bill generator: calendar dates, the Indian
//! financial year, invoice numbering, file names, percent-encoding and the
//! persisted settings, each with a proved contract.

pub mod config;
pub mod export;
pub mod invoice;
pub mod logic;
pub mod text;
