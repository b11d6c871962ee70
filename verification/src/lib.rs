//! A small personal-contact record store.
//!
//! Records (name, phone number, email) are kept in an in-memory sequence,
//! ordered case-insensitively by name, and are converted to and from a
//! one-record-per-line comma-separated textual form.

pub mod codec;
pub mod lex;
pub mod store;
