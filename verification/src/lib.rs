//! Core model of a small book depository: books, magazines and readers with
//! stable 128-bit identifiers, an in-memory catalogue holding the borrow
//! relation (item id -> reader id), and a JSON codec that persists the whole
//! catalogue state as one document.
//!
//! Window rendering and file I/O live outside this crate; the catalogue is
//! handed plain values and returns plain values.

pub mod entities;
pub mod errors;
pub mod text;
pub mod catalogue;
pub mod laws;
pub mod codec_num;
pub mod codec_text;
pub mod codec;
