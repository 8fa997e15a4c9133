//! Scanning of decimal floating-point literals: a cursor over a zero-terminated
//! byte buffer, recognition of the special tokens `inf`, `infinity` and `nan`,
//! and a bounded decimal representation of a scanned numeral.

pub mod decimal;
pub mod reader;
pub mod scale;
pub mod special;
pub mod token;
