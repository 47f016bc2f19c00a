//! Conversion between raw text and the decimal numeric-character-reference
//! form `&#N;` used in HTML and XML.

pub mod ascii;
