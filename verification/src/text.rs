//! Searching, slicing and trimming of strings.
//!
//! A string is modelled by its characters, a `Seq<char>`. The executable functions report
//! positions as byte offsets into the UTF-8 encoding, as the standard library does;
//! [`byte_offset`] relates the two.
pub mod concat;
pub mod encoding;
pub mod edit;
pub mod number;
pub mod search;
