//! A binary codec for a name-resolution wire protocol message: a fixed
//! twelve-byte header with a sixteen-bit flag field, questions and answers
//! carrying length-prefixed domain-name labels, and message-level framing
//! that composes them. Decoding follows backward compression pointers;
//! encoding always writes full label sequences.

pub mod answer;
pub mod bytes;
pub mod domain_name;
pub mod enums;
pub mod errors;
pub mod header;
pub mod hex;
pub mod message;
pub mod question;
