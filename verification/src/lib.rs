//! Decoder for FIX messages in tag=value encoding.
//!
//! - Repeating groups are found without a FIX dictionary, from the order in
//!   which the tags come.
//! - The separator of the fields is found in the message itself: `0x01`, `|`
//!   or any other text without digits.
//! - The message may stand anywhere in the text: it begins at its version
//!   field and ends with its checksum field.
//!
//! The decoded tree is exported as a `serde_json::Value`.

pub mod engine;
pub mod export;
pub mod laws;
pub mod leaves;
pub mod lookahead;
pub mod message;
pub mod shape;
pub mod text;
pub mod tokenizer;
pub mod tree;

pub use message::FixMessage;
pub use tokenizer::DecodeError;
