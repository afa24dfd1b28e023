//! A zero-copy decoder for bencode, the serialization format of four value
//! kinds: integers, byte strings, lists and dictionaries.
//!
//! Every parser is a total function from a byte buffer to either what it
//! recognised together with the unconsumed rest of the buffer, or a
//! structured failure. The byte strings of a parsed tree are slices of the
//! buffer. The contracts are stated against the grammar in [`grammar`].

pub mod combinator;
pub mod decimal;
pub mod error;
pub mod grammar;
pub mod laws;
pub mod lexical;
pub mod value;

pub use combinator::{
    bencode_value, is_non_zero_num, parse_bencode_dict, parse_bencode_integer, parse_bencode_list,
    parse_bencode_num, parse_bencode_string,
};
pub use error::{BencodeSchemaError, BencodeSchemaErrorKinds, ErrorKind};
pub use value::{BencodeDict, BencodeItemView};
