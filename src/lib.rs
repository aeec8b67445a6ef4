//! A verified decoder for the Bencode serialization format.
//!
//! Every decoding rule is a pure function from an input byte slice and a
//! start offset to a decoded value and the offset just past it. Each rule's
//! result is stated exactly by the grammar in [`grammar`].
pub mod value;
pub mod grammar;
pub mod decode;
pub mod laws;
pub mod encoding;

pub use decode::{
    decode_bencoded_value, decode_dictionary, decode_integer, decode_list, decode_string,
    decode_value, decode_with_max_depth, MAX_DEPTH,
};
pub use value::{BencodeError, Value};
