//! A decoder for the binary key/value trees that Steam keeps in its `.vdf`
//! files.
//!
//! The format is a tree of tagged entries. `grammar` says what a run of bytes
//! decodes to; `decode` holds the functions that do it, each with a contract
//! that names the value of `grammar` it computes; `value` holds the decoded
//! tree; `steam_header` decodes the header that stands before the tree in an
//! application-info file; `laws` proves what holds of the format as a whole.

pub mod appinfo;
mod cursor;
pub mod decode;
pub mod error;
pub mod grammar;
pub mod key_order;
pub mod laws;
pub mod steam_header;
pub mod universe_type;
pub mod value;

pub use decode::{
    parse_float_entity, parse_hash_entity, parse_integer32_entity, parse_integer64_entity,
    parse_map_value, parse_string, parse_string_entity,
};
pub use error::DecodeError;
pub use value::{MapValue, ObjectMap, VdfFile};
