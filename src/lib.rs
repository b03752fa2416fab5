//! A codec for the Bencode format: byte strings, integers, lists and
//! dictionaries whose keys stand in ascending byte order.
pub mod byte_string;
pub mod de;
pub mod error;
pub mod grammar;
pub mod integer;
pub mod round_trip;
pub mod ser;
pub mod value;
pub mod value_ser;

pub use byte_string::ByteString;
pub use error::Error;
pub use integer::Integer;
pub use value::{Bencode, Dictionary, Value};
pub use value_ser::ValueSerializer;
pub use de::{from_bytes, Deserializer};
pub use ser::{to_bytes, to_bytes_unsorted, Serializer, UnsortedSerializer};
