//! A codec for TOON, a compact indentation-structured text form of the JSON
//! data model.  Values are encoded as indented `key: value` lines, arrays of
//! uniform objects as delimiter-separated tables, and the transform is
//! reversible: decoding the encoder's output yields the original value.

pub mod chars;
pub mod cli;
pub mod decode;
pub mod encode;
pub mod error;
pub mod lexicon;
pub mod options;
pub mod stream;
pub mod value;

pub use decode::decode;
pub use decode::try_decode;
pub use encode::encode;
pub use error::ErrorKind;
pub use error::ToonError;
pub use stream::JsonStreamEvent;
pub use stream::decode_stream_sync;
pub use stream::encode_stream_events;
pub use stream::value_of_events;
pub use value::JsonValue;
pub use value::StringOrNumberOrBoolOrNull;
