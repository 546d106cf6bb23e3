//! A codec for a tag-delimited, length-framed and checksummed wire format of
//! financial messages: fields are `tag=value` pairs closed by a delimiter byte.

pub mod buffer;
pub mod decimal;
pub mod error;
pub mod field;
pub mod fix_version;
pub mod laws;
pub mod message;
pub mod msg_type;
pub mod scan;
pub mod tags;

pub use error::FixError;
pub use field::FixField;
pub use message::FixMessage;
pub use tags::Tag;
