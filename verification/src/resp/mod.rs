//! The wire protocol: values, their encoding and decoding, and the framing of a connection.

pub mod buffer;
pub mod connection;
pub mod decode;
pub mod error;
pub mod laws;
pub mod line;
pub mod number;
pub mod text;
pub mod value;

pub use self::connection::Connection;
pub use self::decode::parse_message;
pub use self::value::Value;
