//! Encoding and decoding of DNS messages in their binary wire format.
//!
//! The codec is pure: every decoder takes the whole message buffer and an
//! explicit cursor, so that compressed names can refer back to earlier bytes.
pub mod error;
pub mod wire;
pub mod header;
pub mod name;
pub mod question;
pub mod record;
pub mod packet;

pub use error::{DecodeError, ErrorKind, Phase};
pub use header::Header;
pub use name::{decode_name, name_to_bytes, read_name};
pub use packet::Packet;
pub use question::Question;
pub use record::Answer;
