//! A library for parsing and generating DNS queries and responses.
//!
//! The wire format follows [RFC 1035](https://tools.ietf.org/rfc/rfc1035).
//! A [`Message`] is a view of a caller's buffer: [`Message::parse`] validates
//! a received buffer, and [`Message::builder`], [`Message::add_question`] and
//! [`Message::add_answer`] write a message into a buffer, with its names
//! compressed against the questions it holds. Nothing is allocated on the way.
//!
//! Every function carries a contract, and every contract is machine checked:
//!
//! - [`wire`] is the byte-level model that the contracts speak of;
//! - [`header`], [`name`], [`question`], [`answer`] and [`message`] hold the
//!   codecs, with [`bytes`], [`query_kind`], [`query_class`] and [`error`]
//!   beside them;
//! - [`lemmas`] holds what is proved of the model: that decoding ends, that
//!   pointers go backwards, how names compare and how far compression goes;
//! - [`consistency`] proves that a well formed message stays well formed
//!   when records are added to it.

pub mod answer;
pub mod bytes;
pub mod consistency;
pub mod error;
pub mod header;
pub mod lemmas;
pub mod message;
pub mod name;
pub mod query_class;
pub mod query_kind;
pub mod question;
pub mod wire;

pub use answer::{Answer, Answers};
pub use error::Error;
pub use header::{Header, HeaderBuilder, HeaderKind, OpCode, ResponseCode};
pub use message::{Message, MessageBuffer, MessageBuilder};
pub use name::{Label, Name};
pub use query_class::QueryClass;
pub use query_kind::QueryKind;
pub use question::{Question, Questions};
pub use wire::LabelType;
