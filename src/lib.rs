//! A client for the publish/subscribe part of the Redis wire protocol.
//!
//! The library holds the logic of a subscription session: the incremental
//! decoder of the byte stream, the mapping of decoded values to messages, the
//! registry of wanted channels and patterns, and the decisions of the
//! connect / resubscribe / stream / reconnect cycle. Sockets and timers are
//! left to the caller, which reports what happened and performs what the
//! session decides.
pub mod command;
pub mod encoding;
pub mod error;
pub mod incremental;
pub mod message;
pub mod parser;
pub mod registry;
pub mod session;

pub use crate::command::Command;
pub use crate::error::{Error, ErrorKind};
pub use crate::message::{Message, MessageView, ParserError};
pub use crate::parser::{parse, parse_response, Response, Value};
pub use crate::registry::Registry;
pub use crate::session::{backoff_delay_ms, Phase, Session, MAX_RETRIES};
