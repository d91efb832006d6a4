//! Client-side protocol engine for the MPD wire protocol.
//!
//! Commands are validated and rendered to bytes by [`command`]; responses are
//! reassembled from a growing byte buffer by [`codec`], one structural unit at
//! a time, so that declared-length binary payloads are never scanned for
//! terminators.

pub mod assembler;
pub mod buffer;
pub mod codec;
pub mod command;
pub mod grammar;
pub mod intern;
pub mod laws;
pub mod model;
pub mod parser;
pub mod response;
pub mod resume;
pub mod text;

pub use codec::MpdCodec;
pub use codec::MpdCodecError;
pub use command::Command;
pub use command::CommandList;
pub use response::Response;
