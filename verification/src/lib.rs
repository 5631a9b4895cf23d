//! Message framing and transport selection for a bridge between a process's
//! standard streams and a build server's socket.
//!
//! The bridge relays protocol messages, each a header block closed by a blank
//! line followed by a brace-delimited body, without interpreting them. This
//! library holds the part of the bridge that decides: where one message ends
//! and the next begins, and which kind of socket a server address names.

pub mod conn;
pub mod json;
pub mod laws;
pub mod sbt;
pub mod scan;
