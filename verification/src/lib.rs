//! The logic of an email client: reading messages, talking to IMAP and SMTP
//! servers, caching envelopes, and the background work that runs it all.
//!
//! Nothing here does any I/O. What talks to a server is a state machine that
//! says what to do next and is told what came of it.

pub mod cache;
pub mod codec;
pub mod compose;
pub mod connection;
pub mod envelope;
pub mod ffon;
pub mod folders;
pub mod http;
pub mod idle;
pub mod imap;
pub mod mime;
pub mod raw;
pub mod smtp;
pub mod text;
pub mod thread;
pub mod types;
pub mod worker;
