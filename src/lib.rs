//! Session storage and encrypted cookies for stateless request handlers.
//!
//! The library decides; the surrounding service performs the remote calls.
//! `session` resolves, persists and refreshes a session record kept in a
//! key-value store, whose values `attribute` models and compares;
//! `cookie_jar` holds cookies whose values travel encrypted; `session_id`
//! mints session identifiers; `cookie`, `codec` and `decimal` give the wire
//! forms of cookies, payloads and numbers.

pub mod attribute;
pub mod codec;
pub mod cookie;
pub mod cookie_jar;
pub mod decimal;
pub mod lambda_compat;
pub mod session;
pub mod session_id;
