//! A Fluent Forward protocol ingest library.
//!
//! The library decodes the MessagePack-framed Forward Protocol v1 into
//! normalized log events: an incremental frame decoder with support for
//! the Message, Forward and PackedForward event modes (gzip-compressed
//! payloads included), the EventTime timestamp extension, a total mapping
//! from MessagePack values to event values, listen-address parsing, and
//! the decision logic of the TCP accept and connection loops.

pub mod addr;
pub mod codec;
pub mod msgpack;
pub mod runtime;
pub mod value;
