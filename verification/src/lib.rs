//! Streaming pipeline library: a producer cuts a downloaded byte stream into
//! numbered frames of a fixed size, and consumers drain those frames while
//! counting the bytes they processed.
//!
//! The executable decisions of both sides are verified state machines; the
//! asynchronous loops that fetch bytes over HTTP and share the frame queue
//! between tasks drive them from the outside.

pub mod configuration;
pub mod downloader;
pub mod error;
pub mod frame;
pub mod logger;
pub mod pipeline;
