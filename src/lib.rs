//! Reader for binary chat logs: a record codec that walks a log in either
//! direction, and consumers that print messages or group them into one
//! rendered log per day.

pub mod message;
pub mod codec;
pub mod reader;
pub mod render;
pub mod error;
pub mod consumers;
pub mod pipeline;
