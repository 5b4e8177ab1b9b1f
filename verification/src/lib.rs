//! A minimal transcript-sharing library.
//!
//! A transcript is an ordered sequence of chat messages, each a `role` and a
//! `content` string. The library persists transcripts under caller-supplied
//! identifiers in a key-value store, serialized as JSON text, and serves
//! them back either as JSON data or as a rendered HTML page with each
//! message's content converted from lightweight markup to HTML.

pub mod chars;
pub mod codec;
pub mod handlers;
pub mod message;
pub mod render;
pub mod store;
