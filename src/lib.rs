//! Broadcast event queue: every value pushed is delivered to every subscribed
//! reader, in FIFO order, once per reader.
//!
//! Values live in a list of chunks that grows at the tail and is reclaimed at
//! the head once every reader has moved past a chunk.

pub mod chunk_state;
pub mod cursor;
pub mod chunk;
pub mod event_queue;
pub mod event_reader;
pub mod guarantees;

pub use event_queue::{DefaultSettings, EventQueue, Settings};
pub use event_reader::{EventReader, Iter};
