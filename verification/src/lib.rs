//! A persistent message queue with multiple named channels.
//!
//! Producers append opaque byte payloads to a queue's shared log; each
//! channel is an independent cursor that consumers dequeue from with
//! at-least-once delivery. A dequeued message is leased: if it is not
//! acknowledged within a time-to-live it becomes eligible for redelivery.

pub mod backend;
pub mod channel;
mod clock;
pub mod queue;
