//! Per-chat ordered queues of named elements.
//!
//! The store keeps, for every queue, a dense and duplicate-free numbering of
//! its elements: the positions of a queue with `n` elements are exactly
//! `1..=n`, before and after every operation.

pub mod arrange;
pub mod commands;
pub mod error;
pub mod laws;
pub mod lookup;
pub mod models;
pub mod repo;
pub mod text;

pub use error::Error;
pub use models::{Chat, Queue, QueueElement, QueueElementForQueue, QueueKey};
pub use repo::QueueRepository;
