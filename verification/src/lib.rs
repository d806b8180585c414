//! A fixed-capacity pool of equally sized byte buffers.
//!
//! The pool carves its storage into slots of one fixed capacity. A slot is
//! leased as a [`Buffer`], an exclusively owned byte buffer that is written in
//! place, and comes back to the pool through [`Pool::release`]. While a slot is
//! free, its leading machine word names the next free slot, so the free list
//! needs no memory of its own.
//!
//! - [`pool`] holds the pool, [`buffer`] the buffer.
//! - [`model`] is the state of a pool as a mathematical value, with the
//!   lemmas on what holds of every state that a pool can reach.
//! - [`content`] says what the operations of a buffer do to its bytes.
//! - [`word`] reads and writes the word that links the free slots.

pub mod buffer;
pub mod content;
pub mod error;
pub mod model;
pub mod pool;
pub mod word;

pub use buffer::Buffer;
pub use error::Error;
pub use pool::Pool;
