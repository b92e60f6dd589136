//! A persistent message queue built from fixed-size pages.
//!
//! Messages are opaque byte strings, stored as length-prefixed records in a
//! page's byte arena; a record never crosses a page boundary, and a record
//! that does not fit seals its page behind it. A ring of pages composes the
//! per-page queues into one queue: senders roll over to the next page index
//! as pages fill, and an optional retention bound unlinks the oldest page
//! files as new ones are allocated.
//!
//! - [`codec`] defines the record framing and proves the encoder against it.
//! - [`qpage`] holds the single-page queue: the bit-packed header word, the
//!   writer's reservation arithmetic, the seal sentinel, and the reader.
//! - [`ringbuf`] holds the supervisor: the page store, rollover, retention,
//!   and the sender and receiver handles.
//! - [`laws`] states the queue-wide guarantees — order, retention, round
//!   trips — over the transition predicates the contracts establish.
//! - [`rsv`] holds the older delimiter-based word-list encoding.

pub mod codec;
pub mod laws;
pub mod qpage;
pub mod ringbuf;
pub mod rsv;
