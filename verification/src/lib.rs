//! An inverted index of bitmaps over transactions and events, kept in BigTable.
//!
//! Transactions and events are looked up by [`dimensions`]: the sender, the Move
//! functions that were called, the types of the events, and so on. For each value of
//! a dimension the index has rows of bits; a bit is set for each transaction or event
//! with that value. The processors in [`handlers::bitmap`] turn checkpoints into such
//! bits. They gather in memory, in an
//! [`AccumulatedState`](handlers::bitmap::accumulated::AccumulatedState) or a
//! [`BitmapBuffer`](bigtable::store::bitmap_buffer::BitmapBuffer), and are flushed to
//! the table from there. [`list_transactions`] reads pages back.
//!
//! Nothing here reads or writes a table itself. What alternates reads and writes with
//! decisions is a function from an event to the next action; whoever calls it performs
//! the action and reports back.

pub mod bcs_codec;
pub mod bigtable;
pub mod bitmap;
pub mod chunks;
pub mod codec;
pub mod dimensions;
pub mod handlers;
pub mod list_transactions;
pub mod row_map;
pub mod store_suite;
pub mod tables;
