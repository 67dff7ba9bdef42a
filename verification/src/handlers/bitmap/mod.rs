//! Pipelines that keep an inverted index of bitmaps.

pub mod accumulated;
pub mod batch;
pub mod event_bitmap;
pub mod handler;
pub mod layout;
pub mod transaction_bitmap;

pub use crate::bigtable::store::BitmapIndexProcessor;
pub use event_bitmap::EventBitmapProcessor;
pub use handler::BitmapIndexHandler;
pub use transaction_bitmap::TransactionBitmapProcessor;
