//! The store: watermarks, connections, and the buffer of a bitmap pipeline.

pub mod batch_channel;
pub mod bitmap_buffer;
pub mod connection;
pub mod index_batch;
pub mod processor;
pub mod watermark;

pub use connection::BigTableConnection;
pub use connection::BigTableStore;
pub use processor::BitmapIndexProcessor;
pub use watermark::CommitterWatermark;
