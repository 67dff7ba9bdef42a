//! The rows of the BigTable tables, and the store that writes them.

pub mod flush;
pub mod rows;
pub mod store;
