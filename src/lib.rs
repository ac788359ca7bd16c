//! Word completion and next-word prediction over an n-gram corpus of
//! orders one to five, with cascading backoff from the longest context.

pub mod store;
pub mod aggregate;
pub mod matcher;
pub mod query;
pub mod normalize;
pub mod laws;
