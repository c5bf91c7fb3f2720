//! External sorting: bounded in-memory runs are sorted and handed to a
//! chunk codec, then merged back into one ordered stream.
pub mod buffer;
pub mod chunk;
pub mod merger;
pub mod order;
pub mod sort;
pub mod source;
