pub mod buffer;
pub mod fifo;
pub mod indexing;
pub mod interleaving;
pub mod protocol;

pub use buffer::RingBuffer;
pub use indexing::Indexing;
