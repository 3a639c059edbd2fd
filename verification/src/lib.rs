//! A fixed-capacity byte ring buffer that decouples a producer pushing
//! discrete chunks from a downstream sink that may accept fewer bytes than
//! offered, may accept none, or may fail transiently.

mod ring;
mod sink;

pub use ring::TX_BUF_SIZE;
pub use ring::TxBuf;
pub use ring::lemma_capacity_invariant;
pub use ring::lemma_fifo_conservation;
pub use ring::lemma_flush_concat;
pub use ring::TxBufFlush;
pub use ring::TxBufFull;
pub use sink::IoSink;
pub use sink::MemSink;
pub use sink::RawWrite;
pub use sink::Sink;
