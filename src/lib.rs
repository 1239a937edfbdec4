//! Codec for the Matroska `Block` and `SimpleBlock` element payloads.
pub mod block;
pub mod error;
pub mod simple_block;
pub mod tag;
pub mod vint;

pub use block::{Block, BlockLacing};
pub use error::WebmError;
pub use simple_block::SimpleBlock;
