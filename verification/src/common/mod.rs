//! What every layer shares: byte-string order, the little-endian codec, keys
//! and errors.

pub mod bound;
pub mod byte_map;
pub mod checksum;
pub mod clock;
pub mod codec;
pub mod error;
pub mod key;
pub mod listing;
pub mod lz4;
pub mod order;
pub mod simd;
pub mod text;

pub use bound::Bound;
pub use error::Error;
pub use key::Key;
