//! A backup repository for copy-on-write filesystem send streams: the stream
//! codec, the concatenation engine, the orphan check and the wire protocol.

pub mod bytes;
pub mod crc32;
pub mod btrfs;
pub mod payload;
pub mod stream;
pub mod fsck;
pub mod repository;
pub mod concat;
pub mod protocol;
pub mod upload;
