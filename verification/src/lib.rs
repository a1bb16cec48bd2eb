//! The TNG tiled image container and the Netpbm formats it converts from and to.

pub mod assembly;
pub mod bytes;
pub mod channel;
pub mod chunk;
pub mod codec;
pub mod crc;
pub mod decoder;
pub mod encoder;
pub mod filter;
pub mod format;
pub mod netpbm;
pub mod pieces;
pub mod placement;
pub mod plan;
pub mod ppmpam;
pub mod readback;
pub mod region;
pub mod roundtrip;
pub mod rows;
pub mod runs;
pub mod samples;
pub mod text;
pub mod tile;
