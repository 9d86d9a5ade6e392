//! Decompression and upload planning for archives of compressed files.
//!
//! * [`format`] picks a codec from a file name and derives the stored name.
//! * [`bitstream`] reads little-endian packed codes out of a byte sequence.
//! * [`lzw`] decodes the Unix `compress` (`.Z`) bitstream.
//! * [`manifest`] holds the declared file sizes.
//! * [`pipeline`] decides what happens to each archive entry and checks the run.
pub mod bitstream;
pub mod format;
pub mod lzw;
pub mod manifest;
pub mod pipeline;
