//! A decoder for the mosaic text encoding: blocks of eight base-47 digits
//! read through a per-block rotating alphabet, with interleaved noise,
//! periodic checksums and a padding trailer, and a repeating-key XOR mask.
pub mod alphabet;
pub mod block;
pub mod checksum;
pub mod xor;
pub mod decoder;
pub mod noise;
