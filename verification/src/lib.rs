//! Byte-granular storage access on top of fixed-size-block devices.
//!
//! A block device physically transfers only whole, aligned, fixed-size
//! blocks.  This crate lets higher-level code (filesystem drivers, partition
//! readers) issue reads and writes of arbitrary byte ranges against such a
//! device: the [`storage_device::StorageBlockDevice`] adapter splits every
//! request into at most three block-aligned sub-operations (a leading partial
//! block, a run of full middle blocks, a trailing partial block) and services
//! the partial edges through a single reusable scratch block.
//!
//! Where the block-device contract is sometimes generic over a device's own
//! block record (any size, any alignment), this library fixes one concrete
//! [`block::Block`] of [`block::BLOCK_SIZE`] bytes for all devices: the
//! record's size and alignment govern only raw reinterpretation, which the
//! verifier cannot see, and several proofs take the literal size as a
//! premise.  A device with another block size needs the constant changed.

pub mod block;
pub mod block_device;
pub mod error;
pub mod mem_block_device;
pub mod storage_device;
