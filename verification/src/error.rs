//! Operation-tagged error values.
//!
//! A failure carries enough context to tell whether it arose on the
//! underlying block device or at byte granularity, and over which range.

use vstd::prelude::*;
use crate::block_device::{BlockCount, BlockIndex};

verus! {

/// The kind of transfer during which a fault arose.
#[derive(Debug, Clone, Copy, PartialEq, Eq, Structural)]
pub enum IoOperation {
    /// A transfer from the device into a caller's buffer.
    Read,
    /// A transfer from a caller's buffer onto the device.
    Write,
}

/// A medium fault: the block device could not complete a transfer over the
/// given block range.
#[derive(Debug, Clone, Copy)]
pub struct BlockDeviceError {
    /// Whether the failing transfer was a read or a write.
    pub operation: IoOperation,
    /// First block of the attempted range.
    pub start_index: BlockIndex,
    /// Number of blocks the transfer attempted.
    pub block_count: BlockCount,
}

/// A byte-granular fault, with the nested medium fault when one caused it.
///
/// `block_device_error` is absent when the fault originated directly at byte
/// granularity, for a device that is not backed by blocks.
#[derive(Debug, Clone, Copy)]
pub struct IoError {
    /// Whether the failing operation was a read or a write.
    pub operation: IoOperation,
    /// Byte offset the operation started at.
    pub offset: u64,
    /// Byte length the operation asked for.
    pub len: usize,
    /// The block-level failure that caused this one, if any.
    pub block_device_error: Option<BlockDeviceError>,
}

/// Result of a block-granular operation.
pub type BlockResult<T> = Result<T, BlockDeviceError>;

/// Result of a byte-granular operation.
pub type IoResult<T> = Result<T, IoError>;

} // verus!
