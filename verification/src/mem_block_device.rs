//! An in-memory block device.
//!
//! The simplest implementation of the block-device contract: a vector of
//! blocks, every operation in range succeeding.  It backs a memory-mapped
//! disk image, and shows that the contract can be met.

use vstd::prelude::*;
use crate::block::{Block, BLOCK_SIZE};
use crate::block_device::{blocks_wf, update_blocks, BlockCount, BlockDevice, BlockIndex};
use crate::error::{BlockDeviceError, BlockResult, IoOperation};

verus! {

/// A block device holding its blocks in memory.
///
/// Every read or write whose range lies on the device succeeds; one out of
/// range fails and leaves the contents untouched.
pub struct MemBlockDevice {
    /// The device's blocks.
    storage: Vec<Block>,
    /// How many operations have reached the device.
    op_count: Ghost<nat>,
}

impl MemBlockDevice {
    /// A device of `count` zero-filled blocks.
    pub fn new(count: usize) -> (r: MemBlockDevice)
        ensures
            r.inv(),
            r.ops() == 0,
            r.blocks() == Seq::new(
                count as nat,
                |i: int| Seq::new(BLOCK_SIZE as nat, |j: int| 0u8),
            ),
    {
        let mut storage: Vec<Block> = Vec::new();
        let mut i: usize = 0;
        while i < count
            invariant
                i <= count,
                storage@.len() == i as nat,
                forall|k: int| 0 <= k < i ==> (#[trigger] storage@[k]).wf(),
                forall|k: int|
                    0 <= k < i ==> (#[trigger] storage@[k])@ == Seq::new(
                        BLOCK_SIZE as nat,
                        |j: int| 0u8,
                    ),
            decreases count - i,
        {
            storage.push(Block::new());
            i = i + 1;
        }
        let r = MemBlockDevice { storage, op_count: Ghost(0) };
        proof {
            assert(r.blocks() =~~= Seq::new(
                count as nat,
                |i: int| Seq::new(BLOCK_SIZE as nat, |j: int| 0u8),
            ));
        }
        r
    }
}

impl BlockDevice for MemBlockDevice {
    closed spec fn blocks(&self) -> Seq<Seq<u8>> {
        self.storage@.map_values(|b: Block| b@)
    }

    closed spec fn ops(&self) -> nat {
        self.op_count@
    }

    closed spec fn inv(&self) -> bool {
        forall|i: int| 0 <= i < self.storage@.len() ==> (#[trigger] self.storage@[i]).wf()
    }

    proof fn inv_implies_blocks_wf(&self) {
        assert(blocks_wf(self.blocks()));
    }

    /// Copies the requested blocks out of memory; fails exactly when the
    /// range does not lie on the device.
    #[verifier::loop_isolation(false)]
    fn read(&mut self, blocks: &mut Vec<Block>, index: BlockIndex) -> (r: BlockResult<()>)
        ensures
            r is Ok <==> index.0 + old(blocks)@.len() <= old(self).blocks().len(),
    {
        proof {
            self.op_count@ = self.op_count@ + 1;
        }
        let n: usize = blocks.len();
        let total: usize = self.storage.len();
        if index.0 > total as u64 || n as u64 > total as u64 - index.0 {
            return Err(BlockDeviceError {
                operation: IoOperation::Read,
                start_index: index,
                block_count: BlockCount(n as u64),
            });
        }
        let start: usize = index.0 as usize;
        let mut i: usize = 0;
        while i < n
            invariant
                i <= n,
                n <= blocks@.len(),
                blocks@.len() == old(blocks)@.len(),
                start + n <= self.storage@.len(),
                forall|k: int|
                    0 <= k < blocks@.len() && i <= k ==> blocks@[k] == old(blocks)@[k],
                forall|k: int| 0 <= k < i ==> (#[trigger] blocks@[k])@ == self.blocks()[start + k],
            decreases n - i,
        {
            blocks[i] = self.storage[start + i].clone();
            i = i + 1;
        }
        Ok(())
    }

    /// Copies the given blocks into memory; fails exactly when the range
    /// does not lie on the device, and then changes nothing.
    #[verifier::loop_isolation(false)]
    fn write(&mut self, blocks: &Vec<Block>, index: BlockIndex) -> (r: BlockResult<()>)
        ensures
            r is Ok <==> index.0 + blocks@.len() <= old(self).blocks().len(),
            r is Err ==> final(self).blocks() == old(self).blocks(),
    {
        proof {
            self.op_count@ = self.op_count@ + 1;
        }
        let ghost blocks0 = self.blocks();
        let n: usize = blocks.len();
        let total: usize = self.storage.len();
        if index.0 > total as u64 || n as u64 > total as u64 - index.0 {
            return Err(BlockDeviceError {
                operation: IoOperation::Write,
                start_index: index,
                block_count: BlockCount(n as u64),
            });
        }
        let start: usize = index.0 as usize;
        let mut i: usize = 0;
        while i < n
            invariant
                i <= n,
                self.op_count@ == old(self).ops() + 1,
                self.storage@.len() == total,
                start + n <= self.storage@.len(),
                self.storage@.len() == blocks0.len(),
                forall|k: int|
                    0 <= k < self.storage@.len() ==> (#[trigger] self.storage@[k]).wf(),
                forall|k: int|
                    0 <= k < self.storage@.len() && !(start <= k < start + i)
                        ==> (#[trigger] self.storage@[k])@ == blocks0[k],
                forall|k: int|
                    start <= k < start + i ==> (#[trigger] self.storage@[k])@ == blocks@[
                        k - start
                    ]@,
            decreases n - i,
        {
            let nb = blocks[i].clone();
            self.storage[start + i] = nb;
            i = i + 1;
        }
        proof {
            assert(self.blocks() =~~= update_blocks(
                blocks0,
                index.0 as int,
                blocks@.map_values(|b: Block| b@),
            ));
        }
        Ok(())
    }

    /// Reports how many blocks the device holds; never fails.
    fn count(&mut self) -> (r: BlockResult<BlockCount>)
        ensures
            r is Ok,
    {
        Ok(BlockCount(self.storage.len() as u64))
    }
}

} // verus!
