//! Block addressing types and the block-device contract.

use vstd::prelude::*;
use vstd::arithmetic::div_mod::lemma_fundamental_div_mod_converse;
use crate::block::{Block, BLOCK_SIZE};
use crate::error::{BlockResult, IoOperation};

verus! {

/// Represent the position of a block on a block device.
#[derive(Debug, Copy, Clone, Hash, PartialOrd, PartialEq, Ord, Eq, Structural)]
pub struct BlockIndex(pub u64);

/// Represent the count of blocks that a block device holds.
#[derive(Debug, Copy, Clone)]
pub struct BlockCount(pub u64);

impl BlockCount {
    /// Get the block count as a raw bytes count.
    pub fn into_bytes_count(self) -> (r: u64)
        requires
            self.0 * BLOCK_SIZE as int <= u64::MAX,
        ensures
            r == self.0 * BLOCK_SIZE as int,
    {
        self.0 * (BLOCK_SIZE as u64)
    }
}

impl BlockIndex {
    /// Convert the block index into an offset in bytes.
    pub fn into_offset(self) -> (r: u64)
        requires
            self.0 * BLOCK_SIZE as int <= u64::MAX,
        ensures
            r == self.0 * BLOCK_SIZE as int,
    {
        self.0 * (BLOCK_SIZE as u64)
    }
}

impl BlockCount {
    /// Convert the block count into a size in bytes.
    pub fn into_size(self) -> (r: u64)
        requires
            self.0 * BLOCK_SIZE as int <= u64::MAX,
        ensures
            r == self.0 * BLOCK_SIZE as int,
    {
        self.0 * (BLOCK_SIZE as u64)
    }
}

/// The bytes of a run of blocks, laid out contiguously: byte `i` of the run
/// is byte `i % BLOCK_SIZE` of block `i / BLOCK_SIZE`.
pub open spec fn device_bytes(blocks: Seq<Seq<u8>>) -> Seq<u8> {
    Seq::new(
        blocks.len() * BLOCK_SIZE as nat,
        |i: int| blocks[i / (BLOCK_SIZE as int)][i % (BLOCK_SIZE as int)],
    )
}

/// All blocks of a device view hold exactly [`BLOCK_SIZE`] bytes.
pub open spec fn blocks_wf(blocks: Seq<Seq<u8>>) -> bool {
    forall|i: int| 0 <= i < blocks.len() ==> (#[trigger] blocks[i]).len() == BLOCK_SIZE as nat
}

/// The device view after `new` replaces the run of `new.len()` blocks
/// starting at block `start`.
pub open spec fn update_blocks(blocks: Seq<Seq<u8>>, start: int, new: Seq<Seq<u8>>) -> Seq<Seq<u8>> {
    Seq::new(
        blocks.len(),
        |i: int| if start <= i < start + new.len() { new[i - start] } else { blocks[i] },
    )
}

/// Byte `b * BLOCK_SIZE + j` of a device view is byte `j` of block `b`.
pub proof fn lemma_device_byte_index(blocks: Seq<Seq<u8>>, b: int, j: int)
    requires
        0 <= b < blocks.len(),
        0 <= j < BLOCK_SIZE as int,
    ensures
        0 <= b * BLOCK_SIZE as int + j < device_bytes(blocks).len(),
        device_bytes(blocks)[b * BLOCK_SIZE as int + j] == blocks[b][j],
{
    let s = BLOCK_SIZE as int;
    lemma_fundamental_div_mod_converse(b * s + j, s, b, j);
    assert(b * s + j < blocks.len() * s) by (nonlinear_arith)
        requires 0 <= b < blocks.len(), 0 <= j < s, 0 < s;
    assert(0 <= b * s + j) by (nonlinear_arith)
        requires 0 <= b, 0 <= j, 0 < s;
}

/// Which block a device byte belongs to: byte `i` lies in block
/// `i / BLOCK_SIZE`, at offset `i % BLOCK_SIZE` within it.
pub proof fn lemma_device_byte_split(blocks: Seq<Seq<u8>>, i: int)
    requires
        0 <= i < device_bytes(blocks).len(),
    ensures
        0 <= i / (BLOCK_SIZE as int) < blocks.len(),
        0 <= i % (BLOCK_SIZE as int) < BLOCK_SIZE as int,
        i == (i / (BLOCK_SIZE as int)) * BLOCK_SIZE as int + i % (BLOCK_SIZE as int),
        device_bytes(blocks)[i] == blocks[i / (BLOCK_SIZE as int)][i % (BLOCK_SIZE as int)],
{
    let s = BLOCK_SIZE as int;
    vstd::arithmetic::div_mod::lemma_fundamental_div_mod(i, s);
    vstd::arithmetic::div_mod::lemma_mod_bound(i, s);
    assert(i / s < blocks.len()) by (nonlinear_arith)
        requires
            i < blocks.len() * s,
            0 < s,
            i == (i / s) * s + i % s,
            0 <= i % s < s;
    assert(0 <= i / s) by (nonlinear_arith)
        requires 0 <= i, 0 < s, i == (i / s) * s + i % s, i % s < s;
}

/// Replacing a run of blocks changes exactly the run's bytes in the device
/// view: inside the run the view holds the new blocks' bytes, outside it is
/// unchanged.
pub proof fn lemma_update_blocks_bytes(blocks: Seq<Seq<u8>>, start: int, new: Seq<Seq<u8>>)
    requires
        blocks_wf(blocks),
        blocks_wf(new),
        0 <= start,
        start + new.len() <= blocks.len(),
    ensures
        blocks_wf(update_blocks(blocks, start, new)),
        device_bytes(update_blocks(blocks, start, new)).len() == device_bytes(blocks).len(),
        forall|i: int|
            0 <= i < device_bytes(blocks).len()
                ==> device_bytes(update_blocks(blocks, start, new))[i]
                    == if start * (BLOCK_SIZE as int) <= i
                        < (start + new.len()) * (BLOCK_SIZE as int) {
                        device_bytes(new)[i - start * (BLOCK_SIZE as int)]
                    } else {
                        device_bytes(blocks)[i]
                    },
{
    let s = BLOCK_SIZE as int;
    let ub = update_blocks(blocks, start, new);
    assert(blocks_wf(ub));
    assert forall|i: int| 0 <= i < device_bytes(blocks).len() implies
        device_bytes(ub)[i] == if start * s <= i < (start + new.len()) * s {
            device_bytes(new)[i - start * s]
        } else {
            device_bytes(blocks)[i]
        } by {
        lemma_device_byte_split(blocks, i);
        lemma_device_byte_split(ub, i);
        let q = i / s;
        let r = i % s;
        if start <= q < start + new.len() {
            assert(start * s <= i < (start + new.len()) * s) by (nonlinear_arith)
                requires
                    i == q * s + r,
                    0 <= r < s,
                    start <= q < start + new.len();
            assert(i - start * s == (q - start) * s + r) by (nonlinear_arith)
                requires
                    i == q * s + r;
            lemma_device_byte_index(new, q - start, r);
        } else {
            assert(!(start * s <= i < (start + new.len()) * s)) by (nonlinear_arith)
                requires
                    i == q * s + r,
                    0 <= r < s,
                    0 <= q,
                    !(start <= q < start + new.len());
        }
    }
}

/// Represent a device holding blocks.
///
/// A block device transfers whole blocks only, at block granularity.  Its
/// abstract state is the sequence of its blocks' contents, [`Self::blocks`];
/// every transfer that reaches the medium counts as one device operation in
/// [`Self::ops`], which is how the adapter's bound on the number of physical
/// operations per request is stated.
pub trait BlockDevice: Sized {
    /// The contents of the device, one [`BLOCK_SIZE`]-byte sequence per block.
    spec fn blocks(&self) -> Seq<Seq<u8>>;

    /// How many operations have reached the medium through this device.
    spec fn ops(&self) -> nat;

    /// The device's internal invariant.
    spec fn inv(&self) -> bool;

    /// A device satisfying its invariant presents well-formed blocks.
    proof fn inv_implies_blocks_wf(&self)
        requires
            self.inv(),
        ensures
            blocks_wf(self.blocks()),
    ;

    /// Read blocks from the block device starting at the given `index`.
    ///
    /// Fills every element of `blocks` with the contents of consecutive
    /// device blocks starting at `index`.  On failure the elements' contents
    /// are unspecified (they remain whole blocks), and the error names the
    /// attempted range; the device itself is unchanged either way.
    fn read(&mut self, blocks: &mut Vec<Block>, index: BlockIndex) -> (r: BlockResult<()>)
        requires
            old(self).inv(),
            forall|i: int| 0 <= i < old(blocks)@.len() ==> (#[trigger] old(blocks)@[i]).wf(),
        ensures
            final(self).inv(),
            final(self).blocks() == old(self).blocks(),
            final(self).ops() == old(self).ops() + 1,
            final(blocks)@.len() == old(blocks)@.len(),
            forall|i: int| 0 <= i < final(blocks)@.len() ==> (#[trigger] final(blocks)@[i]).wf(),
            r is Ok ==> index.0 + final(blocks)@.len() <= final(self).blocks().len()
                && forall|i: int| 0 <= i < final(blocks)@.len()
                    ==> (#[trigger] final(blocks)@[i])@ == final(self).blocks()[index.0 + i],
            r matches Err(e) ==> e.operation == IoOperation::Read
                && e.start_index == index
                && e.block_count.0 == final(blocks)@.len(),
    ;

    /// Write blocks to the block device starting at the given `index`.
    ///
    /// On success the device holds the given blocks over the attempted
    /// range and is unchanged elsewhere.  On failure the device's contents
    /// are unspecified over the whole range (partial completion), and the
    /// error names the attempted range.
    fn write(&mut self, blocks: &Vec<Block>, index: BlockIndex) -> (r: BlockResult<()>)
        requires
            old(self).inv(),
            forall|i: int| 0 <= i < blocks@.len() ==> (#[trigger] blocks@[i]).wf(),
        ensures
            final(self).inv(),
            final(self).blocks().len() == old(self).blocks().len(),
            final(self).ops() == old(self).ops() + 1,
            r is Ok ==> index.0 + blocks@.len() <= final(self).blocks().len()
                && final(self).blocks() == update_blocks(
                    old(self).blocks(),
                    index.0 as int,
                    blocks@.map_values(|b: Block| b@),
                ),
            r matches Err(e) ==> e.operation == IoOperation::Write
                && e.start_index == index
                && e.block_count.0 == blocks@.len(),
    ;

    /// Return the amount of blocks held by the block device.
    ///
    /// Asking for the count reaches no block of the medium: it is not a
    /// device operation.
    fn count(&mut self) -> (r: BlockResult<BlockCount>)
        requires
            old(self).inv(),
        ensures
            final(self).inv(),
            final(self).blocks() == old(self).blocks(),
            final(self).ops() == old(self).ops(),
            r matches Ok(c) ==> c.0 == final(self).blocks().len(),
    ;
}

/// Wraps a block device and counts at run time the operations that reach
/// it — the number that [`BlockDevice::ops`] accounts for in
/// specifications, there for proofs only.
///
/// The counter saturates at `u64::MAX` instead of overflowing.
pub struct CountingBlockDevice<BD: BlockDevice> {
    /// The wrapped device.
    pub device: BD,
    /// How many operations have reached the wrapped device, saturating.
    pub calls: u64,
}

impl<BD: BlockDevice> CountingBlockDevice<BD> {
    /// Wraps `device` with the counter at zero.
    pub fn new(device: BD) -> (r: Self)
        requires
            device.inv(),
        ensures
            r.inv(),
            r.blocks() == device.blocks(),
            r.ops() == device.ops(),
            r.calls == 0,
    {
        CountingBlockDevice { device, calls: 0 }
    }
}

impl<BD: BlockDevice> BlockDevice for CountingBlockDevice<BD> {
    closed spec fn blocks(&self) -> Seq<Seq<u8>> {
        self.device.blocks()
    }

    closed spec fn ops(&self) -> nat {
        self.device.ops()
    }

    closed spec fn inv(&self) -> bool {
        self.device.inv()
    }

    proof fn inv_implies_blocks_wf(&self) {
        self.device.inv_implies_blocks_wf();
    }

    fn read(&mut self, blocks: &mut Vec<Block>, index: BlockIndex) -> (r: BlockResult<()>)
        ensures
            old(self).calls < u64::MAX ==> final(self).calls == old(self).calls + 1,
            old(self).calls == u64::MAX ==> final(self).calls == old(self).calls,
    {
        if self.calls < u64::MAX {
            self.calls = self.calls + 1;
        }
        self.device.read(blocks, index)
    }

    fn write(&mut self, blocks: &Vec<Block>, index: BlockIndex) -> (r: BlockResult<()>)
        ensures
            old(self).calls < u64::MAX ==> final(self).calls == old(self).calls + 1,
            old(self).calls == u64::MAX ==> final(self).calls == old(self).calls,
    {
        if self.calls < u64::MAX {
            self.calls = self.calls + 1;
        }
        self.device.write(blocks, index)
    }

    fn count(&mut self) -> (r: BlockResult<BlockCount>)
        ensures
            final(self).calls == old(self).calls,
    {
        self.device.count()
    }
}

} // verus!
