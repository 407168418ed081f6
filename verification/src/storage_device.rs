//! Byte-granular access over a block device.
//!
//! This module exposes the [`StorageDevice`] trait to represent any device
//! with byte-granular read and write operations, as opposed to block-size
//! operations, and the [`StorageBlockDevice`] adapter that turns any
//! [`BlockDevice`] into a `StorageDevice` by splitting each request into
//! block-aligned sub-operations.

use vstd::prelude::*;
use vstd::arithmetic::div_mod::{
    lemma_div_is_ordered, lemma_fundamental_div_mod, lemma_fundamental_div_mod_converse,
    lemma_mod_bound,
};
use crate::block::{Block, BLOCK_SIZE};
use crate::block_device::{
    blocks_wf, device_bytes, lemma_device_byte_index, lemma_device_byte_split,
    lemma_update_blocks_bytes, update_blocks, BlockCount, BlockDevice, BlockIndex,
};
use crate::error::{BlockResult, IoError, IoOperation, IoResult};

verus! {

/// The `len` bytes of `bytes` starting at `offset`.
///
/// Total in all arguments; equal to `bytes.subrange(offset, offset + len)`
/// when the range lies inside `bytes`.
pub open spec fn byte_range(bytes: Seq<u8>, offset: int, len: int) -> Seq<u8> {
    Seq::new(len as nat, |k: int| bytes[offset + k])
}

/// `bytes` with the range starting at `offset` replaced by `data`, unchanged
/// elsewhere.  What a successful byte-granular write leaves on the device.
pub open spec fn splice_bytes(bytes: Seq<u8>, offset: int, data: Seq<u8>) -> Seq<u8> {
    Seq::new(
        bytes.len(),
        |i: int| if offset <= i < offset + data.len() { data[i - offset] } else { bytes[i] },
    )
}

/// Length of the leading partial region of a request: the bytes that lie in
/// front of the first block boundary at or after `offset`.  Zero when
/// `offset` is block-aligned; never more than `len`.
pub open spec fn first_part_len(offset: int, len: int) -> int {
    let r = offset % (BLOCK_SIZE as int);
    if r == 0 {
        0
    } else if BLOCK_SIZE as int - r <= len {
        BLOCK_SIZE as int - r
    } else {
        len
    }
}

/// Number of whole blocks the middle region of a request covers.
pub open spec fn middle_block_count(offset: int, len: int) -> int {
    (len - first_part_len(offset, len)) / (BLOCK_SIZE as int)
}

/// Length of the trailing partial region of a request: what remains after
/// the leading partial region and the whole middle blocks.
pub open spec fn end_part_len(offset: int, len: int) -> int {
    len - first_part_len(offset, len) - middle_block_count(offset, len) * (BLOCK_SIZE as int)
}

/// The first block a request at `offset` touches.
pub open spec fn request_first_block(offset: int) -> int {
    offset / (BLOCK_SIZE as int)
}

/// One past the last block a nonempty request of `len` bytes at `offset`
/// touches.
pub open spec fn request_block_end(offset: int, len: int) -> int {
    (offset + len + BLOCK_SIZE as int - 1) / (BLOCK_SIZE as int)
}

/// How many block-device operations a read of `len` bytes at `offset` costs:
/// one per nonempty partial region, and for the middle region one in all
/// when the blocks travel in one run (`bulk_middle`), else one per block.
pub open spec fn read_op_count(offset: int, len: int, bulk_middle: bool) -> int {
    (if first_part_len(offset, len) > 0 { 1int } else { 0int })
    + (if bulk_middle {
        if middle_block_count(offset, len) > 0 { 1int } else { 0int }
    } else {
        middle_block_count(offset, len)
    })
    + (if end_part_len(offset, len) > 0 { 1int } else { 0int })
}

/// How many block-device operations a write of `len` bytes at `offset`
/// costs.  A nonempty partial region costs a read and a write (the block is
/// read, partly overwritten, and written back); the middle region costs one
/// write in all when the blocks travel in one run (`bulk_middle`), else one
/// write per block.
pub open spec fn write_op_count(offset: int, len: int, bulk_middle: bool) -> int {
    (if first_part_len(offset, len) > 0 { 2int } else { 0int })
    + (if bulk_middle {
        if middle_block_count(offset, len) > 0 { 1int } else { 0int }
    } else {
        middle_block_count(offset, len)
    })
    + (if end_part_len(offset, len) > 0 { 2int } else { 0int })
}

/// The geometry of a request's three-way split, for the split values as the
/// adapter computes them: which spec regions they equal, where the regions'
/// blocks lie, and that every touched block falls between
/// [`request_first_block`] and [`request_block_end`].
proof fn lemma_split_geometry(
    offset: int,
    len: int,
    first_block: int,
    off_rem: int,
    first_len: int,
    mid_start: int,
    mid_block: int,
    mid_count: int,
    end_pos: int,
    end_len: int,
)
    requires
        0 <= offset,
        0 <= len,
        offset + len <= u64::MAX,
        first_block == offset / (BLOCK_SIZE as int),
        off_rem == offset % (BLOCK_SIZE as int),
        first_len == first_part_len(offset, len),
        mid_start == offset + first_len,
        mid_block == mid_start / (BLOCK_SIZE as int),
        mid_count == (len - first_len) / (BLOCK_SIZE as int),
        end_pos == first_len + mid_count * (BLOCK_SIZE as int),
        end_len == len - end_pos,
    ensures
        mid_count == middle_block_count(offset, len),
        end_len == end_part_len(offset, len),
        offset == first_block * (BLOCK_SIZE as int) + off_rem,
        0 <= off_rem && off_rem + first_len <= BLOCK_SIZE as int,
        0 <= first_len <= len,
        0 <= mid_count && mid_count * (BLOCK_SIZE as int) <= len - first_len,
        0 <= end_len < BLOCK_SIZE as int,
        first_len > 0 ==> off_rem > 0,
        mid_count > 0 || end_len > 0 ==> mid_block * (BLOCK_SIZE as int) == offset + first_len,
        mid_count > 0 || end_len > 0 ==> (mid_block + mid_count) * (BLOCK_SIZE as int) == offset
            + end_pos,
        0 <= mid_block && mid_block + mid_count <= u64::MAX,
        first_block <= mid_block,
        first_len > 0 ==> first_block + 1 <= request_block_end(offset, len),
        mid_count > 0 ==> mid_block + mid_count <= request_block_end(offset, len),
        end_len > 0 ==> mid_block + mid_count + 1 == request_block_end(offset, len),
        end_len > 0 ==> offset + len == (mid_block + mid_count) * (BLOCK_SIZE as int) + end_len,
        end_len == 0 && mid_count > 0 ==> offset + len == (mid_block + mid_count) * (
        BLOCK_SIZE as int),
        mid_count == 0 && end_len == 0 ==> offset + len <= (first_block + 1) * (BLOCK_SIZE as int),
{
    let s = BLOCK_SIZE as int;
    lemma_fundamental_div_mod(offset, s);
    lemma_mod_bound(offset, s);
    lemma_fundamental_div_mod(len - first_len, s);
    lemma_mod_bound(len - first_len, s);
    lemma_fundamental_div_mod(mid_start, s);
    lemma_mod_bound(mid_start, s);
    if mid_count > 0 || end_len > 0 {
        // those regions exist only when the leading one stops at a block
        // boundary, so the middle region starts aligned
        assert(mid_start % s == 0) by {
            if off_rem != 0 {
                lemma_fundamental_div_mod_converse(mid_start, s, first_block + 1, 0);
            }
        };
    }
    assert(0 <= mid_block && mid_block <= mid_start) by (nonlinear_arith)
        requires
            mid_start == s * mid_block + mid_start % s,
            0 <= mid_start % s < s,
            0 <= mid_start,
            s == 512;
    assert(mid_block + mid_count <= u64::MAX) by (nonlinear_arith)
        requires
            mid_count > 0 ==> mid_block * s == offset + first_len,
            mid_count * s <= len - first_len,
            offset + len <= u64::MAX,
            s == 512,
            mid_block <= u64::MAX,
            0 <= mid_count,
            0 <= mid_block;
    assert((mid_block + mid_count) * s == mid_block * s + mid_count * s) by (nonlinear_arith);
    lemma_div_is_ordered(offset, mid_start, s);
    // the request touches exactly the blocks from `first_block` to one
    // before `request_block_end`
    if end_len > 0 {
        lemma_fundamental_div_mod_converse(
            offset + len + s - 1,
            s,
            mid_block + mid_count + 1,
            end_len - 1,
        );
    } else if mid_count > 0 {
        lemma_fundamental_div_mod_converse(offset + len + s - 1, s, mid_block + mid_count, s - 1);
    } else if first_len > 0 {
        lemma_fundamental_div_mod_converse((first_block + 1) * s, s, first_block + 1, 0);
        lemma_div_is_ordered((first_block + 1) * s, offset + len + s - 1, s);
    }
}

/// A trait to represent any device that exposes byte-granular read and write
/// operations, as opposed to block-size operations.
///
/// A `StorageDevice` can read/write to/from arbitrary length buffers, and at
/// arbitrary offsets.  Its abstract state is the sequence of its bytes,
/// [`Self::bytes`].  Reading beyond the device's length is an error; a
/// request of length zero succeeds at any offset without touching the
/// device.
pub trait StorageDevice: Sized {
    /// The contents of the device, as one flat sequence of bytes.
    spec fn bytes(&self) -> Seq<u8>;

    /// The device's internal invariant.
    spec fn inv(&self) -> bool;

    /// Read the data at the given `offset` in the storage device into a
    /// given buffer.
    ///
    /// Fills the whole buffer on success; its length never changes.  On
    /// failure the buffer's contents are unspecified and the error carries
    /// the operation kind, `offset` and the buffer's length.
    fn read(&mut self, offset: u64, buf: &mut Vec<u8>) -> (r: IoResult<()>)
        requires
            old(self).inv(),
            offset + old(buf)@.len() <= u64::MAX,
        ensures
            final(self).inv(),
            final(self).bytes() == old(self).bytes(),
            final(buf)@.len() == old(buf)@.len(),
            old(buf)@.len() == 0 ==> r is Ok,
            r is Ok ==> (old(buf)@.len() > 0 ==> offset + old(buf)@.len()
                <= final(self).bytes().len())
                && final(buf)@ == byte_range(
                    final(self).bytes(),
                    offset as int,
                    final(buf)@.len() as int,
                ),
            r matches Err(e) ==> e.operation == IoOperation::Read && e.offset == offset
                && e.len == old(buf)@.len(),
    ;

    /// Write the data from the given buffer at the given `offset` in the
    /// storage device.
    ///
    /// On success the device holds the buffer's bytes over the written range
    /// and is unchanged elsewhere.  On failure the device's contents over
    /// the attempted range are unspecified (its length never changes), and
    /// the error carries the operation kind, `offset` and the buffer's
    /// length.
    fn write(&mut self, offset: u64, buf: &[u8]) -> (r: IoResult<()>)
        requires
            old(self).inv(),
            offset + buf@.len() <= u64::MAX,
        ensures
            final(self).inv(),
            final(self).bytes().len() == old(self).bytes().len(),
            buf@.len() == 0 ==> r is Ok,
            r is Ok ==> (buf@.len() > 0 ==> offset + buf@.len() <= final(self).bytes().len())
                && final(self).bytes() == splice_bytes(old(self).bytes(), offset as int, buf@),
            r matches Err(e) ==> e.operation == IoOperation::Write && e.offset == offset
                && e.len == buf@.len(),
    ;

    /// Return the total size of the storage device in bytes.
    fn len(&mut self) -> (r: Result<u64, ()>)
        requires
            old(self).inv(),
        ensures
            final(self).inv(),
            final(self).bytes() == old(self).bytes(),
            r matches Ok(n) ==> n == final(self).bytes().len(),
    ;
}

/// Turns any [`BlockDevice`] into a [`StorageDevice`] by implementing the
/// logic to read and write from/to block-size unaligned offsets and lengths.
///
/// A request is split against the block size into a leading partial block, a
/// run of whole middle blocks, and a trailing partial block; a region of
/// length zero costs no device operation.  The partial edges go through a
/// single scratch block owned by the adapter, so a read performs at most 3
/// device operations and a write at most 5 (the partial edges of a write
/// are read-modify-write).  The middle region travels as one run of blocks
/// in a single device operation on the default path, or block by block
/// through the scratch block on the fallback path, which costs one
/// operation per block but allocates nothing.
pub struct StorageBlockDevice<BD: BlockDevice> {
    /// The inner block device.
    block_device: BD,
    /// The scratch block used for partial reads/writes, kept as a
    /// one-element vector so it can be handed to the device directly.
    tmp_block: Vec<Block>,
}

impl<BD: BlockDevice> StorageBlockDevice<BD> {
    /// How many operations have reached the medium through the wrapped
    /// block device.
    pub closed spec fn ops(&self) -> nat {
        self.block_device.ops()
    }

    /// A shared view of the wrapped block device.
    pub fn block_device(&self) -> (r: &BD)
        ensures
            device_bytes(r.blocks()) == self.bytes(),
            r.ops() == self.ops(),
    {
        &self.block_device
    }

    /// Create a new storage block device.
    pub fn new(block_device: BD) -> (r: Self)
        requires
            block_device.inv(),
        ensures
            r.inv(),
            r.bytes() == device_bytes(block_device.blocks()),
            r.ops() == block_device.ops(),
    {
        let mut tmp_block: Vec<Block> = Vec::new();
        tmp_block.push(Block::default());
        StorageBlockDevice { block_device, tmp_block }
    }

    /// Reads one whole block into the scratch block and copies the `count`
    /// bytes starting at `block_off` within it to `buf[buf_start..]`.
    fn read_partial(
        &mut self,
        block: u64,
        block_off: usize,
        count: usize,
        buf: &mut Vec<u8>,
        buf_start: usize,
    ) -> (r: BlockResult<()>)
        requires
            old(self).inv(),
            block_off + count <= BLOCK_SIZE,
            count > 0,
            buf_start + count <= old(buf)@.len(),
        ensures
            final(self).inv(),
            final(self).bytes() == old(self).bytes(),
            final(self).ops() == old(self).ops() + 1,
            final(buf)@.len() == old(buf)@.len(),
            forall|k: int|
                0 <= k < final(buf)@.len() && !(buf_start <= k < buf_start + count)
                    ==> final(buf)@[k] == old(buf)@[k],
            r is Ok ==> (block + 1) * (BLOCK_SIZE as int) <= final(self).bytes().len()
                && forall|k: int|
                    buf_start <= k < buf_start + count
                        ==> final(buf)@[k] == final(self).bytes()[
                            block * (BLOCK_SIZE as int) + block_off + (k - buf_start)
                        ],
            r matches Err(e) ==> e.operation == IoOperation::Read && e.start_index.0 == block
                && e.block_count.0 == 1 && final(buf)@ == old(buf)@,
    {
        proof {
            self.block_device.inv_implies_blocks_wf();
        }
        match self.block_device.read(&mut self.tmp_block, BlockIndex(block)) {
            Ok(()) => {
                proof {
                    self.block_device.inv_implies_blocks_wf();
                    assert(self.tmp_block@[0]@ == self.block_device.blocks()[block as int]);
                    assert forall|j: int| 0 <= j < BLOCK_SIZE as int implies
                        self.tmp_block@[0]@[j]
                            == device_bytes(self.block_device.blocks())[
                                block * (BLOCK_SIZE as int) + j
                            ] by {
                        lemma_device_byte_index(self.block_device.blocks(), block as int, j);
                    }
                    lemma_device_byte_index(
                        self.block_device.blocks(),
                        block as int,
                        BLOCK_SIZE as int - 1,
                    );
                }
                let tb: &Block = &self.tmp_block[0];
                copy_bytes(buf, buf_start, tb.contents.as_slice(), block_off, count);
                Ok(())
            },
            Err(e) => Err(e),
        }
    }

    /// Reads from the block device from an arbitrary offset into an
    /// arbitrary-length buffer.
    ///
    /// The request is split into the leading partial block, the whole middle
    /// blocks, and the trailing partial block; a region of length zero costs
    /// no device operation.  The partial regions go through the scratch
    /// block.  With `bulk_middle` the middle blocks travel in one device
    /// operation, so the whole read costs at most 3; without it they go one
    /// at a time through the scratch block, which allocates nothing but
    /// costs one operation per block.  Either way the bytes delivered are
    /// the same.  A failure of the device aborts the request at once, and
    /// the buffer's contents are then unspecified.
    #[verifier::loop_isolation(false)]
    #[verifier::rlimit(30)]
    pub fn read_internal(&mut self, offset: u64, buf: &mut Vec<u8>, bulk_middle: bool) -> (r:
        BlockResult<()>)
        requires
            old(self).inv(),
            offset + old(buf)@.len() <= u64::MAX,
        ensures
            final(self).inv(),
            final(self).bytes() == old(self).bytes(),
            final(buf)@.len() == old(buf)@.len(),
            old(buf)@.len() == 0 ==> r is Ok,
            old(self).ops() <= final(self).ops(),
            final(self).ops() <= old(self).ops() + read_op_count(
                offset as int,
                old(buf)@.len() as int,
                bulk_middle,
            ),
            r is Ok ==> (old(buf)@.len() > 0 ==> offset + old(buf)@.len()
                <= final(self).bytes().len())
                && final(buf)@ == byte_range(
                    final(self).bytes(),
                    offset as int,
                    old(buf)@.len() as int,
                )
                && final(self).ops() == old(self).ops() + read_op_count(
                    offset as int,
                    old(buf)@.len() as int,
                    bulk_middle,
                ),
            r matches Err(e) ==> e.operation == IoOperation::Read && 1 <= e.block_count.0
                && request_first_block(offset as int) <= e.start_index.0
                && e.start_index.0 + e.block_count.0 <= request_block_end(
                    offset as int,
                    old(buf)@.len() as int,
                ),
    {
        let ghost dev = old(self).bytes();
        let ghost s = BLOCK_SIZE as int;
        let len: usize = buf.len();
        let ghost ll = len as int;
        let off_rem: usize = (offset % (BLOCK_SIZE as u64)) as usize;
        let first_len: usize = if off_rem == 0 {
            0
        } else if BLOCK_SIZE - off_rem <= len {
            BLOCK_SIZE - off_rem
        } else {
            len
        };
        let first_block: u64 = offset / (BLOCK_SIZE as u64);
        let mid_start: u64 = offset + first_len as u64;
        let mid_block: u64 = mid_start / (BLOCK_SIZE as u64);
        proof {
            lemma_fundamental_div_mod((len - first_len) as int, s);
            lemma_mod_bound((len - first_len) as int, s);
        }
        let mid_count: usize = (len - first_len) / BLOCK_SIZE;
        let end_pos: usize = first_len + mid_count * BLOCK_SIZE;
        let end_len: usize = len - end_pos;
        proof {
            lemma_split_geometry(
                offset as int,
                ll,
                first_block as int,
                off_rem as int,
                first_len as int,
                mid_start as int,
                mid_block as int,
                mid_count as int,
                end_pos as int,
                end_len as int,
            );
        }
        let end_block: u64 = mid_block + mid_count as u64;

        // the leading partial block, if any
        if first_len > 0 {
            match self.read_partial(first_block, off_rem, first_len, buf, 0) {
                Ok(()) => {},
                Err(e) => {
                    return Err(e);
                },
            }
            proof {
                assert(forall|k: int|
                    0 <= k < first_len ==> buf@[k] == dev[offset + k]);
            }
        }

        // the whole middle blocks, if any
        if mid_count > 0 {
            let r = if bulk_middle {
                self.read_middle_bulk(mid_block, mid_count, buf, first_len)
            } else {
                self.read_middle_slow(mid_block, mid_count, buf, first_len)
            };
            match r {
                Ok(()) => {},
                Err(e) => {
                    return Err(e);
                },
            }
            proof {
                assert forall|k: int| 0 <= k < end_pos implies buf@[k] == dev[offset + k] by {
                    if first_len <= k {
                        assert(buf@[k] == dev[mid_block * s + (k - first_len)]);
                    }
                }
            }
        }

        // the trailing partial block, if any
        if end_len > 0 {
            match self.read_partial(end_block, 0, end_len, buf, end_pos) {
                Ok(()) => {},
                Err(e) => {
                    return Err(e);
                },
            }
            proof {
                assert forall|k: int| end_pos <= k < ll implies buf@[k] == dev[offset + k] by {
                    assert(buf@[k] == dev[end_block * s + (k - end_pos)]);
                }
            }
        }

        proof {
            // every requested byte was delivered
            assert(buf@ =~= byte_range(dev, offset as int, ll));
            // a successful request that asked for anything lies in range: the
            // last nonempty region's device operation was in range
            if ll > 0 {
                if end_len > 0 {
                    assert(offset + ll <= (end_block + 1) * s);
                } else if mid_count > 0 {
                    assert(offset + ll == end_block * s);
                } else {
                    assert(offset + ll <= (first_block + 1) * s);
                }
            }
        }
        Ok(())
    }

    /// Writes the run of `mid_count` whole blocks starting at block
    /// `mid_block` from `buf[pos..]`, in one device operation.
    #[verifier::loop_isolation(false)]
    fn write_middle_bulk(&mut self, mid_block: u64, mid_count: usize, buf: &[u8], pos: usize) -> (r:
        BlockResult<()>)
        requires
            old(self).inv(),
            mid_count > 0,
            pos + mid_count * (BLOCK_SIZE as int) <= buf@.len(),
            mid_block + mid_count <= u64::MAX,
        ensures
            final(self).inv(),
            final(self).bytes().len() == old(self).bytes().len(),
            final(self).ops() == old(self).ops() + 1,
            r matches Err(e) ==> e.operation == IoOperation::Write
                && e.start_index.0 == mid_block && e.block_count.0 == mid_count,
            r is Ok ==> (mid_block + mid_count) * (BLOCK_SIZE as int) <= final(self).bytes().len()
                && forall|i: int|
                    0 <= i < final(self).bytes().len()
                        ==> final(self).bytes()[i] == if mid_block * (BLOCK_SIZE as int) <= i
                            < (mid_block + mid_count) * (BLOCK_SIZE as int) {
                            buf@[pos + (i - mid_block * (BLOCK_SIZE as int))]
                        } else {
                            old(self).bytes()[i]
                        },
    {
        let ghost s = BLOCK_SIZE as int;
        let buf_len: usize = buf.len();
        let mut mids: Vec<Block> = Vec::new();
        let mut t: usize = 0;
        while t < mid_count
            invariant
                t <= mid_count,
                buf@.len() == buf_len,
                pos + mid_count * (BLOCK_SIZE as int) <= buf_len,
                mids@.len() == t,
                forall|u: int| 0 <= u < t ==> (#[trigger] mids@[u]).wf(),
                forall|u: int|
                    0 <= u < t ==> (#[trigger] mids@[u])@ == buf@.subrange(
                        pos + u * (BLOCK_SIZE as int),
                        pos + (u + 1) * (BLOCK_SIZE as int),
                    ),
            decreases mid_count - t,
        {
            proof {
                assert(pos + (t + 1) * s <= buf_len) by (nonlinear_arith)
                    requires
                        t < mid_count,
                        pos + mid_count * s <= buf_len,
                        s == 512;
            }
            mids.push(block_from_bytes(buf, pos + t * BLOCK_SIZE));
            t = t + 1;
        }
        let ghost blocks0 = self.block_device.blocks();
        proof {
            self.block_device.inv_implies_blocks_wf();
        }
        match self.block_device.write(&mids, BlockIndex(mid_block)) {
            Ok(()) => {
                proof {
                    let s = BLOCK_SIZE as int;
                    let nv = mids@.map_values(|x: Block| x@);
                    assert(blocks_wf(nv));
                    lemma_update_blocks_bytes(blocks0, mid_block as int, nv);
                    assert((mid_block + mid_count) * s <= self.bytes().len()) by (nonlinear_arith)
                        requires
                            mid_block + mid_count <= self.block_device.blocks().len(),
                            self.bytes().len() == self.block_device.blocks().len() * s,
                            s == 512,
                            0 <= mid_block,
                            0 <= mid_count;
                    assert forall|i: int| 0 <= i < self.bytes().len() implies
                        self.bytes()[i] == if mid_block * s <= i < (mid_block + mid_count) * s {
                            buf@[pos + (i - mid_block * s)]
                        } else {
                            device_bytes(blocks0)[i]
                        } by {
                        if mid_block * s <= i < (mid_block + mid_count) * s {
                            let j = i - mid_block * s;
                            lemma_device_byte_split(nv, j);
                            assert(pos + (j / s) * s + j % s == pos + j) by (nonlinear_arith)
                                requires
                                    j == (j / s) * s + j % s;
                        }
                    }
                }
                Ok(())
            },
            Err(e) => Err(e),
        }
    }

    /// Writes the run of `mid_count` whole blocks starting at block
    /// `mid_block` from `buf[pos..]`, one device operation per block,
    /// through the scratch block: the fallback path, which allocates
    /// nothing.
    #[verifier::loop_isolation(false)]
    fn write_middle_slow(&mut self, mid_block: u64, mid_count: usize, buf: &[u8], pos: usize) -> (r:
        BlockResult<()>)
        requires
            old(self).inv(),
            mid_count > 0,
            pos + mid_count * (BLOCK_SIZE as int) <= buf@.len(),
            mid_block + mid_count <= u64::MAX,
        ensures
            final(self).inv(),
            final(self).bytes().len() == old(self).bytes().len(),
            old(self).ops() <= final(self).ops(),
            final(self).ops() <= old(self).ops() + mid_count,
            r matches Err(e) ==> e.operation == IoOperation::Write && 1 <= e.block_count.0
                && mid_block <= e.start_index.0
                && e.start_index.0 + e.block_count.0 <= mid_block + mid_count,
            r is Ok ==> final(self).ops() == old(self).ops() + mid_count
                && (mid_block + mid_count) * (BLOCK_SIZE as int) <= final(self).bytes().len()
                && forall|i: int|
                    0 <= i < final(self).bytes().len()
                        ==> final(self).bytes()[i] == if mid_block * (BLOCK_SIZE as int) <= i
                            < (mid_block + mid_count) * (BLOCK_SIZE as int) {
                            buf@[pos + (i - mid_block * (BLOCK_SIZE as int))]
                        } else {
                            old(self).bytes()[i]
                        },
    {
        let ghost s = BLOCK_SIZE as int;
        let ghost dev = old(self).bytes();
        let ghost ops0 = old(self).ops();
        let buf_len: usize = buf.len();
        let mut t: usize = 0;
        while t < mid_count
            invariant
                t <= mid_count,
                self.inv(),
                buf@.len() == buf_len,
                pos + mid_count * (BLOCK_SIZE as int) <= buf_len,
                mid_block + mid_count <= u64::MAX,
                self.bytes().len() == dev.len(),
                self.ops() == ops0 + t,
                forall|i: int|
                    0 <= i < dev.len()
                        ==> self.bytes()[i] == if mid_block * (BLOCK_SIZE as int) <= i
                            < (mid_block + t) * (BLOCK_SIZE as int) {
                            buf@[pos + (i - mid_block * (BLOCK_SIZE as int))]
                        } else {
                            dev[i]
                        },
                t > 0 ==> (mid_block + t) * (BLOCK_SIZE as int) <= dev.len(),
            decreases mid_count - t,
        {
            proof {
                assert(pos + (t + 1) * s <= buf_len) by (nonlinear_arith)
                    requires
                        t < mid_count,
                        pos + mid_count * s <= buf_len,
                        s == 512;
            }
            // fill the scratch block from the buffer and write it
            let mut b: Block = match self.tmp_block.pop() {
                Some(b) => b,
                None => {
                    proof {
                        assert(false);
                    }
                    Block::new()
                },
            };
            let mut c: Vec<u8> = b.contents;
            copy_bytes(&mut c, 0, buf, pos + t * BLOCK_SIZE, BLOCK_SIZE);
            self.tmp_block.push(Block { contents: c });
            let ghost blocks1 = self.block_device.blocks();
            proof {
                self.block_device.inv_implies_blocks_wf();
            }
            match self.block_device.write(&self.tmp_block, BlockIndex(mid_block + t as u64)) {
                Ok(()) => {},
                Err(e) => {
                    return Err(e);
                },
            }
            proof {
                let nv = self.tmp_block@.map_values(|x: Block| x@);
                assert(nv.len() == 1);
                assert(blocks_wf(nv));
                lemma_update_blocks_bytes(blocks1, mid_block + t as int, nv);
                assert((mid_block + t + 1) * s <= self.bytes().len()) by (nonlinear_arith)
                    requires
                        mid_block + t + 1 <= self.block_device.blocks().len(),
                        self.bytes().len() == self.block_device.blocks().len() * s,
                        s == 512,
                        0 <= mid_block,
                        0 <= t;
                assert((mid_block + t + 1) * s == (mid_block + t) * s + s) by (nonlinear_arith);
                assert forall|i: int| 0 <= i < dev.len() implies
                    self.bytes()[i] == if mid_block * s <= i < (mid_block + t + 1) * s {
                        buf@[pos + (i - mid_block * s)]
                    } else {
                        dev[i]
                    } by {
                    if (mid_block + t) * s <= i < (mid_block + t + 1) * s {
                        let j = i - (mid_block + t) * s;
                        lemma_device_byte_index(nv, 0, j);
                        assert(pos + t * s + j == pos + (i - mid_block * s)) by (nonlinear_arith)
                            requires
                                j == i - (mid_block + t) * s;
                    }
                }
            }
            t = t + 1;
        }
        Ok(())
    }

    /// Reads the run of `mid_count` whole blocks starting at block
    /// `mid_block` into `buf[pos..]`, in one device operation.
    #[verifier::loop_isolation(false)]
    fn read_middle_bulk(
        &mut self,
        mid_block: u64,
        mid_count: usize,
        buf: &mut Vec<u8>,
        pos: usize,
    ) -> (r: BlockResult<()>)
        requires
            old(self).inv(),
            mid_count > 0,
            pos + mid_count * (BLOCK_SIZE as int) <= old(buf)@.len(),
            mid_block + mid_count <= u64::MAX,
        ensures
            final(self).inv(),
            final(self).bytes() == old(self).bytes(),
            final(self).ops() == old(self).ops() + 1,
            final(buf)@.len() == old(buf)@.len(),
            forall|k: int|
                0 <= k < final(buf)@.len() && !(pos <= k < pos + mid_count * (BLOCK_SIZE as int))
                    ==> final(buf)@[k] == old(buf)@[k],
            r is Ok ==> (mid_block + mid_count) * (BLOCK_SIZE as int)
                <= final(self).bytes().len()
                && forall|k: int|
                    pos <= k < pos + mid_count * (BLOCK_SIZE as int)
                        ==> final(buf)@[k] == final(self).bytes()[
                            mid_block * (BLOCK_SIZE as int) + (k - pos)
                        ],
            r matches Err(e) ==> e.operation == IoOperation::Read
                && e.start_index.0 == mid_block && e.block_count.0 == mid_count
                && final(buf)@ == old(buf)@,
    {
        let ghost s = BLOCK_SIZE as int;
        let buf_len: usize = buf.len();
        let mut mids: Vec<Block> = Vec::new();
        let mut t: usize = 0;
        while t < mid_count
            invariant
                t <= mid_count,
                mids@.len() == t,
                forall|u: int| 0 <= u < t ==> (#[trigger] mids@[u]).wf(),
            decreases mid_count - t,
        {
            mids.push(Block::new());
            t = t + 1;
        }
        match self.block_device.read(&mut mids, BlockIndex(mid_block)) {
            Ok(()) => {},
            Err(e) => {
                return Err(e);
            },
        }
        proof {
            assert((mid_block + mid_count) * s <= self.bytes().len()) by (nonlinear_arith)
                requires
                    mid_block + mid_count <= self.block_device.blocks().len(),
                    self.bytes().len() == self.block_device.blocks().len() * s,
                    s == 512,
                    0 <= mid_block,
                    0 <= mid_count;
        }
        let mut t: usize = 0;
        while t < mid_count
            invariant
                t <= mid_count,
                buf@.len() == buf_len,
                buf@.len() == old(buf)@.len(),
                forall|k: int|
                    0 <= k < buf@.len() && !(pos <= k < pos + t * (BLOCK_SIZE as int))
                        ==> buf@[k] == old(buf)@[k],
                forall|k: int|
                    pos <= k < pos + t * (BLOCK_SIZE as int)
                        ==> buf@[k] == self.bytes()[mid_block * (BLOCK_SIZE as int) + (k - pos)],
            decreases mid_count - t,
        {
            proof {
                assert(pos + (t + 1) * s <= buf_len) by (nonlinear_arith)
                    requires
                        t < mid_count,
                        pos + mid_count * s <= buf_len,
                        s == 512;
            }
            let mb: &Block = &mids[t];
            copy_bytes(buf, pos + t * BLOCK_SIZE, mb.contents.as_slice(), 0, BLOCK_SIZE);
            proof {
                let base = pos + t * s;
                assert forall|k: int| pos <= k < pos + (t + 1) * s implies
                    buf@[k] == self.bytes()[mid_block * s + (k - pos)] by {
                    if base <= k {
                        lemma_device_byte_index(
                            self.block_device.blocks(),
                            mid_block + t,
                            k - base,
                        );
                        assert((mid_block + t) * s + (k - base) == mid_block * s + (k - pos))
                            by (nonlinear_arith)
                            requires
                                base == pos + t * s;
                    }
                }
            }
            t = t + 1;
        }
        Ok(())
    }

    /// Reads the run of `mid_count` whole blocks starting at block
    /// `mid_block` into `buf[pos..]`, one device operation per block,
    /// through the scratch block: the fallback path, which allocates
    /// nothing.
    #[verifier::loop_isolation(false)]
    fn read_middle_slow(
        &mut self,
        mid_block: u64,
        mid_count: usize,
        buf: &mut Vec<u8>,
        pos: usize,
    ) -> (r: BlockResult<()>)
        requires
            old(self).inv(),
            mid_count > 0,
            pos + mid_count * (BLOCK_SIZE as int) <= old(buf)@.len(),
            mid_block + mid_count <= u64::MAX,
        ensures
            final(self).inv(),
            final(self).bytes() == old(self).bytes(),
            old(self).ops() <= final(self).ops(),
            final(self).ops() <= old(self).ops() + mid_count,
            final(buf)@.len() == old(buf)@.len(),
            forall|k: int|
                0 <= k < final(buf)@.len() && !(pos <= k < pos + mid_count * (BLOCK_SIZE as int))
                    ==> final(buf)@[k] == old(buf)@[k],
            r is Ok ==> final(self).ops() == old(self).ops() + mid_count
                && (mid_block + mid_count) * (BLOCK_SIZE as int) <= final(self).bytes().len()
                && forall|k: int|
                    pos <= k < pos + mid_count * (BLOCK_SIZE as int)
                        ==> final(buf)@[k] == final(self).bytes()[
                            mid_block * (BLOCK_SIZE as int) + (k - pos)
                        ],
            r matches Err(e) ==> e.operation == IoOperation::Read && 1 <= e.block_count.0
                && mid_block <= e.start_index.0
                && e.start_index.0 + e.block_count.0 <= mid_block + mid_count,
    {
        let ghost s = BLOCK_SIZE as int;
        let ghost ops0 = old(self).ops();
        let buf_len: usize = buf.len();
        let mut t: usize = 0;
        while t < mid_count
            invariant
                t <= mid_count,
                self.inv(),
                self.bytes() == old(self).bytes(),
                self.ops() == ops0 + t,
                buf@.len() == buf_len,
                buf@.len() == old(buf)@.len(),
                forall|k: int|
                    0 <= k < buf@.len() && !(pos <= k < pos + t * (BLOCK_SIZE as int))
                        ==> buf@[k] == old(buf)@[k],
                forall|k: int|
                    pos <= k < pos + t * (BLOCK_SIZE as int)
                        ==> buf@[k] == self.bytes()[mid_block * (BLOCK_SIZE as int) + (k - pos)],
                t > 0 ==> (mid_block + t) * (BLOCK_SIZE as int) <= self.bytes().len(),
            decreases mid_count - t,
        {
            let ghost base = pos + t * s;
            proof {
                assert(pos + (t + 1) * s <= buf_len) by (nonlinear_arith)
                    requires
                        t < mid_count,
                        pos + mid_count * s <= buf_len,
                        s == 512;
            }
            match self.read_partial(mid_block + t as u64, 0, BLOCK_SIZE, buf, pos + t * BLOCK_SIZE) {
                Ok(()) => {},
                Err(e) => {
                    return Err(e);
                },
            }
            proof {
                assert forall|k: int| pos <= k < pos + (t + 1) * s implies
                    buf@[k] == self.bytes()[mid_block * s + (k - pos)] by {
                    if base <= k {
                        assert(buf@[k] == self.bytes()[(mid_block + t) * s + (k - base)]);
                        assert((mid_block + t) * s + (k - base) == mid_block * s + (k - pos))
                            by (nonlinear_arith)
                            requires
                                base == pos + t * s;
                    }
                }
                assert((mid_block + t + 1) * s == (mid_block + t) * s + s) by (nonlinear_arith);
            }
            t = t + 1;
        }
        Ok(())
    }

    /// Reads one whole block into the scratch block, overwrites the `count`
    /// bytes starting at `block_off` within it from `buf[buf_start..]`, and
    /// writes the block back: the read-modify-write a partial-block write
    /// needs.
    fn write_partial(
        &mut self,
        block: u64,
        block_off: usize,
        count: usize,
        buf: &[u8],
        buf_start: usize,
    ) -> (r: BlockResult<()>)
        requires
            old(self).inv(),
            block_off + count <= BLOCK_SIZE,
            count > 0,
            buf_start + count <= buf@.len(),
        ensures
            final(self).inv(),
            final(self).bytes().len() == old(self).bytes().len(),
            old(self).ops() + 1 <= final(self).ops(),
            final(self).ops() <= old(self).ops() + 2,
            r matches Err(e) ==> e.start_index.0 == block && e.block_count.0 == 1,
            r is Ok ==> final(self).ops() == old(self).ops() + 2
                && (block + 1) * (BLOCK_SIZE as int) <= final(self).bytes().len()
                && forall|i: int|
                    0 <= i < final(self).bytes().len()
                        ==> final(self).bytes()[i] == if block * (BLOCK_SIZE as int) + block_off
                            <= i < block * (BLOCK_SIZE as int) + block_off + count {
                            buf@[buf_start + (i - (block * (BLOCK_SIZE as int) + block_off))]
                        } else {
                            old(self).bytes()[i]
                        },
    {
        proof {
            self.block_device.inv_implies_blocks_wf();
        }
        match self.block_device.read(&mut self.tmp_block, BlockIndex(block)) {
            Ok(()) => {},
            Err(e) => {
                return Err(e);
            },
        }
        let ghost blocks0 = self.block_device.blocks();
        let ghost old_block: Seq<u8> = self.tmp_block@[0]@;
        let mut b: Block = match self.tmp_block.pop() {
            Some(b) => b,
            None => {
                proof {
                    assert(false);
                }
                Block::new()
            },
        };
        let mut c: Vec<u8> = b.contents;
        copy_bytes(&mut c, block_off, buf, buf_start, count);
        self.tmp_block.push(Block { contents: c });
        proof {
            self.block_device.inv_implies_blocks_wf();
        }
        match self.block_device.write(&self.tmp_block, BlockIndex(block)) {
            Ok(()) => {
                proof {
                    let s = BLOCK_SIZE as int;
                    let nb = self.tmp_block@.map_values(|x: Block| x@);
                    assert(nb.len() == 1 && nb[0] == self.tmp_block@[0]@);
                    assert(blocks_wf(nb));
                    lemma_update_blocks_bytes(blocks0, block as int, nb);
                    assert(self.block_device.blocks() == update_blocks(blocks0, block as int, nb));
                    assert((block + 1) * s <= device_bytes(blocks0).len()) by (nonlinear_arith)
                        requires
                            block + nb.len() <= blocks0.len(),
                            nb.len() == 1,
                            device_bytes(blocks0).len() == blocks0.len() * s,
                            0 < s;
                    assert forall|i: int| 0 <= i < final(self).bytes().len() implies
                        final(self).bytes()[i] == if block * s + block_off
                            <= i < block * s + block_off + count {
                            buf@[buf_start + (i - (block * s + block_off))]
                        } else {
                            old(self).bytes()[i]
                        } by {
                        if block * s <= i < (block + 1) * s {
                            // inside the rewritten block: find the byte within it
                            lemma_device_byte_index(nb, 0, i - block * s);
                            lemma_device_byte_index(blocks0, block as int, i - block * s);
                        }
                    }
                }
                Ok(())
            },
            Err(e) => Err(e),
        }
    }

    /// Writes to the block device at an arbitrary offset from an
    /// arbitrary-length buffer.
    ///
    /// The request is split as for [`Self::read_internal`].  Each nonempty
    /// partial region costs a read and a write: the block is read into the
    /// scratch block, partly overwritten from the buffer, and written back,
    /// so correctness rests on the device read returning the current
    /// on-device contents.  With `bulk_middle` the middle blocks travel in
    /// one device write, so the whole request costs at most 5 operations;
    /// without it they go one write at a time through the scratch block.
    /// Either way the device ends up with the same bytes.  A failure of the
    /// device aborts the request at once; the device's contents over the
    /// attempted range are then unspecified.
    #[verifier::loop_isolation(false)]
    #[verifier::rlimit(30)]
    pub fn write_internal(&mut self, offset: u64, buf: &[u8], bulk_middle: bool) -> (r:
        BlockResult<()>)
        requires
            old(self).inv(),
            offset + buf@.len() <= u64::MAX,
        ensures
            final(self).inv(),
            final(self).bytes().len() == old(self).bytes().len(),
            buf@.len() == 0 ==> r is Ok,
            old(self).ops() <= final(self).ops(),
            final(self).ops() <= old(self).ops() + write_op_count(
                offset as int,
                buf@.len() as int,
                bulk_middle,
            ),
            r is Ok ==> (buf@.len() > 0 ==> offset + buf@.len() <= final(self).bytes().len())
                && final(self).bytes() == splice_bytes(old(self).bytes(), offset as int, buf@)
                && final(self).ops() == old(self).ops() + write_op_count(
                    offset as int,
                    buf@.len() as int,
                    bulk_middle,
                ),
            r matches Err(e) ==> 1 <= e.block_count.0
                && request_first_block(offset as int) <= e.start_index.0
                && e.start_index.0 + e.block_count.0 <= request_block_end(
                    offset as int,
                    buf@.len() as int,
                ),
    {
        let ghost dev = old(self).bytes();
        let ghost s = BLOCK_SIZE as int;
        let len: usize = buf.len();
        let ghost ll = len as int;
        let off_rem: usize = (offset % (BLOCK_SIZE as u64)) as usize;
        let first_len: usize = if off_rem == 0 {
            0
        } else if BLOCK_SIZE - off_rem <= len {
            BLOCK_SIZE - off_rem
        } else {
            len
        };
        let first_block: u64 = offset / (BLOCK_SIZE as u64);
        let mid_start: u64 = offset + first_len as u64;
        let mid_block: u64 = mid_start / (BLOCK_SIZE as u64);
        proof {
            lemma_fundamental_div_mod((len - first_len) as int, s);
            lemma_mod_bound((len - first_len) as int, s);
        }
        let mid_count: usize = (len - first_len) / BLOCK_SIZE;
        let end_pos: usize = first_len + mid_count * BLOCK_SIZE;
        let end_len: usize = len - end_pos;
        proof {
            lemma_split_geometry(
                offset as int,
                ll,
                first_block as int,
                off_rem as int,
                first_len as int,
                mid_start as int,
                mid_block as int,
                mid_count as int,
                end_pos as int,
                end_len as int,
            );
        }
        let end_block: u64 = mid_block + mid_count as u64;

        // the leading partial block, if any: read-modify-write
        if first_len > 0 {
            match self.write_partial(first_block, off_rem, first_len, buf, 0) {
                Ok(()) => {},
                Err(e) => {
                    return Err(e);
                },
            }
        }
        let ghost dev1 = self.bytes();
        proof {
            assert(forall|i: int|
                0 <= i < dev.len()
                    ==> dev1[i] == if offset <= i < offset + first_len {
                        buf@[i - offset]
                    } else {
                        dev[i]
                    });
        }

        // the whole middle blocks, if any: plain writes, no read needed
        if mid_count > 0 {
            let r = if bulk_middle {
                self.write_middle_bulk(mid_block, mid_count, buf, first_len)
            } else {
                self.write_middle_slow(mid_block, mid_count, buf, first_len)
            };
            match r {
                Ok(()) => {},
                Err(e) => {
                    return Err(e);
                },
            }
            proof {
                assert(forall|i: int|
                    0 <= i < dev.len()
                        ==> self.bytes()[i] == if offset <= i < offset + end_pos {
                            buf@[i - offset]
                        } else {
                            dev[i]
                        });
            }
        }

        // the trailing partial block, if any: read-modify-write
        if end_len > 0 {
            match self.write_partial(end_block, 0, end_len, buf, end_pos) {
                Ok(()) => {},
                Err(e) => {
                    return Err(e);
                },
            }
        }

        proof {
            // the device now holds the buffer's bytes over the written range
            // and is unchanged elsewhere
            assert(self.bytes() =~= splice_bytes(dev, offset as int, buf@));
            // a successful request that wrote anything lies in range: the
            // last nonempty region's device operation was in range
            if ll > 0 {
                if end_len > 0 {
                    assert(offset + ll <= (end_block + 1) * s);
                } else if mid_count > 0 {
                    assert(offset + ll == end_block * s);
                } else {
                    assert(offset + ll <= (first_block + 1) * s);
                }
            }
        }
        Ok(())
    }
}

impl<BD: BlockDevice> StorageDevice for StorageBlockDevice<BD> {
    /// The device's bytes are the wrapped block device's blocks, laid out
    /// contiguously.
    closed spec fn bytes(&self) -> Seq<u8> {
        device_bytes(self.block_device.blocks())
    }

    closed spec fn inv(&self) -> bool {
        &&& self.block_device.inv()
        &&& self.tmp_block@.len() == 1
        &&& self.tmp_block@[0].wf()
    }

    /// Calls [`Self::read_internal`] on the one-operation middle path and
    /// adds the byte-granular error context.
    fn read(&mut self, offset: u64, buf: &mut Vec<u8>) -> (r: IoResult<()>)
        ensures
            old(self).ops() <= final(self).ops(),
            final(self).ops() <= old(self).ops() + read_op_count(
                offset as int,
                old(buf)@.len() as int,
                true,
            ),
            r is Ok ==> final(self).ops() == old(self).ops() + read_op_count(
                offset as int,
                old(buf)@.len() as int,
                true,
            ),
            r matches Err(e) ==> e.block_device_error matches Some(b)
                && b.operation == IoOperation::Read && 1 <= b.block_count.0
                && request_first_block(offset as int) <= b.start_index.0
                && b.start_index.0 + b.block_count.0 <= request_block_end(
                    offset as int,
                    old(buf)@.len() as int,
                ),
    {
        let n = buf.len();
        match self.read_internal(offset, buf, true) {
            Ok(()) => Ok(()),
            Err(bd_error) => Err(IoError {
                operation: IoOperation::Read,
                offset,
                len: n,
                block_device_error: Some(bd_error),
            }),
        }
    }

    /// Calls [`Self::write_internal`] on the one-operation middle path and
    /// adds the byte-granular error context.
    fn write(&mut self, offset: u64, buf: &[u8]) -> (r: IoResult<()>)
        ensures
            old(self).ops() <= final(self).ops(),
            final(self).ops() <= old(self).ops() + write_op_count(
                offset as int,
                buf@.len() as int,
                true,
            ),
            r is Ok ==> final(self).ops() == old(self).ops() + write_op_count(
                offset as int,
                buf@.len() as int,
                true,
            ),
            r matches Err(e) ==> e.block_device_error matches Some(b)
                && 1 <= b.block_count.0
                && request_first_block(offset as int) <= b.start_index.0
                && b.start_index.0 + b.block_count.0 <= request_block_end(
                    offset as int,
                    buf@.len() as int,
                ),
    {
        match self.write_internal(offset, buf, true) {
            Ok(()) => Ok(()),
            Err(bd_error) => Err(IoError {
                operation: IoOperation::Write,
                offset,
                len: buf.len(),
                block_device_error: Some(bd_error),
            }),
        }
    }

    /// Asks the wrapped device for its block count and converts it to bytes.
    ///
    /// Fails when the device cannot report its count, or when its byte
    /// length does not fit in a `u64`.
    fn len(&mut self) -> (r: Result<u64, ()>) {
        match self.block_device.count() {
            Ok(c) => count_into_len(c),
            Err(_) => Err(()),
        }
    }
}

/// Converts a device's block count to its byte length: succeeds exactly
/// when the product fits a `u64`.
fn count_into_len(count: BlockCount) -> (r: Result<u64, ()>)
    ensures
        r is Ok <==> count.0 * (BLOCK_SIZE as int) <= u64::MAX,
        r matches Ok(n) ==> n == count.0 * (BLOCK_SIZE as int),
{
    proof {
        lemma_fundamental_div_mod(u64::MAX as int, BLOCK_SIZE as int);
    }
    if count.0 <= u64::MAX / (BLOCK_SIZE as u64) {
        Ok(count.into_bytes_count())
    } else {
        Err(())
    }
}

/// Round-trip identity: writing a buffer and then reading the same range
/// back yields the original bytes.
///
/// A successful write of `data` at `offset` leaves
/// `splice_bytes(dev, offset, data)` on the device, and a successful read
/// of the same range returns its `byte_range`; for any device contents,
/// any offset and any length within the device's bounds the two compose to
/// `data` — however the request was split, and whichever middle path
/// served it.
pub proof fn lemma_round_trip(dev: Seq<u8>, offset: int, data: Seq<u8>)
    requires
        0 <= offset,
        offset + data.len() <= dev.len(),
    ensures
        byte_range(splice_bytes(dev, offset, data), offset, data.len() as int) == data,
{
    assert(byte_range(splice_bytes(dev, offset, data), offset, data.len() as int) =~= data);
}

/// A write changes no byte outside the written range.
pub proof fn lemma_write_frame(dev: Seq<u8>, offset: int, data: Seq<u8>, i: int)
    requires
        0 <= i < dev.len(),
        !(offset <= i < offset + data.len()),
    ensures
        splice_bytes(dev, offset, data)[i] == dev[i],
{
}

/// A block-aligned request has no partial regions: a nonempty read at a
/// block-aligned offset with a block-aligned length costs exactly one
/// device operation, and a write exactly one — no read-modify-write cost
/// is paid when none is needed.
pub proof fn lemma_aligned_request_ops(offset: int, len: int)
    requires
        0 <= offset,
        0 < len,
        offset % (BLOCK_SIZE as int) == 0,
        len % (BLOCK_SIZE as int) == 0,
    ensures
        first_part_len(offset, len) == 0,
        end_part_len(offset, len) == 0,
        middle_block_count(offset, len) == len / (BLOCK_SIZE as int),
        read_op_count(offset, len, true) == 1,
        write_op_count(offset, len, true) == 1,
{
    let s = BLOCK_SIZE as int;
    lemma_fundamental_div_mod(len, s);
    let q = len / s;
    assert(q > 0) by (nonlinear_arith)
        requires
            len == s * q,
            len > 0,
            s == 512;
}

/// On the one-operation middle path, any read costs at most 3 device
/// operations and any write at most 5, whatever the offset and length.
pub proof fn lemma_bulk_op_bounds(offset: int, len: int)
    requires
        0 <= offset,
        0 <= len,
    ensures
        read_op_count(offset, len, true) <= 3,
        write_op_count(offset, len, true) <= 5,
{
}

/// Path independence of reads: the contract of
/// [`StorageBlockDevice::read_internal`] pins the delivered bytes as the
/// device's `byte_range` whichever middle path served the request, so two
/// successful reads of the same range over the same device contents
/// deliver the same bytes on the one-operation path and on the per-block
/// fallback path.  The paths differ only in cost: `read_op_count` with and
/// without `bulk_middle`.
pub proof fn lemma_read_path_independence(
    dev: Seq<u8>,
    offset: int,
    len: int,
    fast: Seq<u8>,
    slow: Seq<u8>,
)
    requires
        fast == byte_range(dev, offset, len),
        slow == byte_range(dev, offset, len),
    ensures
        fast == slow,
{
}

/// Path independence of writes: the contract of
/// [`StorageBlockDevice::write_internal`] pins the device's contents after
/// a successful write as the same `splice_bytes`, whichever middle path
/// served the request.
pub proof fn lemma_write_path_independence(
    dev: Seq<u8>,
    offset: int,
    data: Seq<u8>,
    fast: Seq<u8>,
    slow: Seq<u8>,
)
    requires
        fast == splice_bytes(dev, offset, data),
        slow == splice_bytes(dev, offset, data),
    ensures
        fast == slow,
{
}

/// Builds a block out of the [`BLOCK_SIZE`] bytes of `src` starting at
/// `start`.
fn block_from_bytes(src: &[u8], start: usize) -> (r: Block)
    requires
        start + BLOCK_SIZE <= src@.len(),
    ensures
        r.wf(),
        r@ == src@.subrange(start as int, start as int + BLOCK_SIZE as int),
{
    let mut contents: Vec<u8> = Vec::new();
    let src_len: usize = src.len();
    let mut i: usize = 0;
    while i < BLOCK_SIZE
        invariant
            i <= BLOCK_SIZE,
            src@.len() == src_len,
            start + BLOCK_SIZE <= src_len,
            contents@.len() == i as nat,
            forall|j: int| 0 <= j < i ==> contents@[j] == src@[start + j],
        decreases BLOCK_SIZE - i,
    {
        contents.push(src[start + i]);
        i = i + 1;
    }
    proof {
        assert(contents@ =~= src@.subrange(start as int, start as int + BLOCK_SIZE as int));
    }
    Block { contents }
}

/// Copies `count` bytes from `src[src_start..]` into `dst[dst_start..]`,
/// leaving every other byte of `dst` unchanged.
fn copy_bytes(dst: &mut Vec<u8>, dst_start: usize, src: &[u8], src_start: usize, count: usize)
    requires
        dst_start + count <= old(dst)@.len(),
        src_start + count <= src@.len(),
    ensures
        final(dst)@.len() == old(dst)@.len(),
        forall|k: int|
            0 <= k < final(dst)@.len()
                ==> final(dst)@[k] == if dst_start <= k < dst_start + count {
                    src@[src_start + (k - dst_start)]
                } else {
                    old(dst)@[k]
                },
{
    let dst_len: usize = dst.len();
    let src_len: usize = src.len();
    let mut i: usize = 0;
    while i < count
        invariant
            i <= count,
            dst@.len() == dst_len,
            src@.len() == src_len,
            dst_start + count <= dst_len,
            src_start + count <= src_len,
            dst@.len() == old(dst)@.len(),
            forall|k: int|
                0 <= k < dst@.len()
                    ==> dst@[k] == if dst_start <= k < dst_start + i {
                        src@[src_start + (k - dst_start)]
                    } else {
                        old(dst)@[k]
                    },
        decreases count - i,
    {
        dst[dst_start + i] = src[src_start + i];
        i = i + 1;
    }
}

} // verus!
