//! The fixed-size record that block devices transfer.

use vstd::prelude::*;

verus! {

/// Number of bytes in one block.
pub const BLOCK_SIZE: usize = 512;

/// A fixed-size record representing exactly one physical block.
///
/// A block device transfers whole blocks only; the byte-granular adapter
/// views a run of them as a flat byte range.  A well-formed block holds
/// exactly [`BLOCK_SIZE`] bytes, and its view covers every one of them.
pub struct Block {
    /// The block's bytes.
    pub contents: Vec<u8>,
}

impl View for Block {
    type V = Seq<u8>;

    open spec fn view(&self) -> Seq<u8> {
        self.contents@
    }
}

impl Block {
    /// A block is well formed when it holds exactly [`BLOCK_SIZE`] bytes.
    pub open spec fn wf(&self) -> bool {
        self@.len() == BLOCK_SIZE as nat
    }

    /// Builds a zero-filled block.
    pub fn new() -> (r: Block)
        ensures
            r.wf(),
            r@ == Seq::new(BLOCK_SIZE as nat, |i: int| 0u8),
    {
        let mut contents: Vec<u8> = Vec::new();
        let mut i: usize = 0;
        while i < BLOCK_SIZE
            invariant
                i <= BLOCK_SIZE,
                contents@.len() == i as nat,
                forall|j: int| 0 <= j < i ==> contents@[j] == 0u8,
            decreases BLOCK_SIZE - i,
        {
            contents.push(0u8);
            i = i + 1;
        }
        proof {
            assert(contents@ =~= Seq::new(BLOCK_SIZE as nat, |j: int| 0u8));
        }
        Block { contents }
    }
}

impl Clone for Block {
    /// Clones a block byte for byte.
    fn clone(&self) -> (r: Block)
        ensures
            r@ == self@,
    {
        let mut contents: Vec<u8> = Vec::new();
        let mut i: usize = 0;
        while i < self.contents.len()
            invariant
                i <= self.contents@.len(),
                contents@.len() == i as nat,
                forall|j: int| 0 <= j < i ==> contents@[j] == self.contents@[j],
            decreases self.contents@.len() - i,
        {
            contents.push(self.contents[i]);
            i = i + 1;
        }
        proof {
            assert(contents@ =~= self@);
        }
        Block { contents }
    }
}

impl Default for Block {
    /// The canonical empty block: zero-filled, well formed.
    fn default() -> (r: Block)
        ensures
            r.wf(),
            r@ == Seq::new(BLOCK_SIZE as nat, |i: int| 0u8),
    {
        Block::new()
    }
}

} // verus!
