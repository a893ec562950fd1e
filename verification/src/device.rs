//! The block device: a flat sequence of equally sized blocks held in memory,
//! addressed by block index.  This is the only unit of I/O every layer above
//! works with.

use crate::byteops::splice;
use crate::errors::FileSystemError;
use vstd::prelude::*;
use vstd::slice::slice_to_vec;

verus! {

/// A block of all-zero bytes, the state of every block of a fresh device.
pub open spec fn zero_bytes(n: int) -> Seq<u8> {
    Seq::new(n as nat, |_j: int| 0u8)
}

/// One block's worth of bytes, together with the index of the block it was
/// read from or is destined for.
#[derive(Debug)]
pub struct Block {
    /// The absolute block index this buffer belongs to.
    pub block_no: u64,
    /// The block's bytes; always exactly one block long.
    pub data: Vec<u8>,
}

impl Block {
    /// A block buffer for index `block_no` holding the given bytes.
    pub fn new(block_no: u64, data: Vec<u8>) -> (b: Block)
        ensures
            b.block_no == block_no,
            b.data@ == data@,
    {
        Block { block_no, data }
    }

    /// An all-zero block buffer for index `block_no`.
    pub fn new_zero(block_no: u64, block_size: u64) -> (b: Block)
        requires
            block_size <= usize::MAX as u64,
        ensures
            b.block_no == block_no,
            b.data@ == zero_bytes(block_size as int),
    {
        let data: Vec<u8> = vec![0u8; block_size as usize];
        proof {
            assert(data@ =~= zero_bytes(block_size as int));
        }
        Block { block_no, data }
    }

    /// The block's bytes, read-only.
    pub fn contents_as_ref(&self) -> (s: &[u8])
        ensures
            s@ == self.data@,
    {
        self.data.as_slice()
    }

    /// The block's length in bytes.
    pub fn len(&self) -> (n: u64)
        ensures
            n == self.data@.len(),
    {
        self.data.len() as u64
    }

    /// Overwrites the bytes at `[offset, offset + data.len())` of this block.
    /// An offset that would run past the end of the block is a range error.
    pub fn write_data(&mut self, data: &[u8], offset: u64) -> (r: Result<(), FileSystemError>)
        ensures
            final(self).block_no == old(self).block_no,
            match r {
                Ok(()) => {
                    &&& offset + data@.len() <= old(self).data@.len()
                    &&& final(self).data@ == splice(old(self).data@, offset as int, data@)
                },
                Err(e) => {
                    &&& e == FileSystemError::IndexOutOfBounds
                    &&& offset + data@.len() > old(self).data@.len()
                    &&& final(self).data@ == old(self).data@
                },
            },
    {
        let len = self.data.len();
        let dlen = data.len();
        if offset > len as u64 || dlen as u64 > len as u64 - offset {
            return Err(FileSystemError::IndexOutOfBounds);
        }
        crate::byteops::write_bytes(&mut self.data, offset as usize, data);
        Ok(())
    }
}

/// An in-memory block device: `nblocks` blocks of `block_size` bytes each.
#[derive(Debug)]
pub struct Device {
    /// Size of every block, in bytes.
    pub block_size: u64,
    /// Number of blocks.
    pub nblocks: u64,
    /// The blocks' bytes, one vector per block.
    pub blocks: Vec<Vec<u8>>,
}

impl Device {
    /// The mathematical contents of the device: one byte sequence per block.
    pub open spec fn disk(&self) -> Seq<Seq<u8>> {
        Seq::new(self.blocks@.len(), |i: int| self.blocks@[i]@)
    }

    /// A device is well formed when it holds exactly `nblocks` blocks of
    /// exactly `block_size` bytes each.
    pub open spec fn wf(&self) -> bool {
        &&& self.block_size <= usize::MAX as u64
        &&& self.nblocks <= usize::MAX as u64
        &&& self.disk().len() == self.nblocks
        &&& forall|i: int|
            0 <= i < self.disk().len() ==> (#[trigger] self.disk()[i]).len() == self.block_size
    }

    /// A fresh device of the requested geometry, all blocks zero-filled.
    pub fn new(block_size: u64, nblocks: u64) -> (d: Device)
        requires
            block_size <= usize::MAX as u64,
            nblocks <= usize::MAX as u64,
        ensures
            d.wf(),
            d.block_size == block_size,
            d.nblocks == nblocks,
            forall|i: int| 0 <= i < nblocks ==> d.disk()[i] == zero_bytes(block_size as int),
    {
        let mut blocks: Vec<Vec<u8>> = Vec::new();
        let mut k: u64 = 0;
        while k < nblocks
            invariant
                block_size <= usize::MAX as u64,
                nblocks <= usize::MAX as u64,
                k <= nblocks,
                blocks@.len() == k,
                forall|i: int|
                    0 <= i < k ==> (#[trigger] blocks@[i])@ == zero_bytes(block_size as int),
            decreases nblocks - k,
        {
            let data: Vec<u8> = vec![0u8; block_size as usize];
            proof {
                assert(data@ =~= zero_bytes(block_size as int));
            }
            blocks.push(data);
            k += 1;
        }
        Device { block_size, nblocks, blocks }
    }
}

/// Reads the block at index `i` of the device; an index at or beyond the
/// device's block count is an index error.
pub fn read_block(dev: &Device, i: u64) -> (r: Result<Block, FileSystemError>)
    requires
        dev.wf(),
    ensures
        match r {
            Ok(b) => {
                &&& i < dev.nblocks
                &&& b.block_no == i
                &&& b.data@ == dev.disk()[i as int]
            },
            Err(e) => {
                &&& e == FileSystemError::IndexOutOfBounds
                &&& i >= dev.nblocks
            },
        },
{
    if i >= dev.nblocks {
        return Err(FileSystemError::IndexOutOfBounds);
    }
    let _nb = dev.blocks.len();
    proof {
        assert(i as usize as u64 == i);
    }
    let data = slice_to_vec(dev.blocks[i as usize].as_slice());
    Ok(Block { block_no: i, data })
}

/// Writes the block buffer back to the device at the buffer's own block
/// index.  The index must lie inside the device and the buffer must be
/// exactly one block long.
pub fn write_block(dev: &mut Device, b: &Block) -> (r: Result<(), FileSystemError>)
    requires
        old(dev).wf(),
    ensures
        final(dev).wf(),
        final(dev).block_size == old(dev).block_size,
        final(dev).nblocks == old(dev).nblocks,
        match r {
            Ok(()) => {
                &&& b.block_no < old(dev).nblocks
                &&& b.data@.len() == old(dev).block_size
                &&& final(dev).disk() == old(dev).disk().update(b.block_no as int, b.data@)
            },
            Err(e) => {
                &&& final(dev).disk() == old(dev).disk()
                &&& (b.block_no >= old(dev).nblocks || b.data@.len() != old(dev).block_size)
                &&& e == (if b.block_no >= old(dev).nblocks {
                    FileSystemError::IndexOutOfBounds
                } else {
                    FileSystemError::RangeError
                })
            },
        },
{
    if b.block_no >= dev.nblocks {
        return Err(FileSystemError::IndexOutOfBounds);
    }
    let len = b.data.len();
    if len as u64 != dev.block_size {
        return Err(FileSystemError::RangeError);
    }
    let data = slice_to_vec(b.data.as_slice());
    let _nb = dev.blocks.len();
    proof {
        assert(b.block_no as usize as u64 == b.block_no);
    }
    dev.blocks.set(b.block_no as usize, data);
    proof {
        assert(dev.disk() =~~= old(dev).disk().update(b.block_no as int, b.data@));
    }
    Ok(())
}

} // verus!
