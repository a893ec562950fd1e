//! The free-space allocator: one bit per data block, packed into the bitmap
//! region, 1 = allocated.  Allocation is first-fit at the lowest free index;
//! freeing a free block is rejected, never ignored.

use crate::device::{zero_bytes, Block, Device};
use crate::errors::FileSystemError;
use crate::fs::FileSystem;
use crate::layout::{
    lemma_valid_geometry, spec_bits_per_block, spec_nbitmapblocks, spec_sb_valid, SuperBlock,
};
use crate::model::{
    fs_view, lemma_bit_location, lemma_bit_update, lemma_bitmap_frame, lemma_inodes_frame,
    nth_bit, spec_bit_at, spec_bit_block, spec_bit_byte, spec_bit_index,
};
use vstd::arithmetic::div_mod::{
    lemma_fundamental_div_mod, lemma_fundamental_div_mod_converse, lemma_mod_bound,
};
use vstd::prelude::*;

verus! {

/// `i` is the lowest free data index of the bitmap.
pub open spec fn is_first_free(bitmap: Seq<bool>, i: int) -> bool {
    &&& 0 <= i < bitmap.len()
    &&& !bitmap[i]
    &&& forall|j: int| 0 <= j < i ==> bitmap[j]
}

/// Every data block of the bitmap is allocated.
pub open spec fn all_allocated(bitmap: Seq<bool>) -> bool {
    forall|j: int| 0 <= j < bitmap.len() ==> bitmap[j]
}

/// A data index never reaches past the span of the bitmap region.
proof fn lemma_index_below_region_span(sb: SuperBlock)
    requires
        spec_sb_valid(sb),
    ensures
        sb.ndatablocks as int <= spec_nbitmapblocks(sb) * spec_bits_per_block(sb),
{
    let a = sb.ndatablocks as int;
    let b = spec_bits_per_block(sb);
    lemma_fundamental_div_mod(a, b);
    lemma_mod_bound(a, b);
    if a % b == 0 {
        assert(a == b * (a / b));
        assert(b * (a / b) == (a / b) * b) by (nonlinear_arith);
    } else {
        assert(a == b * (a / b) + a % b);
        assert((a / b + 1) * b == b * (a / b) + b) by (nonlinear_arith);
    }
}

/// A bitmap block ordinal that is still scanned starts at or below the data
/// block count, so scan positions fit comfortably in machine words.
proof fn lemma_scan_base_bound(sb: SuperBlock, q: int)
    requires
        spec_sb_valid(sb),
        0 <= q < spec_nbitmapblocks(sb),
    ensures
        q * spec_bits_per_block(sb) <= sb.ndatablocks as int,
{
    let a = sb.ndatablocks as int;
    let b = spec_bits_per_block(sb);
    lemma_fundamental_div_mod(a, b);
    lemma_mod_bound(a, b);
    if a % b == 0 {
        assert(q <= a / b - 1);
    }
    assert(q * b <= a) by (nonlinear_arith)
        requires
            a == b * (a / b) + a % b,
            0 <= a % b < b,
            b > 0,
            (a % b == 0 && q <= a / b - 1) || (a % b != 0 && q <= a / b),
    ;
}

/// The data index that lives at bit `r` of byte `t` of bitmap block ordinal
/// `q`, and the fact that the location functions invert it.
pub proof fn lemma_bit_location_converse(sb: SuperBlock, q: int, t: int, r: int)
    requires
        spec_sb_valid(sb),
        0 <= q,
        0 <= t < sb.block_size,
        0 <= r < 8,
    ensures
        ({
            let i = q * spec_bits_per_block(sb) + 8 * t + r;
            &&& i / spec_bits_per_block(sb) == q
            &&& spec_bit_byte(sb, i) == t
            &&& spec_bit_index(sb, i) == r
        }),
{
    let bpb = spec_bits_per_block(sb);
    let c = sb.block_size as int;
    let i = q * bpb + 8 * t + r;
    assert(0 <= 8 * t + r < bpb);
    assert(q * bpb == bpb * q) by (nonlinear_arith);
    lemma_fundamental_div_mod_converse(i, bpb, q, 8 * t + r);
    lemma_fundamental_div_mod_converse(8 * t + r, 8, t, r);
    assert((q * c + t) * 8 + r == i) by (nonlinear_arith)
        requires
            bpb == c * 8,
            i == q * bpb + 8 * t + r,
    ;
    lemma_fundamental_div_mod_converse(i, 8, q * c + t, r);
}

/// Computes, for the data index `index`, the bit position inside its byte,
/// the byte offset inside its bitmap block, and the absolute index of that
/// bitmap block.
pub fn get_bit_byte_blockindex(sb: &SuperBlock, index: u64) -> (r: Result<
    (u8, u64, u64),
    FileSystemError,
>)
    requires
        spec_sb_valid(*sb),
    ensures
        match r {
            Ok((bit, byte, blk)) => {
                &&& index < sb.ndatablocks
                &&& bit as int == spec_bit_index(*sb, index as int)
                &&& byte as int == spec_bit_byte(*sb, index as int)
                &&& blk as int == spec_bit_block(*sb, index as int)
            },
            Err(e) => {
                &&& e == FileSystemError::IndexOutOfBounds
                &&& index >= sb.ndatablocks
            },
        },
{
    if index >= sb.ndatablocks {
        return Err(FileSystemError::IndexOutOfBounds);
    }
    proof {
        lemma_bit_location(*sb, index as int);
    }
    let bits: u128 = sb.block_size as u128 * 8;
    let bit: u8 = (index % 8) as u8;
    let byte: u64 = ((index as u128 % bits) / 8) as u64;
    let blk: u64 = (sb.bmapstart as u128 + index as u128 / bits) as u64;
    Ok((bit, byte, blk))
}

/// Whether bit `k` of `b` is set.
fn test_bit(b: u8, k: u8) -> (r: bool)
    requires
        k < 8,
    ensures
        r == nth_bit(b, k),
{
    (b >> k) & 1 == 1
}

/// The lowest clear bit of a byte that is not fully set.
fn find_zero_bit(b: u8) -> (r: u8)
    requires
        b != 0xFF,
    ensures
        r < 8,
        !nth_bit(b, r),
        forall|k: u8| k < r ==> nth_bit(b, k),
{
    let mut k: u8 = 0;
    while k < 8
        invariant
            k <= 8,
            forall|j: u8| j < k ==> nth_bit(b, j),
        decreases 8 - k,
    {
        if (b >> k) & 1 == 0 {
            return k;
        }
        proof {
            assert(k < 8 && (b >> k) & 1 != 0 ==> (b >> k) & 1 == 1) by (bit_vector);
        }
        k += 1;
    }
    proof {
        assert(((b >> 0) & 1 == 1 && (b >> 1) & 1 == 1 && (b >> 2) & 1 == 1 && (b >> 3) & 1 == 1
            && (b >> 4) & 1 == 1 && (b >> 5) & 1 == 1 && (b >> 6) & 1 == 1 && (b >> 7) & 1 == 1)
            ==> b == 0xFF) by (bit_vector);
        assert(nth_bit(b, 0) && nth_bit(b, 1) && nth_bit(b, 2) && nth_bit(b, 3) && nth_bit(b, 4)
            && nth_bit(b, 5) && nth_bit(b, 6) && nth_bit(b, 7));
        assert(false);
    }
    0
}

/// Finds the first byte of the array that still has a clear bit; a fully set
/// array is an allocation failure.
pub fn get_bytesarray_free_index(byte_array: &[u8]) -> (r: Result<u16, FileSystemError>)
    requires
        byte_array@.len() <= 0x10000,
    ensures
        match r {
            Ok(t) => {
                &&& (t as int) < byte_array@.len()
                &&& byte_array@[t as int] != 0xFF
                &&& forall|j: int| 0 <= j < t as int ==> byte_array@[j] == 0xFF
            },
            Err(e) => {
                &&& e == FileSystemError::AllocationError
                &&& forall|j: int| 0 <= j < byte_array@.len() ==> byte_array@[j] == 0xFF
            },
        },
{
    let n = byte_array.len();
    let mut t: usize = 0;
    while t < n
        invariant
            n == byte_array@.len(),
            n <= 0x10000,
            t <= n,
            forall|j: int| 0 <= j < t as int ==> byte_array@[j] == 0xFF,
        decreases n - t,
    {
        if byte_array[t] != 0xFF {
            return Ok(t as u16);
        }
        t += 1;
    }
    Err(FileSystemError::AllocationError)
}

/// Sets (`n == true`) or clears (`n == false`) the allocation bit of data
/// index `data_index`.  Clearing a bit that is already clear is rejected as
/// a double free.
pub fn set_bitmapbit(sb: &SuperBlock, dev: &mut Device, data_index: u64, n: bool) -> (r: Result<
    (),
    FileSystemError,
>)
    requires
        old(dev).wf(),
        spec_sb_valid(*sb),
        old(dev).block_size == sb.block_size,
        old(dev).nblocks == sb.nblocks,
    ensures
        final(dev).wf(),
        final(dev).block_size == old(dev).block_size,
        final(dev).nblocks == old(dev).nblocks,
        match r {
            Ok(()) => {
                &&& data_index < sb.ndatablocks
                &&& (!n ==> fs_view(*sb, old(dev).disk()).bitmap[data_index as int])
                &&& fs_view(*sb, final(dev).disk()).bitmap == fs_view(
                    *sb,
                    old(dev).disk(),
                ).bitmap.update(data_index as int, n)
                &&& fs_view(*sb, final(dev).disk()).inodes == fs_view(*sb, old(dev).disk()).inodes
                &&& fs_view(*sb, final(dev).disk()).data == fs_view(*sb, old(dev).disk()).data
                &&& forall|t: int|
                    0 <= t < old(dev).disk().len() && t != spec_bit_block(*sb, data_index as int)
                        ==> final(dev).disk()[t] == old(dev).disk()[t]
            },
            Err(e) => {
                &&& final(dev).disk() == old(dev).disk()
                &&& (data_index >= sb.ndatablocks || (!n && !fs_view(
                    *sb,
                    old(dev).disk(),
                ).bitmap[data_index as int]))
                &&& e == (if data_index >= sb.ndatablocks {
                    FileSystemError::IndexOutOfBounds
                } else {
                    FileSystemError::AllreadyFreeError
                })
            },
        },
{
    let (bit, byte, blk) = match get_bit_byte_blockindex(sb, data_index) {
        Ok(loc) => loc,
        Err(e) => {
            return Err(e);
        },
    };
    proof {
        lemma_bit_location(*sb, data_index as int);
        lemma_valid_geometry(*sb);
    }
    let mut bmblock = match crate::device::read_block(dev, blk) {
        Ok(b) => b,
        Err(e) => {
            return Err(e);
        },
    };
    let old_byte = bmblock.data[byte as usize];
    let set_now = test_bit(old_byte, bit);
    if !n && !set_now {
        return Err(FileSystemError::AllreadyFreeError);
    }
    let new_byte = if n {
        old_byte | (1u8 << bit)
    } else {
        old_byte & !(1u8 << bit)
    };
    let mut one: Vec<u8> = Vec::new();
    one.push(new_byte);
    match bmblock.write_data(one.as_slice(), byte) {
        Ok(()) => {},
        Err(e) => {
            return Err(e);
        },
    }
    match crate::device::write_block(dev, &bmblock) {
        Ok(()) => {},
        Err(e) => {
            return Err(e);
        },
    }
    proof {
        let i = data_index as int;
        assert(one@ =~= seq![new_byte]);
        lemma_bit_update(*sb, old(dev).disk(), i, n);
        assert(dev.disk() =~~= old(dev).disk().update(
            spec_bit_block(*sb, i),
            crate::byteops::splice(old(dev).disk()[spec_bit_block(*sb, i)], spec_bit_byte(*sb, i), seq![new_byte]),
        ));
    }
    Ok(())
}

impl FileSystem {
    /// Clears the allocation bit of data index `i`; an index outside the data
    /// region is an index error, a bit that is already clear a double free.
    pub fn b_free(&mut self, i: u64) -> (r: Result<(), FileSystemError>)
        requires
            old(self).wf(),
        ensures
            final(self).wf(),
            final(self).superblock == old(self).superblock,
            match r {
                Ok(()) => {
                    &&& i < old(self).superblock.ndatablocks
                    &&& old(self)@.bitmap[i as int]
                    &&& final(self)@.bitmap == old(self)@.bitmap.update(i as int, false)
                    &&& final(self)@.inodes == old(self)@.inodes
                    &&& final(self)@.data == old(self)@.data
                    &&& forall|t: int|
                        0 <= t < old(self).device.disk().len() && t != spec_bit_block(
                            old(self).superblock,
                            i as int,
                        ) ==> final(self).device.disk()[t] == old(self).device.disk()[t]
                },
                Err(e) => {
                    &&& final(self).device.disk() == old(self).device.disk()
                    &&& (i >= old(self).superblock.ndatablocks || !old(self)@.bitmap[i as int])
                    &&& e == (if i >= old(self).superblock.ndatablocks {
                        FileSystemError::IndexOutOfBounds
                    } else {
                        FileSystemError::AllreadyFreeError
                    })
                },
            },
    {
        let sb = self.superblock;
        set_bitmapbit(&sb, &mut self.device, i, false)
    }

    /// Rewrites data block `i` (a data-region-relative index) to all zero
    /// bytes.
    pub fn b_zero(&mut self, i: u64) -> (r: Result<(), FileSystemError>)
        requires
            old(self).wf(),
        ensures
            final(self).wf(),
            final(self).superblock == old(self).superblock,
            match r {
                Ok(()) => {
                    &&& i < old(self).superblock.ndatablocks
                    &&& final(self)@.data == old(self)@.data.update(
                        i as int,
                        zero_bytes(old(self).superblock.block_size as int),
                    )
                    &&& final(self)@.bitmap == old(self)@.bitmap
                    &&& final(self)@.inodes == old(self)@.inodes
                    &&& forall|t: int|
                        0 <= t < old(self).device.disk().len() && t != old(
                            self,
                        ).superblock.datastart + i ==> final(self).device.disk()[t] == old(
                            self,
                        ).device.disk()[t]
                },
                Err(e) => {
                    &&& final(self).device.disk() == old(self).device.disk()
                    &&& i >= old(self).superblock.ndatablocks
                    &&& e == FileSystemError::IndexOutOfBounds
                },
            },
    {
        if i >= self.superblock.ndatablocks {
            return Err(FileSystemError::IndexOutOfBounds);
        }
        let block = Block::new_zero(self.superblock.datastart + i, self.superblock.block_size);
        match self.b_put(&block) {
            Ok(()) => {},
            Err(e) => {
                return Err(e);
            },
        }
        proof {
            let sb = old(self).superblock;
            let d1 = old(self).device.disk();
            let d2 = self.device.disk();
            lemma_bitmap_frame(sb, d1, d2);
            lemma_inodes_frame(sb, d1, d2);
            assert(self@.data =~= old(self)@.data.update(
                i as int,
                zero_bytes(sb.block_size as int),
            ));
        }
        Ok(())
    }

    /// Allocates the free data block with the lowest index: scans the bitmap
    /// blocks in order, within each block the bytes in order (skipping fully
    /// set bytes), and takes the lowest clear bit; candidates at or beyond
    /// the data block count are rejected.  The bit is set, the block zeroed,
    /// and the data-region-relative index returned.  A bitmap with no free
    /// data block is an allocation failure.
    pub fn b_alloc(&mut self) -> (r: Result<u64, FileSystemError>)
        requires
            old(self).wf(),
        ensures
            final(self).wf(),
            final(self).superblock == old(self).superblock,
            match r {
                Ok(i) => {
                    &&& is_first_free(old(self)@.bitmap, i as int)
                    &&& final(self)@.bitmap == old(self)@.bitmap.update(i as int, true)
                    &&& final(self)@.data == old(self)@.data.update(
                        i as int,
                        zero_bytes(old(self).superblock.block_size as int),
                    )
                    &&& final(self)@.inodes == old(self)@.inodes
                    &&& forall|t: int|
                        0 <= t < old(self).superblock.bmapstart ==> final(self).device.disk()[t]
                            == old(self).device.disk()[t]
                },
                Err(e) => {
                    &&& e == FileSystemError::AllocationError
                    &&& all_allocated(old(self)@.bitmap)
                    &&& *final(self) == *old(self)
                },
            },
    {
        let sb = self.superblock;
        let nbitmapblocks = crate::layout::get_nbitmapblocks(&sb);
        proof {
            lemma_valid_geometry(sb);
        }
        let bs = sb.block_size;
        let mut q: u64 = 0;
        while q < nbitmapblocks
            invariant
                self.wf(),
                *self == *old(self),
                sb == self.superblock,
                bs == sb.block_size,
                nbitmapblocks as int == spec_nbitmapblocks(sb),
                q <= nbitmapblocks,
                forall|j: int|
                    0 <= j < sb.ndatablocks && j < q * spec_bits_per_block(sb) ==> self@.bitmap[j],
            decreases nbitmapblocks - q,
        {
            let blkno = sb.bmapstart + q;
            let block = match self.b_get(blkno) {
                Ok(b) => b,
                Err(e) => {
                    proof {
                        assert(false);
                    }
                    return Err(e);
                },
            };
            let ghost bpb = spec_bits_per_block(sb);
            let mut t: u64 = 0;
            while t < bs
                invariant
                    self.wf(),
                    *self == *old(self),
                    sb == self.superblock,
                    bs == sb.block_size,
                    nbitmapblocks as int == spec_nbitmapblocks(sb),
                    bpb == spec_bits_per_block(sb),
                    q < nbitmapblocks,
                    blkno == sb.bmapstart + q,
                    block.data@ == self.device.disk()[blkno as int],
                    block.data@.len() == bs,
                    t <= bs,
                    forall|j: int|
                        0 <= j < sb.ndatablocks && j < q * bpb + 8 * t ==> self@.bitmap[j],
                decreases bs - t,
            {
                let byte = block.data[t as usize];
                if byte != 0xFF {
                    let bit = find_zero_bit(byte);
                    proof {
                        lemma_scan_base_bound(sb, q as int);
                    }
                    let cand: u128 = q as u128 * (bs as u128 * 8) + 8 * t as u128 + bit as u128;
                    proof {
                        lemma_bit_location_converse(sb, q as int, t as int, bit as int);
                        assert(cand as int == q as int * bpb + 8 * t as int + bit as int);
                    }
                    if cand < sb.ndatablocks as u128 {
                        let i = cand as u64;
                        proof {
                            // The candidate's bit is clear, and every lower
                            // index is allocated.
                            lemma_bit_location(sb, i as int);
                            assert(spec_bit_block(sb, i as int) == blkno);
                            assert(!self@.bitmap[i as int]);
                            assert forall|j: int| 0 <= j < i as int implies self@.bitmap[j] by {
                                if j >= q as int * bpb + 8 * t as int {
                                    let r = j - (q as int * bpb + 8 * t as int);
                                    lemma_bit_location_converse(sb, q as int, t as int, r);
                                    lemma_bit_location(sb, j);
                                    assert(spec_bit_block(sb, j) == blkno);
                                    assert(spec_bit_at(sb, self.device.disk(), j) == nth_bit(
                                        byte,
                                        r as u8,
                                    ));
                                }
                            }
                        }
                        let sbc = self.superblock;
                        match set_bitmapbit(&sbc, &mut self.device, i, true) {
                            Ok(()) => {},
                            Err(e) => {
                                proof {
                                    assert(false);
                                }
                                return Err(e);
                            },
                        }
                        proof {
                            lemma_bit_location(sb, i as int);
                        }
                        match self.b_zero(i) {
                            Ok(()) => {},
                            Err(e) => {
                                proof {
                                    assert(false);
                                }
                                return Err(e);
                            },
                        }
                        return Ok(i);
                    } else {
                        // The first clear bit lies in the tail of the last
                        // bitmap block: every real data index is allocated.
                        proof {
                            assert forall|j: int| 0 <= j < sb.ndatablocks implies self@.bitmap[j]
                                by {
                                if j >= q as int * bpb + 8 * t as int {
                                    let r = j - (q as int * bpb + 8 * t as int);
                                    assert(j < cand as int);
                                    lemma_bit_location_converse(sb, q as int, t as int, r);
                                    lemma_bit_location(sb, j);
                                    assert(spec_bit_at(sb, self.device.disk(), j) == nth_bit(
                                        byte,
                                        r as u8,
                                    ));
                                    assert(r < bit as int);
                                }
                            }
                        }
                        return Err(FileSystemError::AllocationError);
                    }
                }
                proof {
                    // Every bit of a fully set byte is set.
                    assert forall|j: int|
                        0 <= j < sb.ndatablocks && j < q as int * bpb + 8 * (t as int
                            + 1) implies self@.bitmap[j] by {
                        if j >= q as int * bpb + 8 * t as int {
                            let r = j - (q as int * bpb + 8 * t as int);
                            lemma_bit_location_converse(sb, q as int, t as int, r);
                            lemma_bit_location(sb, j);
                            assert(spec_bit_at(sb, self.device.disk(), j) == nth_bit(
                                byte,
                                r as u8,
                            ));
                            assert(0 <= r < 8);
                            let rb = r as u8;
                            assert(byte == 0xFF && rb < 8 ==> (byte >> rb) & 1 == 1)
                                by (bit_vector);
                        }
                    }
                }
                t += 1;
            }
            proof {
                assert(q as int * bpb + 8 * bs as int == (q as int + 1) * bpb) by (nonlinear_arith)
                    requires
                        bpb == 8 * bs as int,
                ;
            }
            q += 1;
        }
        proof {
            lemma_index_below_region_span(sb);
            assert forall|j: int| 0 <= j < sb.ndatablocks implies self@.bitmap[j] by {
                assert(j < spec_nbitmapblocks(sb) * spec_bits_per_block(sb));
            }
        }
        Err(FileSystemError::AllocationError)
    }
}


/// Writes a full block buffer into data block `di` of the data region; the
/// bitmap and the inode table are untouched.
pub fn put_data_block(fs: &mut FileSystem, di: u64, b: &Block) -> (r: Result<(), FileSystemError>)
    requires
        old(fs).wf(),
        di < old(fs).superblock.ndatablocks,
        b.block_no == old(fs).superblock.datastart + di,
        b.data@.len() == old(fs).superblock.block_size,
    ensures
        r is Ok,
        final(fs).wf(),
        final(fs).superblock == old(fs).superblock,
        final(fs)@.data == old(fs)@.data.update(di as int, b.data@),
        final(fs)@.bitmap == old(fs)@.bitmap,
        final(fs)@.inodes == old(fs)@.inodes,
{
    match fs.b_put(b) {
        Ok(()) => {},
        Err(e) => {
            proof {
                assert(false);
            }
            return Err(e);
        },
    }
    proof {
        let sb = old(fs).superblock;
        let d1 = old(fs).device.disk();
        let d2 = fs.device.disk();
        lemma_bitmap_frame(sb, d1, d2);
        lemma_inodes_frame(sb, d1, d2);
        assert(fs@.data =~= old(fs)@.data.update(di as int, b.data@));
    }
    Ok(())
}

} // verus!
