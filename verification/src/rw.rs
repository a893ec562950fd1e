//! Scatter/gather reads and writes of an inode's byte stream across its
//! direct blocks.

use crate::errors::FileSystemError;
use crate::fs::FileSystem;
use crate::inodes::{inv_inodes, is_data_ptr, spec_nblocks};
use crate::layout::{
    lemma_div_lt_ceil, lemma_valid_geometry, spec_ceil_div, spec_sb_valid, SuperBlock,
    DIRECT_POINTERS,
};
use crate::model::FsView;
use crate::records::{DInodeView, Inode};
use vstd::arithmetic::div_mod::{
    lemma_fundamental_div_mod, lemma_fundamental_div_mod_converse, lemma_mod_bound,
};
use vstd::prelude::*;
use vstd::slice::slice_subrange;

verus! {

/// The byte at offset `x` of the inode's byte stream: it lives in the data
/// block named by pointer slot `x / block_size`, at offset `x % block_size`.
pub open spec fn spec_file_byte(fsv: FsView, dv: DInodeView, x: int) -> u8 {
    fsv.data[dv.direct_blocks[x / fsv.sb.block_size as int] as int - fsv.sb.datastart as int][x
        % fsv.sb.block_size as int]
}

/// The inode's whole byte stream, one byte per offset below its size.
pub open spec fn spec_file_bytes(fsv: FsView, dv: DInodeView) -> Seq<u8> {
    Seq::new(dv.size as nat, |x: int| spec_file_byte(fsv, dv, x))
}

/// A byte offset below the covered size lands in a populated pointer slot,
/// inside its block.
pub proof fn lemma_file_byte_location(sb: SuperBlock, dv: DInodeView, x: int)
    requires
        spec_sb_valid(sb),
        0 <= x,
        x < spec_nblocks(dv) * sb.block_size as int,
        spec_nblocks(dv) <= DIRECT_POINTERS,
    ensures
        0 <= x / (sb.block_size as int) < spec_nblocks(dv),
        0 <= x % (sb.block_size as int) < sb.block_size,
{
    let bs = sb.block_size as int;
    let nb = spec_nblocks(dv);
    vstd::arithmetic::div_mod::lemma_div_pos_is_pos(x, bs);
    lemma_mod_bound(x, bs);
    assert(nb * bs - 1 == bs * (nb - 1) + (bs - 1)) by (nonlinear_arith);
    lemma_fundamental_div_mod_converse(nb * bs - 1, bs, nb - 1, bs - 1);
    vstd::arithmetic::div_mod::lemma_div_is_ordered(x, nb * bs - 1, bs);
}

/// The byte size of a sound record is covered by its populated blocks.
pub proof fn lemma_size_covered(fsv: FsView, dv: DInodeView)
    requires
        spec_sb_valid(fsv.sb),
        crate::inodes::inode_ok(fsv, dv),
    ensures
        dv.size as int <= spec_nblocks(dv) * fsv.sb.block_size as int,
{
    let bs = fsv.sb.block_size as int;
    crate::layout::lemma_ceil_bounds(dv.size as int, bs);
    assert(spec_ceil_div(dv.size as int, bs) * bs <= spec_nblocks(dv) * bs) by (nonlinear_arith)
        requires
            spec_ceil_div(dv.size as int, bs) <= spec_nblocks(dv),
            bs >= 1,
    ;
}

impl FileSystem {
    /// Reads up to `n` bytes of the inode's byte stream starting at byte
    /// offset `off` into the front of `buf`, clipped to the stream's end and
    /// to the buffer's length; returns how many bytes were delivered.
    /// Reading exactly at the end of the stream delivers zero bytes; an
    /// offset past the end is a range error.
    pub fn i_read(&self, inode: &Inode, buf: &mut Vec<u8>, off: u64, n: u64) -> (r: Result<
        u64,
        FileSystemError,
    >)
        requires
            self.wf(),
            inv_inodes(self@),
        ensures
            final(buf)@.len() == old(buf)@.len(),
            ({
                let dv = self@.inodes[inode.inum as int];
                match r {
                    Ok(cnt) => {
                        let want: int = if n as int <= dv.size - off {
                            n as int
                        } else {
                            dv.size - off
                        };
                        &&& inode.inum < self.superblock.ninodes
                        &&& off <= dv.size
                        &&& cnt as int == (if want <= old(buf)@.len() {
                            want
                        } else {
                            old(buf)@.len() as int
                        })
                        &&& (forall|x: int|
                            0 <= x < cnt as int ==> final(buf)@[x] == spec_file_bytes(
                                self@,
                                dv,
                            )[off + x])
                        &&& (forall|x: int|
                            cnt as int <= x < old(buf)@.len() ==> final(buf)@[x] == old(buf)@[x])
                    },
                    Err(e) => {
                        &&& final(buf)@ == old(buf)@
                        &&& if inode.inum >= self.superblock.ninodes {
                            e == FileSystemError::IndexOutOfBounds
                        } else {
                            &&& e == FileSystemError::RangeError
                            &&& off > dv.size
                        }
                    },
                }
            }),
    {
        let node = match self.i_get(inode.inum) {
            Ok(d) => d,
            Err(e) => {
                return Err(e);
            },
        };
        let ghost sb = self.superblock;
        let ghost dv = node.disk_node@;
        let size = node.disk_node.size;
        if off > size {
            return Err(FileSystemError::RangeError);
        }
        let mut want = size - off;
        if n < want {
            want = n;
        }
        let blen = buf.len();
        let cnt = if (blen as u64) < want {
            blen as u64
        } else {
            want
        };
        proof {
            assert(crate::inodes::inode_ok(self@, dv));
            crate::inodes::lemma_first_zero_slot(dv.direct_blocks, 0);
            lemma_size_covered(self@, dv);
            lemma_valid_geometry(sb);
        }
        let bs = self.superblock.block_size;
        let mut copied: u64 = 0;
        while copied < cnt
            invariant
                self.wf(),
                inv_inodes(self@),
                sb == self.superblock,
                bs == sb.block_size,
                dv == self@.inodes[inode.inum as int],
                crate::inodes::inode_ok(self@, dv),
                node.disk_node@ == dv,
                node.disk_node.wf(),
                spec_nblocks(dv) <= DIRECT_POINTERS,
                dv.size as int <= spec_nblocks(dv) * sb.block_size as int,
                off <= dv.size,
                off + cnt <= dv.size,
                cnt <= blen,
                blen == old(buf)@.len(),
                copied <= cnt,
                buf@.len() == old(buf)@.len(),
                forall|x: int|
                    0 <= x < copied as int ==> buf@[x] == spec_file_byte(self@, dv, off + x),
                forall|x: int| copied as int <= x < blen as int ==> buf@[x] == old(buf)@[x],
            decreases cnt - copied,
        {
            let pos = off + copied;
            let k = pos / bs;
            let e = pos % bs;
            proof {
                lemma_file_byte_location(sb, dv, pos as int);
                assert(is_data_ptr(sb, dv.direct_blocks[k as int]));
            }
            let ptr = node.disk_node.direct_blocks[k as usize];
            let block = match self.b_get(ptr) {
                Ok(b) => b,
                Err(er) => {
                    proof {
                        assert(false);
                    }
                    return Err(er);
                },
            };
            let mut upto = bs - e;
            if upto > cnt - copied {
                upto = cnt - copied;
            }
            let ghost copied0 = copied;
            let mut t: u64 = 0;
            while t < upto
                invariant
                    self.wf(),
                    inv_inodes(self@),
                    sb == self.superblock,
                    bs == sb.block_size,
                    dv == self@.inodes[inode.inum as int],
                    crate::inodes::inode_ok(self@, dv),
                    spec_nblocks(dv) <= DIRECT_POINTERS,
                    dv.size as int <= spec_nblocks(dv) * sb.block_size as int,
                    off <= dv.size,
                    off + cnt <= dv.size,
                    cnt <= blen,
                    blen == old(buf)@.len(),
                    copied == copied0,
                    copied + upto <= cnt,
                    t <= upto,
                    pos == off + copied,
                    k as int == pos as int / bs as int,
                    e as int == pos as int % bs as int,
                    e + upto <= bs,
                    ptr == dv.direct_blocks[k as int],
                    is_data_ptr(sb, dv.direct_blocks[k as int]),
                    block.data@ == self@.data[ptr as int - sb.datastart as int],
                    block.data@.len() == bs,
                    buf@.len() == old(buf)@.len(),
                    forall|x: int|
                        0 <= x < copied as int + t as int ==> buf@[x] == spec_file_byte(
                            self@,
                            dv,
                            off + x,
                        ),
                    forall|x: int|
                        copied as int + t as int <= x < blen as int ==> buf@[x] == old(buf)@[x],
                decreases upto - t,
            {
                let byte = block.data[(e + t) as usize];
                buf.set((copied + t) as usize, byte);
                proof {
                    let x = pos as int + t as int;
                    lemma_fundamental_div_mod(pos as int, bs as int);
                    assert(pos as int == bs as int * (k as int) + e as int);
                    assert(0 <= e as int + t as int && (e as int + t as int) < bs as int);
                    assert(x == (k as int) * (bs as int) + (e as int + t as int))
                        by (nonlinear_arith)
                        requires
                            pos as int == bs as int * (k as int) + e as int,
                            x == pos as int + t as int,
                    ;
                    lemma_fundamental_div_mod_converse(
                        x,
                        bs as int,
                        k as int,
                        e as int + t as int,
                    );
                    assert(x / bs as int == k as int);
                    assert(x % bs as int == e as int + t as int);
                    assert(spec_file_byte(self@, dv, x) == byte);
                }
                t += 1;
            }
            copied += upto;
        }
        proof {
            assert forall|x: int| 0 <= x < cnt as int implies buf@[x] == spec_file_bytes(
                self@,
                dv,
            )[off + x] by {
                assert(buf@[x] == spec_file_byte(self@, dv, off + x));
            }
        }
        Ok(cnt)
    }
}


impl FileSystem {
    /// Writes `n` bytes from the front of `buf` into the inode's byte stream
    /// at byte offset `off`, allocating and attaching data blocks one at a
    /// time until the stream's populated blocks cover `off + n` bytes, never
    /// more.  The byte size grows to `off + n` when the write extends the
    /// stream.  An offset past the end of the stream, or a count past the
    /// buffer's end, is a range error; a write that needs more than the
    /// fixed number of pointers, or a data block when none is free, is an
    /// allocation failure.
    pub fn i_write(&mut self, inode: &mut Inode, buf: &Vec<u8>, off: u64, n: u64) -> (r: Result<
        (),
        FileSystemError,
    >)
        requires
            old(self).wf(),
            inv_inodes(old(self)@),
            off as int + n as int <= u64::MAX as int,
        ensures
            final(self).wf(),
            final(self).superblock == old(self).superblock,
            inv_inodes(final(self)@),
            final(inode).inum == old(inode).inum,
            ({
                let sb = old(self).superblock;
                let i = old(inode).inum as int;
                let dv0 = old(self)@.inodes[i];
                match r {
                    Ok(()) => {
                        let dvf = final(self)@.inodes[i];
                        &&& i < sb.ninodes
                        &&& dv0.ft != crate::records::FType::TFree
                        &&& off <= dv0.size
                        &&& n <= buf@.len()
                        &&& (n == 0 ==> *final(self) == *old(self))
                        &&& final(inode).disk_node@ == dvf
                        &&& dvf.ft == dv0.ft
                        &&& dvf.nlink == dv0.nlink
                        &&& dvf.size as int == (if off + n > dv0.size {
                            off as int + n as int
                        } else {
                            dv0.size as int
                        })
                        &&& (n > 0 ==> spec_nblocks(dvf) == (if spec_ceil_div(
                            off as int + n as int,
                            sb.block_size as int,
                        ) > spec_nblocks(dv0) {
                            spec_ceil_div(off as int + n as int, sb.block_size as int)
                        } else {
                            spec_nblocks(dv0)
                        }))
                        &&& (forall|x: int|
                            0 <= x < dvf.size ==> spec_file_bytes(final(self)@, dvf)[x] == (
                            if off <= x < off + n {
                                buf@[x - off]
                            } else {
                                spec_file_bytes(old(self)@, dv0)[x]
                            }))
                        &&& (forall|m: int|
                            0 <= m < old(self)@.inodes.len() && m != i ==> final(self)@.inodes[m] == old(self)@.inodes[m])
                        &&& final(self)@.bitmap.len() == old(self)@.bitmap.len()
                        &&& final(self)@.data.len() == old(self)@.data.len()
                        &&& (forall|k: int|
                            0 <= k < spec_nblocks(dv0) ==> dvf.direct_blocks[k]
                                == dv0.direct_blocks[k])
                        &&& (forall|k: int|
                            spec_nblocks(dv0) <= k < spec_nblocks(dvf) ==> is_data_ptr(
                                sb,
                                #[trigger] dvf.direct_blocks[k],
                            ) && !old(self)@.bitmap[dvf.direct_blocks[k] as int
                                - sb.datastart as int])
                        &&& final(self)@.bitmap == crate::inodes::with_attached(
                            sb,
                            old(self)@.bitmap,
                            dvf,
                            spec_nblocks(dv0),
                            spec_nblocks(dvf),
                        )
                        &&& (forall|p: int|
                            0 <= p < old(self)@.data.len() && !crate::inodes::points_to(
                                sb,
                                dvf,
                                p,
                            ) ==> final(self)@.data[p] == old(self)@.data[p])
                    },
                    Err(e) => {
                        &&& *final(inode) == *old(inode)
                        &&& if i >= sb.ninodes {
                            &&& e == FileSystemError::IndexOutOfBounds
                            &&& *final(self) == *old(self)
                        } else if dv0.ft == crate::records::FType::TFree {
                            &&& e == FileSystemError::IndexOutOfBounds
                            &&& *final(self) == *old(self)
                        } else if off > dv0.size || n > buf@.len() {
                            &&& e == FileSystemError::RangeError
                            &&& *final(self) == *old(self)
                        } else if spec_ceil_div(off as int + n as int, sb.block_size as int)
                            > DIRECT_POINTERS {
                            &&& e == FileSystemError::AllocationError
                            &&& *final(self) == *old(self)
                        } else {
                            let dve = final(self)@.inodes[i];
                            &&& e == FileSystemError::AllocationError
                            &&& crate::blocks::all_allocated(final(self)@.bitmap)
                            &&& spec_ceil_div(off as int + n as int, sb.block_size as int)
                                > spec_nblocks(dv0)
                            &&& spec_nblocks(dve) < spec_ceil_div(
                                off as int + n as int,
                                sb.block_size as int,
                            )
                            &&& dve.ft == dv0.ft
                            &&& dve.nlink == dv0.nlink
                            &&& dve.size == dv0.size
                            &&& (forall|x: int|
                                0 <= x < dv0.size ==> spec_file_byte(final(self)@, dve, x)
                                    == spec_file_byte(old(self)@, dv0, x))
                            &&& (forall|m: int|
                                0 <= m < old(self)@.inodes.len() && m != i ==> final(self)@.inodes[m] == old(self)@.inodes[m])
                            &&& final(self)@.bitmap.len() == old(self)@.bitmap.len()
                            &&& final(self)@.data.len() == old(self)@.data.len()
                            &&& (forall|k: int|
                                0 <= k < spec_nblocks(dv0) ==> dve.direct_blocks[k]
                                    == dv0.direct_blocks[k])
                            &&& (forall|k: int|
                                spec_nblocks(dv0) <= k < spec_nblocks(dve) ==> is_data_ptr(
                                    sb,
                                    #[trigger] dve.direct_blocks[k],
                                ) && !old(self)@.bitmap[dve.direct_blocks[k] as int
                                    - sb.datastart as int])
                            &&& final(self)@.bitmap == crate::inodes::with_attached(
                                sb,
                                old(self)@.bitmap,
                                dve,
                                spec_nblocks(dv0),
                                spec_nblocks(dve),
                            )
                            &&& (forall|p: int|
                                0 <= p < old(self)@.data.len() && !crate::inodes::points_to(
                                    sb,
                                    dve,
                                    p,
                                ) ==> final(self)@.data[p] == old(self)@.data[p])
                        }
                    },
                }
            }),
    {
        let ghost sb = old(self).superblock;
        let ghost v0 = old(self)@;
        let mut node = match self.i_get(inode.inum) {
            Ok(d) => d,
            Err(e) => {
                return Err(e);
            },
        };
        let ghost dv0 = node.disk_node@;
        let ghost i = node.inum;
        if matches!(node.disk_node.ft, crate::records::FType::TFree) {
            return Err(FileSystemError::IndexOutOfBounds);
        }
        let size = node.disk_node.size;
        if off > size {
            return Err(FileSystemError::RangeError);
        }
        let blen = buf.len();
        if n > blen as u64 {
            return Err(FileSystemError::RangeError);
        }
        if n == 0 {
            proof {
                crate::inodes::lemma_with_attached_empty(
                    sb,
                    v0.bitmap,
                    dv0,
                    spec_nblocks(dv0),
                );
            }
            *inode = node;
            return Ok(());
        }
        let bs = self.superblock.block_size;
        let end = off + n;
        let needed = crate::layout::ceil_div_u64(end, bs);
        if needed > DIRECT_POINTERS {
            return Err(FileSystemError::AllocationError);
        }
        let mut nb = crate::inodes::nblocks_of(&node.disk_node);
        let ghost nb0 = spec_nblocks(dv0);
        proof {
            assert(crate::inodes::inode_ok(v0, dv0));
            crate::inodes::lemma_first_zero_slot(dv0.direct_blocks, 0);
            lemma_size_covered(v0, dv0);
            lemma_valid_geometry(sb);
            crate::inodes::lemma_with_attached_empty(sb, v0.bitmap, dv0, nb0);
        }
        while nb < needed
            invariant
                self.wf(),
                inv_inodes(self@),
                sb == self.superblock,
                sb == old(self).superblock,
                bs == sb.block_size,
                v0 == old(self)@,
                dv0 == v0.inodes[i as int],
                dv0.ft != crate::records::FType::TFree,
                i == node.inum,
                i == old(inode).inum,
                i < sb.ninodes,
                *inode == *old(inode),
                node.disk_node.wf(),
                node.disk_node@ == self@.inodes[i as int],
                nb as int == spec_nblocks(node.disk_node@),
                nb0 == spec_nblocks(dv0),
                0 <= nb0,
                nb0 <= nb,
                nb as int <= (if nb0 >= needed as int {
                    nb0
                } else {
                    needed as int
                }),
                needed <= DIRECT_POINTERS,
                needed as int == spec_ceil_div(end as int, bs as int),
                end == off + n,
                0 < n <= blen,
                blen == buf@.len(),
                off <= dv0.size,
                size == dv0.size,
                node.disk_node@.size == dv0.size,
                node.disk_node@.ft == dv0.ft,
                node.disk_node@.nlink == dv0.nlink,
                dv0.size as int <= nb0 * bs as int,
                forall|k: int|
                    0 <= k < nb0 ==> node.disk_node@.direct_blocks[k] == dv0.direct_blocks[k],
                self@.inodes.len() == v0.inodes.len(),
                forall|m: int|
                    0 <= m < v0.inodes.len() && m != i as int ==> self@.inodes[m] == v0.inodes[m],
                self@.bitmap.len() == v0.bitmap.len(),
                v0.bitmap.len() == sb.ndatablocks,
                forall|p: int| 0 <= p < v0.bitmap.len() && v0.bitmap[p] ==> self@.bitmap[p],
                self@.bitmap == crate::inodes::with_attached(
                    sb,
                    v0.bitmap,
                    node.disk_node@,
                    nb0,
                    nb as int,
                ),
                forall|k: int|
                    nb0 <= k < nb as int ==> is_data_ptr(
                        sb,
                        #[trigger] node.disk_node@.direct_blocks[k],
                    ) && !v0.bitmap[node.disk_node@.direct_blocks[k] as int
                        - sb.datastart as int],
                self@.data.len() == v0.data.len(),
                forall|p: int|
                    0 <= p < v0.data.len() && !crate::inodes::points_in_range(
                        sb,
                        node.disk_node@,
                        nb0,
                        nb as int,
                        p,
                    ) ==> self@.data[p] == v0.data[p],
                forall|x: int|
                    0 <= x < dv0.size ==> spec_file_byte(self@, node.disk_node@, x)
                        == spec_file_byte(v0, dv0, x),
            decreases needed - nb,
        {
            let ghost v_pre = self@;
            let ghost node_pre = node.disk_node@;
            let f = match self.b_alloc() {
                Ok(f) => f,
                Err(e) => {
                    proof {
                        // Growth was still underway, so more blocks were
                        // needed than the record held, and every block that
                        // was attached so far is accounted for.
                        assert(nb0 < needed as int);
                        assert forall|p: int|
                            0 <= p < v0.data.len() && !crate::inodes::points_to(
                                sb,
                                node.disk_node@,
                                p,
                            ) implies self@.data[p] == v0.data[p] by {
                            if crate::inodes::points_in_range(
                                sb,
                                node.disk_node@,
                                nb0,
                                nb as int,
                                p,
                            ) {
                                let k = choose|k: int|
                                    nb0 <= k < nb as int
                                        && node.disk_node@.direct_blocks[k] as int
                                        == sb.datastart as int + p;
                                assert(crate::inodes::points_within(
                                    sb,
                                    node.disk_node@,
                                    spec_nblocks(node.disk_node@),
                                    p,
                                )) by {
                                    assert(0 <= k < spec_nblocks(node.disk_node@)
                                        && node.disk_node@.direct_blocks[k] as int
                                        == sb.datastart as int + p);
                                }
                            }
                        }
                    }
                    return Err(FileSystemError::AllocationError);
                },
            };
            match crate::dirs::add_block_to_inode(&mut node, self.superblock.datastart + f) {
                Ok(()) => {},
                Err(e) => {
                    proof {
                        assert(false);
                    }
                    return Err(e);
                },
            }
            match self.i_put(&node) {
                Ok(()) => {},
                Err(e) => {
                    proof {
                        assert(false);
                    }
                    return Err(e);
                },
            }
            proof {
                let dv1 = node.disk_node@;
                assert(dv0.size as int <= (nb as int + 1) * bs as int) by (nonlinear_arith)
                    requires
                        dv0.size as int <= nb0 * bs as int,
                        nb0 <= nb as int,
                        bs as int >= 1,
                ;
                crate::inodes::lemma_ceil_le(dv1.size as int, bs as int, nb as int + 1);
                crate::inodes::lemma_inv_after_grow(v_pre, self@, i as int, f as int, dv1);
                // Exactly the fresh block's bit joins the attached set.
                assert(!v0.bitmap[f as int]) by {
                    assert(!v_pre.bitmap[f as int]);
                    assert(v_pre.bitmap[f as int] == (v0.bitmap[f as int]
                        || crate::inodes::points_in_range(sb, node_pre, nb0, nb as int, f as int)));
                }
                crate::inodes::lemma_with_attached_extend(
                    sb,
                    v0.bitmap,
                    node_pre,
                    dv1,
                    nb0,
                    nb as int,
                    f as int,
                );
                assert(self@.bitmap == crate::inodes::with_attached(
                    sb,
                    v0.bitmap,
                    dv1,
                    nb0,
                    nb as int + 1,
                )) by {
                    assert(self@.bitmap == v_pre.bitmap.update(f as int, true));
                }
                assert forall|k: int| nb0 <= k < nb as int + 1 implies is_data_ptr(
                    sb,
                    #[trigger] dv1.direct_blocks[k],
                ) && !v0.bitmap[dv1.direct_blocks[k] as int - sb.datastart as int] by {
                    if k < nb as int {
                        assert(dv1.direct_blocks[k] == node_pre.direct_blocks[k]);
                    } else {
                        assert(dv1.direct_blocks[k] as int == sb.datastart as int + f as int);
                    }
                }
                assert forall|p: int|
                    0 <= p < v0.data.len() && !crate::inodes::points_in_range(
                        sb,
                        dv1,
                        nb0,
                        nb as int + 1,
                        p,
                    ) implies self@.data[p] == v0.data[p] by {
                    assert(p != f as int) by {
                        if p == f as int {
                            assert(crate::inodes::points_in_range(
                                sb,
                                dv1,
                                nb0,
                                nb as int + 1,
                                p,
                            )) by {
                                assert(nb0 <= nb as int && (nb as int) < nb as int + 1
                                    && dv1.direct_blocks[nb as int] as int
                                    == sb.datastart as int + p);
                            }
                        }
                    }
                    assert(!crate::inodes::points_in_range(sb, node_pre, nb0, nb as int, p)) by {
                        if crate::inodes::points_in_range(sb, node_pre, nb0, nb as int, p) {
                            let k = choose|k: int|
                                nb0 <= k < nb as int && node_pre.direct_blocks[k] as int
                                    == sb.datastart as int + p;
                            assert(dv1.direct_blocks[k] as int == sb.datastart as int + p);
                            assert(crate::inodes::points_in_range(
                                sb,
                                dv1,
                                nb0,
                                nb as int + 1,
                                p,
                            ));
                        }
                    }
                    assert(self@.data[p] == v_pre.data[p]);
                }
                // The bytes of the old stream live in blocks whose bits were
                // already set, so the freshly zeroed block is none of them.
                assert forall|x: int| 0 <= x < dv0.size implies spec_file_byte(self@, dv1, x)
                    == spec_file_byte(v0, dv0, x) by {
                    lemma_div_lt_ceil(x, bs as int, dv0.size as int);
                    crate::inodes::lemma_ceil_le(dv0.size as int, bs as int, nb0);
                    let k = x / (bs as int);
                    assert(k < nb0);
                    assert(dv1.direct_blocks[k] == node_pre.direct_blocks[k]);
                    assert(crate::inodes::inode_ok(v_pre, node_pre));
                    assert(v_pre.bitmap[node_pre.direct_blocks[k] as int - sb.datastart as int]);
                    assert(node_pre.direct_blocks[k] as int - sb.datastart as int != f as int);
                    assert(spec_file_byte(self@, dv1, x) == spec_file_byte(v_pre, node_pre, x));
                }
            }
            nb += 1;
        }
        // The populated blocks now cover the whole write range.
        proof {
            crate::layout::lemma_ceil_bounds(end as int, bs as int);
            assert(spec_ceil_div(end as int, bs as int) * bs as int <= nb as int * bs as int)
                by (nonlinear_arith)
                requires
                    spec_ceil_div(end as int, bs as int) <= nb as int,
                    bs as int >= 1,
            ;
            assert(end as int <= nb as int * bs as int);
        }
        let ghost v_grown = self@;
        let ghost dv_grown = node.disk_node@;
        let new_size = if end > size {
            end
        } else {
            size
        };
        node.disk_node.size = new_size;
        match self.i_put(&node) {
            Ok(()) => {},
            Err(e) => {
                proof {
                    assert(false);
                }
                return Err(e);
            },
        }
        let ghost dvf = node.disk_node@;
        proof {
            assert(nb0 * bs as int <= nb as int * bs as int) by (nonlinear_arith)
                requires
                    nb0 <= nb as int,
                    bs as int >= 1,
            ;
            assert(dvf.size as int <= nb as int * bs as int);
            crate::inodes::lemma_ceil_le(dvf.size as int, bs as int, nb as int);
            crate::inodes::lemma_inv_same_pointers(v_grown, self@, i as int, dvf);
            // The size update changed no pointer, so the attached set and
            // the untouched data blocks read as they did after the growth.
            crate::inodes::lemma_with_attached_same(sb, v0.bitmap, dv_grown, dvf, nb0, nb as int);
            assert(self@.bitmap == crate::inodes::with_attached(
                sb,
                v0.bitmap,
                dvf,
                nb0,
                nb as int,
            ));
            assert forall|p: int|
                0 <= p < v0.data.len() && !crate::inodes::points_in_range(
                    sb,
                    dvf,
                    0,
                    nb as int,
                    p,
                ) implies self@.data[p] == v0.data[p] by {
                if crate::inodes::points_in_range(sb, dv_grown, nb0, nb as int, p) {
                    let k = choose|k: int|
                        nb0 <= k < nb as int && dv_grown.direct_blocks[k] as int
                            == sb.datastart as int + p;
                    assert(dvf.direct_blocks[k] as int == sb.datastart as int + p);
                    assert(crate::inodes::points_in_range(sb, dvf, 0, nb as int, p));
                }
            }
        }
        let mut pos = off;
        while pos < end
            invariant
                self.wf(),
                inv_inodes(self@),
                sb == self.superblock,
                sb == old(self).superblock,
                bs == sb.block_size,
                v0 == old(self)@,
                dv0 == v0.inodes[i as int],
                dv0.ft != crate::records::FType::TFree,
                i == node.inum,
                i == old(inode).inum,
                i < sb.ninodes,
                *inode == *old(inode),
                node.disk_node.wf(),
                node.disk_node@ == dvf,
                dvf == self@.inodes[i as int],
                crate::inodes::inode_ok(self@, dvf),
                nb as int == spec_nblocks(dvf),
                nb as int == (if nb0 >= needed as int {
                    nb0
                } else {
                    needed as int
                }),
                nb <= DIRECT_POINTERS,
                needed as int == spec_ceil_div(end as int, bs as int),
                nb0 == spec_nblocks(dv0),
                0 <= nb0 <= nb,
                end == off + n,
                end as int <= nb as int * bs as int,
                0 < n <= blen,
                blen == buf@.len(),
                off <= pos <= end,
                off <= dv0.size,
                dvf.size as int == (if end > dv0.size {
                    end as int
                } else {
                    dv0.size as int
                }),
                dvf.ft == dv0.ft,
                dvf.nlink == dv0.nlink,
                dv0.size as int <= nb0 * bs as int,
                dvf.size as int <= nb as int * bs as int,
                forall|k: int| 0 <= k < nb0 ==> dvf.direct_blocks[k] == dv0.direct_blocks[k],
                self@.inodes.len() == v0.inodes.len(),
                forall|m: int|
                    0 <= m < v0.inodes.len() && m != i as int ==> self@.inodes[m] == v0.inodes[m],
                self@.bitmap.len() == v0.bitmap.len(),
                v0.bitmap.len() == sb.ndatablocks,
                forall|p: int| 0 <= p < v0.bitmap.len() && v0.bitmap[p] ==> self@.bitmap[p],
                self@.bitmap == crate::inodes::with_attached(sb, v0.bitmap, dvf, nb0, nb as int),
                forall|k: int|
                    nb0 <= k < nb as int ==> is_data_ptr(sb, #[trigger] dvf.direct_blocks[k])
                        && !v0.bitmap[dvf.direct_blocks[k] as int - sb.datastart as int],
                self@.data.len() == v0.data.len(),
                forall|p: int|
                    0 <= p < v0.data.len() && !crate::inodes::points_in_range(
                        sb,
                        dvf,
                        0,
                        nb as int,
                        p,
                    ) ==> self@.data[p] == v0.data[p],
                forall|x: int|
                    off <= x < pos ==> spec_file_byte(self@, dvf, x) == buf@[x - off],
                forall|x: int|
                    0 <= x < dv0.size && !(off <= x < pos) ==> spec_file_byte(self@, dvf, x)
                        == spec_file_byte(v0, dv0, x),
            decreases end - pos,
        {
            let k = pos / bs;
            let e = pos % bs;
            proof {
                lemma_file_byte_location(sb, dvf, pos as int);
                assert(is_data_ptr(sb, dvf.direct_blocks[k as int]));
            }
            let ptr = node.disk_node.direct_blocks[k as usize];
            let mut block = match self.b_get(ptr) {
                Ok(b) => b,
                Err(er) => {
                    proof {
                        assert(false);
                    }
                    return Err(er);
                },
            };
            let mut upto = bs - e;
            if upto > end - pos {
                upto = end - pos;
            }
            let sub = slice_subrange(
                buf.as_slice(),
                (pos - off) as usize,
                (pos - off + upto) as usize,
            );
            match block.write_data(sub, e) {
                Ok(()) => {},
                Err(er) => {
                    proof {
                        assert(false);
                    }
                    return Err(er);
                },
            }
            let di = ptr - self.superblock.datastart;
            let ghost v_pre = self@;
            match crate::blocks::put_data_block(self, di, &block) {
                Ok(()) => {},
                Err(er) => {
                    proof {
                        assert(false);
                    }
                    return Err(er);
                },
            }
            proof {
                crate::inodes::lemma_inv_data_irrelevant(v_pre, self@);
                lemma_fundamental_div_mod(pos as int, bs as int);
                // Only the block holding the written range changed, and the
                // written inode points at it.
                assert forall|p: int|
                    0 <= p < v0.data.len() && !crate::inodes::points_in_range(
                        sb,
                        dvf,
                        0,
                        nb as int,
                        p,
                    ) implies self@.data[p] == v0.data[p] by {
                    assert(p != di as int) by {
                        if p == di as int {
                            assert(crate::inodes::points_in_range(sb, dvf, 0, nb as int, p)) by {
                                assert(0 <= k as int && (k as int) < nb as int
                                    && dvf.direct_blocks[k as int] as int
                                    == sb.datastart as int + p);
                            }
                        }
                    }
                    assert(self@.data[p] == v_pre.data[p]);
                }
                // Bytes of the written range now read from the buffer; every
                // other byte of the stream reads as before.
                assert forall|x: int|
                    0 <= x < dvf.size implies spec_file_byte(self@, dvf, x) == (
                if pos <= x < pos + upto {
                    buf@[x - off]
                } else {
                    spec_file_byte(v_pre, dvf, x)
                }) by {
                    lemma_file_byte_location(sb, dvf, x);
                    let kx = x / (bs as int);
                    let ex = x % (bs as int);
                    if pos <= x < pos + upto {
                        lemma_fundamental_div_mod_converse(
                            x,
                            bs as int,
                            k as int,
                            e as int + (x - pos),
                        );
                        assert(kx == k as int);
                        assert(ex == e as int + (x - pos));
                        assert(self@.data[di as int][ex] == sub@[x - pos]);
                        assert(sub@[x - pos] == buf@[x - off]);
                    } else {
                        if kx == k as int {
                            lemma_fundamental_div_mod(x, bs as int);
                            assert(ex < e as int || ex >= e as int + upto as int)
                                by (nonlinear_arith)
                                requires
                                    x == bs as int * kx + ex,
                                    pos as int == bs as int * (k as int) + e as int,
                                    kx == k as int,
                                    !(pos <= x < pos + upto),
                                    0 <= ex < bs as int,
                                    0 <= e as int,
                            ;
                            assert(self@.data[di as int][ex] == v_pre.data[di as int][ex]);
                        } else {
                            assert(dvf.direct_blocks[kx] != dvf.direct_blocks[k as int]);
                            assert(spec_file_byte(self@, dvf, x) == spec_file_byte(
                                v_pre,
                                dvf,
                                x,
                            ));
                        }
                    }
                }
            }
            pos += upto;
        }
        proof {
            assert forall|x: int| 0 <= x < dvf.size implies spec_file_bytes(self@, dvf)[x] == (
            if off <= x < off + n {
                buf@[x - off]
            } else {
                spec_file_bytes(v0, dv0)[x]
            }) by {
                if !(off <= x < off + n) {
                    assert(x < dv0.size);
                    assert(spec_file_byte(self@, dvf, x) == spec_file_byte(v0, dv0, x));
                }
            }
            // Exactly the attached blocks' bits were set, and no block the
            // inode does not point at changed.
            assert(self@.bitmap == crate::inodes::with_attached(
                sb,
                v0.bitmap,
                dvf,
                spec_nblocks(dv0),
                spec_nblocks(dvf),
            ));
            assert forall|p: int|
                0 <= p < v0.data.len() && !crate::inodes::points_to(sb, dvf, p) implies self@.data[p]
                == v0.data[p] by {
                if crate::inodes::points_in_range(sb, dvf, 0, nb as int, p) {
                    let k = choose|k: int|
                        0 <= k < nb as int && dvf.direct_blocks[k] as int == sb.datastart as int
                            + p;
                    assert(crate::inodes::points_within(sb, dvf, spec_nblocks(dvf), p)) by {
                        assert(0 <= k < spec_nblocks(dvf) && dvf.direct_blocks[k] as int
                            == sb.datastart as int + p);
                    }
                }
            }
        }
        *inode = node;
        Ok(())
    }
}

} // verus!
