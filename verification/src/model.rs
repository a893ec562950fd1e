//! The mathematical model of a mounted volume: which bit of the bitmap, which
//! bytes of the inode table and which data block every abstract component
//! lives in, and the frame lemmas that localize the effect of a block write.

use crate::layout::{
    lemma_div_lt_ceil, spec_bits_per_block, spec_inodes_per_block, spec_nbitmapblocks,
    spec_ninodeblocks, spec_sb_valid, SuperBlock, DINODE_SIZE, DIRECT_POINTERS,
};
use crate::byteops::splice;
use crate::records::{spec_dinode_dec, spec_dinode_enc, DInodeView};
use vstd::arithmetic::div_mod::{
    lemma_div_pos_is_pos, lemma_fundamental_div_mod, lemma_fundamental_div_mod_converse,
    lemma_mod_bound, lemma_mod_breakdown,
};
use vstd::prelude::*;

verus! {

/// Whether bit `k` of byte `b` is set; bit 0 is the lowest-order bit.
pub open spec fn nth_bit(b: u8, k: u8) -> bool {
    (b >> k) & 1 == 1
}

/// The block that holds inode `i`'s record.
pub open spec fn spec_inode_block(sb: SuperBlock, i: int) -> int {
    sb.inodestart + i / spec_inodes_per_block(sb)
}

/// The byte offset of inode `i`'s record inside its block.
pub open spec fn spec_inode_off(sb: SuperBlock, i: int) -> int {
    (i % spec_inodes_per_block(sb)) * DINODE_SIZE
}

/// The bytes of inode `i`'s record on the given disk.
pub open spec fn spec_inode_bytes(sb: SuperBlock, disk: Seq<Seq<u8>>, i: int) -> Seq<u8> {
    disk[spec_inode_block(sb, i)].subrange(
        spec_inode_off(sb, i),
        spec_inode_off(sb, i) + DINODE_SIZE,
    )
}

/// The record of inode `i` on the given disk.
pub open spec fn spec_inode_at(sb: SuperBlock, disk: Seq<Seq<u8>>, i: int) -> DInodeView {
    spec_dinode_dec(spec_inode_bytes(sb, disk, i))
}

/// The bitmap block that holds the bit of data index `i`.
pub open spec fn spec_bit_block(sb: SuperBlock, i: int) -> int {
    sb.bmapstart + i / spec_bits_per_block(sb)
}

/// The byte inside that block that holds the bit of data index `i`.
pub open spec fn spec_bit_byte(sb: SuperBlock, i: int) -> int {
    (i % spec_bits_per_block(sb)) / 8
}

/// The bit position of data index `i` inside its byte, low to high.
pub open spec fn spec_bit_index(sb: SuperBlock, i: int) -> int {
    i % 8
}

/// Whether the allocation bit of data index `i` is set on the given disk.
pub open spec fn spec_bit_at(sb: SuperBlock, disk: Seq<Seq<u8>>, i: int) -> bool {
    nth_bit(disk[spec_bit_block(sb, i)][spec_bit_byte(sb, i)], spec_bit_index(sb, i) as u8)
}

/// The abstract state of a mounted volume: the layout, the allocation state
/// of every data block, every inode record, and every data block's bytes.
#[verifier::ext_equal]
pub struct FsView {
    /// The volume's layout descriptor.
    pub sb: SuperBlock,
    /// Allocation bit of every data block, indexed by data index.
    pub bitmap: Seq<bool>,
    /// Every inode record, indexed by inode number.
    pub inodes: Seq<DInodeView>,
    /// The bytes of every data block, indexed by data index.
    pub data: Seq<Seq<u8>>,
}

/// The abstract state a superblock and a disk describe.
pub open spec fn fs_view(sb: SuperBlock, disk: Seq<Seq<u8>>) -> FsView {
    FsView {
        sb,
        bitmap: Seq::new(sb.ndatablocks as nat, |i: int| spec_bit_at(sb, disk, i)),
        inodes: Seq::new(sb.ninodes as nat, |i: int| spec_inode_at(sb, disk, i)),
        data: Seq::new(sb.ndatablocks as nat, |i: int| disk[sb.datastart + i]),
    }
}

/// The abstract state of a freshly formatted volume: every data block free
/// and zero-filled, the root directory inode in place, and every other inode
/// record free and blank.
pub open spec fn spec_fresh_view(sb: SuperBlock) -> FsView {
    FsView {
        sb,
        bitmap: Seq::new(sb.ndatablocks as nat, |_i: int| false),
        inodes: Seq::new(
            sb.ninodes as nat,
            |i: int|
                if i == 1 {
                    crate::records::spec_blank_dinode(crate::records::FType::TDir)
                } else {
                    crate::records::spec_blank_dinode(crate::records::FType::TFree)
                },
        ),
        data: Seq::new(
            sb.ndatablocks as nat,
            |_i: int| crate::device::zero_bytes(sb.block_size as int),
        ),
    }
}

/// The record of inode `i` lies inside the inode region, and its byte range
/// lies inside its block.
pub proof fn lemma_inode_location(sb: SuperBlock, i: int)
    requires
        spec_sb_valid(sb),
        0 <= i < sb.ninodes,
    ensures
        1 <= spec_inode_block(sb, i) < 1 + spec_ninodeblocks(sb),
        spec_inode_block(sb, i) < sb.bmapstart,
        0 <= spec_inode_off(sb, i),
        spec_inode_off(sb, i) + DINODE_SIZE <= sb.block_size,
{
    let ipb = spec_inodes_per_block(sb);
    lemma_div_pos_is_pos(i, ipb);
    lemma_div_lt_ceil(i, ipb, sb.ninodes as int);
    lemma_mod_bound(i, ipb);
    let m = i % ipb;
    assert(m * DINODE_SIZE + DINODE_SIZE <= ipb * DINODE_SIZE) by (nonlinear_arith)
        requires
            0 <= m < ipb,
    ;
    lemma_fundamental_div_mod(sb.block_size as int, DINODE_SIZE as int);
    assert(ipb * DINODE_SIZE <= sb.block_size) by (nonlinear_arith)
        requires
            sb.block_size as int == DINODE_SIZE as int * ipb + sb.block_size as int % (
            DINODE_SIZE as int),
            sb.block_size as int % (DINODE_SIZE as int) >= 0,
    ;
    assert(m * DINODE_SIZE >= 0) by (nonlinear_arith)
        requires
            m >= 0,
    ;
}

/// The bit of data index `i` lies inside the bitmap region, inside its block.
pub proof fn lemma_bit_location(sb: SuperBlock, i: int)
    requires
        spec_sb_valid(sb),
        0 <= i < sb.ndatablocks,
    ensures
        sb.bmapstart <= spec_bit_block(sb, i) < sb.bmapstart + spec_nbitmapblocks(sb),
        spec_bit_block(sb, i) < sb.datastart,
        0 <= spec_bit_byte(sb, i) < sb.block_size,
        0 <= spec_bit_index(sb, i) < 8,
        i == (spec_bit_block(sb, i) - sb.bmapstart) * spec_bits_per_block(sb) + spec_bit_byte(
            sb,
            i,
        ) * 8 + spec_bit_index(sb, i),
{
    let bpb = spec_bits_per_block(sb);
    assert(bpb >= 8 * DINODE_SIZE);
    lemma_div_pos_is_pos(i, bpb);
    lemma_div_lt_ceil(i, bpb, sb.ndatablocks as int);
    lemma_mod_bound(i, bpb);
    lemma_mod_bound(i, 8);
    // Split the offset of the bit inside its block into a byte and a bit.
    assert(8 * sb.block_size as int == bpb);
    lemma_mod_breakdown(i, 8, sb.block_size as int);
    let t = (i / 8) % (sb.block_size as int);
    let r = i % 8;
    assert(i % bpb == 8 * t + r);
    lemma_mod_bound(i / 8, sb.block_size as int);
    lemma_fundamental_div_mod_converse(i % bpb, 8, t, r);
    assert(spec_bit_byte(sb, i) == t);
    lemma_fundamental_div_mod(i, bpb);
    assert(i == bpb * (i / bpb) + (8 * t + r));
    assert((spec_bit_block(sb, i) - sb.bmapstart) * bpb == bpb * (i / bpb)) by (nonlinear_arith)
        requires
            spec_bit_block(sb, i) - sb.bmapstart == i / bpb,
    ;
}

/// Two different inode numbers use either different blocks or disjoint byte
/// ranges of the same block.
pub proof fn lemma_inode_disjoint(sb: SuperBlock, i: int, j: int)
    requires
        spec_sb_valid(sb),
        0 <= i < sb.ninodes,
        0 <= j < sb.ninodes,
        i != j,
        spec_inode_block(sb, i) == spec_inode_block(sb, j),
    ensures
        spec_inode_off(sb, i) + DINODE_SIZE <= spec_inode_off(sb, j) || spec_inode_off(sb, j)
            + DINODE_SIZE <= spec_inode_off(sb, i),
{
    let ipb = spec_inodes_per_block(sb);
    lemma_fundamental_div_mod(i, ipb);
    lemma_fundamental_div_mod(j, ipb);
    lemma_mod_bound(i, ipb);
    lemma_mod_bound(j, ipb);
    let mi = i % ipb;
    let mj = j % ipb;
    assert(mi != mj) by (nonlinear_arith)
        requires
            i == ipb * (i / ipb) + mi,
            j == ipb * (j / ipb) + mj,
            i / ipb == j / ipb,
            i != j,
    ;
    assert(mi < mj ==> mi * DINODE_SIZE + DINODE_SIZE <= mj * DINODE_SIZE) by (nonlinear_arith);
    assert(mj < mi ==> mj * DINODE_SIZE + DINODE_SIZE <= mi * DINODE_SIZE) by (nonlinear_arith);
}

/// If no block of the bitmap region changed, the bitmap view is unchanged.
pub proof fn lemma_bitmap_frame(sb: SuperBlock, d1: Seq<Seq<u8>>, d2: Seq<Seq<u8>>)
    requires
        spec_sb_valid(sb),
        d1.len() == sb.nblocks,
        d2.len() == sb.nblocks,
        forall|t: int|
            sb.bmapstart <= t < sb.bmapstart + spec_nbitmapblocks(sb) ==> d2[t] == d1[t],
    ensures
        fs_view(sb, d2).bitmap == fs_view(sb, d1).bitmap,
{
    assert forall|i: int| 0 <= i < sb.ndatablocks implies spec_bit_at(sb, d2, i) == spec_bit_at(
        sb,
        d1,
        i,
    ) by {
        lemma_bit_location(sb, i);
    }
    assert(fs_view(sb, d2).bitmap =~= fs_view(sb, d1).bitmap);
}

/// If no block of the inode region changed, the inode view is unchanged.
pub proof fn lemma_inodes_frame(sb: SuperBlock, d1: Seq<Seq<u8>>, d2: Seq<Seq<u8>>)
    requires
        spec_sb_valid(sb),
        d1.len() == sb.nblocks,
        d2.len() == sb.nblocks,
        forall|t: int| 1 <= t < 1 + spec_ninodeblocks(sb) ==> d2[t] == d1[t],
    ensures
        fs_view(sb, d2).inodes == fs_view(sb, d1).inodes,
{
    assert forall|i: int| 0 <= i < sb.ninodes implies spec_inode_at(sb, d2, i) == spec_inode_at(
        sb,
        d1,
        i,
    ) by {
        lemma_inode_location(sb, i);
    }
    assert(fs_view(sb, d2).inodes =~= fs_view(sb, d1).inodes);
}

/// If no block of the data region changed, the data view is unchanged.
pub proof fn lemma_data_frame(sb: SuperBlock, d1: Seq<Seq<u8>>, d2: Seq<Seq<u8>>)
    requires
        spec_sb_valid(sb),
        d1.len() == sb.nblocks,
        d2.len() == sb.nblocks,
        forall|t: int| sb.datastart <= t < sb.datastart + sb.ndatablocks ==> d2[t] == d1[t],
    ensures
        fs_view(sb, d2).data == fs_view(sb, d1).data,
{
    assert(fs_view(sb, d2).data =~= fs_view(sb, d1).data);
}

/// Writing inode `i`'s encoded record into its byte range changes exactly
/// inode `i` of the view and nothing else.
pub proof fn lemma_inode_update(sb: SuperBlock, d1: Seq<Seq<u8>>, i: int, nd: DInodeView)
    requires
        spec_sb_valid(sb),
        d1.len() == sb.nblocks,
        forall|t: int| 0 <= t < d1.len() ==> (#[trigger] d1[t]).len() == sb.block_size,
        0 <= i < sb.ninodes,
        nd.direct_blocks.len() == DIRECT_POINTERS,
    ensures
        ({
            let d2 = d1.update(
                spec_inode_block(sb, i),
                splice(d1[spec_inode_block(sb, i)], spec_inode_off(sb, i), spec_dinode_enc(nd)),
            );
            &&& fs_view(sb, d2).inodes == fs_view(sb, d1).inodes.update(i, nd)
            &&& fs_view(sb, d2).bitmap == fs_view(sb, d1).bitmap
            &&& fs_view(sb, d2).data == fs_view(sb, d1).data
        }),
{
    let blk = spec_inode_block(sb, i);
    let off = spec_inode_off(sb, i);
    let enc = spec_dinode_enc(nd);
    crate::records::lemma_dinode_enc_len(nd);
    lemma_inode_location(sb, i);
    let d2 = d1.update(blk, splice(d1[blk], off, enc));
    lemma_bitmap_frame(sb, d1, d2);
    lemma_data_frame(sb, d1, d2);
    // Inode i now decodes to the new record.
    assert(spec_inode_bytes(sb, d2, i) =~= enc);
    crate::records::lemma_dinode_roundtrip(nd, Seq::empty());
    assert(enc + Seq::<u8>::empty() =~= enc);
    assert(spec_inode_at(sb, d2, i) == nd);
    // Every other inode record's bytes are untouched.
    assert forall|j: int| 0 <= j < sb.ninodes && j != i implies spec_inode_at(sb, d2, j)
        == spec_inode_at(sb, d1, j) by {
        lemma_inode_location(sb, j);
        if spec_inode_block(sb, j) == blk {
            lemma_inode_disjoint(sb, i, j);
            assert(spec_inode_bytes(sb, d2, j) =~= spec_inode_bytes(sb, d1, j));
        } else {
            assert(spec_inode_bytes(sb, d2, j) =~= spec_inode_bytes(sb, d1, j));
        }
    }
    assert(fs_view(sb, d2).inodes =~= fs_view(sb, d1).inodes.update(i, nd));
}

/// Writing one byte with bit `i % 8` set (or cleared) into the bitmap byte of
/// data index `i` changes exactly bit `i` of the bitmap view and nothing else.
pub proof fn lemma_bit_update(sb: SuperBlock, d1: Seq<Seq<u8>>, i: int, v: bool)
    requires
        spec_sb_valid(sb),
        d1.len() == sb.nblocks,
        forall|t: int| 0 <= t < d1.len() ==> (#[trigger] d1[t]).len() == sb.block_size,
        0 <= i < sb.ndatablocks,
    ensures
        ({
            let blk = spec_bit_block(sb, i);
            let byte = spec_bit_byte(sb, i);
            let k = spec_bit_index(sb, i) as u8;
            let old_byte = d1[blk][byte];
            let new_byte = if v {
                old_byte | (1u8 << k)
            } else {
                old_byte & !(1u8 << k)
            };
            let d2 = d1.update(blk, splice(d1[blk], byte, seq![new_byte]));
            &&& fs_view(sb, d2).bitmap == fs_view(sb, d1).bitmap.update(i, v)
            &&& fs_view(sb, d2).inodes == fs_view(sb, d1).inodes
            &&& fs_view(sb, d2).data == fs_view(sb, d1).data
        }),
{
    let blk = spec_bit_block(sb, i);
    let byte = spec_bit_byte(sb, i);
    let k = spec_bit_index(sb, i) as u8;
    let old_byte = d1[blk][byte];
    let new_byte = if v {
        old_byte | (1u8 << k)
    } else {
        old_byte & !(1u8 << k)
    };
    let d2 = d1.update(blk, splice(d1[blk], byte, seq![new_byte]));
    lemma_bit_location(sb, i);
    lemma_inodes_frame(sb, d1, d2);
    lemma_data_frame(sb, d1, d2);
    // Bit i reads as v afterwards.
    assert(nth_bit(new_byte, k) == v) by {
        if v {
            assert(k < 8 ==> ((old_byte | (1u8 << k)) >> k) & 1 == 1) by (bit_vector);
        } else {
            assert(k < 8 ==> ((old_byte & !(1u8 << k)) >> k) & 1 == 0) by (bit_vector);
        }
    }
    assert(d2[blk][byte] == new_byte);
    // Every other bit reads as before.
    assert forall|j: int| 0 <= j < sb.ndatablocks && j != i implies spec_bit_at(sb, d2, j)
        == spec_bit_at(sb, d1, j) by {
        lemma_bit_location(sb, j);
        if spec_bit_block(sb, j) == blk {
            if spec_bit_byte(sb, j) == byte {
                // Same byte: the bit position must differ.
                assert(spec_bit_index(sb, j) != spec_bit_index(sb, i)) by {
                    assert(j == (blk - sb.bmapstart) * spec_bits_per_block(sb) + byte * 8
                        + spec_bit_index(sb, j));
                    assert(i == (blk - sb.bmapstart) * spec_bits_per_block(sb) + byte * 8
                        + spec_bit_index(sb, i));
                }
                let kj = spec_bit_index(sb, j) as u8;
                assert((kj < 8 && k < 8 && kj != k) ==> ((old_byte | (1u8 << k)) >> kj) & 1 == (
                old_byte >> kj) & 1) by (bit_vector);
                assert((kj < 8 && k < 8 && kj != k) ==> ((old_byte & !(1u8 << k)) >> kj) & 1 == (
                old_byte >> kj) & 1) by (bit_vector);
            } else {
                assert(d2[blk][spec_bit_byte(sb, j)] == d1[blk][spec_bit_byte(sb, j)]);
            }
        }
    }
    assert(fs_view(sb, d2).bitmap =~= fs_view(sb, d1).bitmap.update(i, v));
}

} // verus!
