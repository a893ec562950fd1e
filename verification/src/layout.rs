//! The on-disk layout descriptor (superblock) and the geometry arithmetic
//! shared by every layer: how many blocks the inode table and the free-space
//! bitmap occupy, and when a superblock describes a consistent volume.

use vstd::prelude::*;
use vstd::arithmetic::div_mod::{
    lemma_div_is_ordered, lemma_div_non_zero, lemma_div_pos_is_pos, lemma_fundamental_div_mod,
    lemma_fundamental_div_mod_converse,
};

verus! {

/// Encoded size of the superblock record in bytes (seven 64-bit fields).
pub const SUPERBLOCK_SIZE: u64 = 56;

/// Encoded size of one inode record in bytes (type, link count, byte size,
/// and twelve direct block pointers, each eight bytes).
pub const DINODE_SIZE: u64 = 120;

/// Encoded size of one directory entry in bytes (inode number plus name buffer).
pub const DIRENTRY_SIZE: u64 = 22;

/// Length of the fixed name buffer inside a directory entry.
pub const DIRNAME_SIZE: u64 = 14;

/// Number of direct block pointers per inode.
pub const DIRECT_POINTERS: u64 = 12;

/// The layout descriptor of one volume, persisted at block 0.
#[derive(Clone, Copy, Debug, PartialEq, Eq, Structural)]
pub struct SuperBlock {
    /// Size of every block of the volume, in bytes.
    pub block_size: u64,
    /// Total number of blocks of the volume.
    pub nblocks: u64,
    /// Number of inode records in the inode region.
    pub ninodes: u64,
    /// First block of the inode region; always block 1.
    pub inodestart: u64,
    /// Number of blocks of the data region.
    pub ndatablocks: u64,
    /// First block of the free-space bitmap region.
    pub bmapstart: u64,
    /// First block of the data region.
    pub datastart: u64,
}

/// Mathematical ceiling division, `ceil(a / b)`.
pub open spec fn spec_ceil_div(a: int, b: int) -> int {
    if a % b == 0 {
        a / b
    } else {
        a / b + 1
    }
}

/// How many inode records fit in one block.
pub open spec fn spec_inodes_per_block(sb: SuperBlock) -> int {
    sb.block_size as int / DINODE_SIZE as int
}

/// How many blocks the inode region occupies.
pub open spec fn spec_ninodeblocks(sb: SuperBlock) -> int {
    spec_ceil_div(sb.ninodes as int, spec_inodes_per_block(sb))
}

/// How many data blocks one bitmap block describes (one bit per data block).
pub open spec fn spec_bits_per_block(sb: SuperBlock) -> int {
    sb.block_size as int * 8
}

/// How many blocks the bitmap region occupies.
pub open spec fn spec_nbitmapblocks(sb: SuperBlock) -> int {
    spec_ceil_div(sb.ndatablocks as int, spec_bits_per_block(sb))
}

/// When a superblock describes a consistent volume: every record type fits in
/// a block, there is room for the reserved inode 0 and the root directory
/// inode 1, the inode region starts right after the reserved block 0, the
/// inode, bitmap and data regions are ordered and disjoint, and the data
/// region ends within the volume.
pub open spec fn spec_sb_valid(sb: SuperBlock) -> bool {
    &&& sb.block_size >= DINODE_SIZE
    &&& sb.ninodes >= 2
    &&& sb.inodestart == 1
    &&& 1 + spec_ninodeblocks(sb) <= sb.bmapstart as int
    &&& sb.bmapstart as int + spec_nbitmapblocks(sb) <= sb.datastart as int
    &&& sb.datastart as int + sb.ndatablocks as int <= sb.nblocks as int
}

/// Ceiling division on machine words; never overflows because the rounded-up
/// branch is only taken when the divisor is at least two.
pub fn ceil_div_u64(a: u64, b: u64) -> (r: u64)
    requires
        b >= 1,
    ensures
        r as int == spec_ceil_div(a as int, b as int),
{
    let q = a / b;
    if a % b == 0 {
        q
    } else {
        proof {
            assert(b >= 2) by {
                if b == 1 {
                    assert(a as int % 1int == 0) by (nonlinear_arith);
                }
            }
            assert(q < u64::MAX) by {
                lemma_fundamental_div_mod(a as int, b as int);
                assert(a as int == b as int * (q as int) + a as int % b as int);
                assert(b as int * q as int >= 2 * q as int) by (nonlinear_arith)
                    requires
                        b as int >= 2,
                        q as int >= 0,
                ;
            }
        }
        q + 1
    }
}

/// Number of blocks of the inode region for this superblock.
pub fn get_ninodeblocks(sb: &SuperBlock) -> (r: u64)
    requires
        sb.block_size >= DINODE_SIZE,
    ensures
        r as int == spec_ninodeblocks(*sb),
{
    let inodes_per_block = sb.block_size / DINODE_SIZE;
    ceil_div_u64(sb.ninodes, inodes_per_block)
}

/// Number of blocks of the bitmap region for this superblock.
pub fn get_nbitmapblocks(sb: &SuperBlock) -> (r: u64)
    requires
        sb.block_size >= 1,
    ensures
        r as int == spec_nbitmapblocks(*sb),
{
    let bits: u128 = sb.block_size as u128 * 8;
    let nd: u128 = sb.ndatablocks as u128;
    let q: u128 = nd / bits;
    proof {
        assert(q as int == sb.ndatablocks as int / spec_bits_per_block(*sb));
        assert(nd % bits == 0 <==> sb.ndatablocks as int % spec_bits_per_block(*sb) == 0);
        lemma_fundamental_div_mod(nd as int, bits as int);
        assert(q <= nd) by (nonlinear_arith)
            requires
                bits >= 8,
                nd >= 0,
                q as int == nd as int / bits as int,
        ;
    }
    if nd % bits == 0 {
        q as u64
    } else {
        proof {
            assert(q < nd) by (nonlinear_arith)
                requires
                    bits >= 8,
                    nd as int % bits as int != 0,
                    q as int == nd as int / bits as int,
            ;
        }
        (q + 1) as u64
    }
}

/// Whether the superblock describes a consistent volume layout.
pub fn sb_valid(sb: &SuperBlock) -> (r: bool)
    ensures
        r == spec_sb_valid(*sb),
{
    if sb.block_size < DINODE_SIZE {
        return false;
    }
    if sb.ninodes < 2 {
        return false;
    }
    if sb.inodestart != 1 {
        return false;
    }
    let ninodeblocks = get_ninodeblocks(sb);
    if 1u128 + ninodeblocks as u128 > sb.bmapstart as u128 {
        return false;
    }
    let nbitmapblocks = get_nbitmapblocks(sb);
    if sb.bmapstart as u128 + nbitmapblocks as u128 > sb.datastart as u128 {
        return false;
    }
    if sb.datastart as u128 + sb.ndatablocks as u128 > sb.nblocks as u128 {
        return false;
    }
    true
}

/// A valid superblock leaves room for at least one inode block, so the
/// bitmap region starts at block 2 at the earliest and the volume has at
/// least two blocks.
pub proof fn lemma_valid_geometry(sb: SuperBlock)
    requires
        spec_sb_valid(sb),
    ensures
        spec_ninodeblocks(sb) >= 1,
        spec_nbitmapblocks(sb) >= 0,
        2 <= sb.bmapstart as int,
        sb.bmapstart <= sb.datastart,
        sb.nblocks >= 2,
{
    let ipb = spec_inodes_per_block(sb);
    let a = sb.ninodes as int;
    lemma_div_non_zero(sb.block_size as int, DINODE_SIZE as int);
    lemma_div_pos_is_pos(a, ipb);
    if a % ipb == 0 {
        if a / ipb == 0 {
            lemma_fundamental_div_mod(a, ipb);
            assert(a == ipb * (a / ipb) + a % ipb);
            assert(ipb * 0 == 0) by (nonlinear_arith);
        }
    }
    let bpb = spec_bits_per_block(sb);
    lemma_div_pos_is_pos(sb.ndatablocks as int, bpb);
}

/// A quantity never exceeds its rounded-up block count times the block size.
pub proof fn lemma_ceil_bounds(a: int, b: int)
    requires
        0 <= a,
        b >= 1,
    ensures
        a <= spec_ceil_div(a, b) * b,
        spec_ceil_div(a, b) >= 0,
{
    lemma_fundamental_div_mod(a, b);
    lemma_div_pos_is_pos(a, b);
    if a % b == 0 {
        assert(a == b * (a / b));
        assert(a <= (a / b) * b) by (nonlinear_arith)
            requires
                a == b * (a / b),
        ;
    } else {
        assert(a <= (a / b + 1) * b) by (nonlinear_arith)
            requires
                a == b * (a / b) + a % b,
                a % b < b,
        ;
    }
}

/// Dividing any index below `n` by `b` stays below `ceil(n / b)`: an index in
/// range always lands inside the region that the rounded-up block count spans.
pub proof fn lemma_div_lt_ceil(a: int, b: int, n: int)
    requires
        0 <= a < n,
        b >= 1,
    ensures
        a / b < spec_ceil_div(n, b),
{
    lemma_div_is_ordered(a, n - 1, b);
    if n % b == 0 {
        lemma_fundamental_div_mod(n, b);
        let q = n / b;
        assert(n == b * q);
        assert((q - 1) * b + (b - 1) == n - 1) by (nonlinear_arith)
            requires
                n == b * q,
        ;
        lemma_fundamental_div_mod_converse(n - 1, b, q - 1, b - 1);
        assert((n - 1) / b == n / b - 1);
    } else {
        lemma_div_is_ordered(n - 1, n, b);
    }
}

} // verus!
