//! The inode table manager: fixed-size inode records in the inode region,
//! with allocate, free, truncate, read and write-back of single records, and
//! the structural invariant every volume-level operation preserves.

use crate::device::Block;
use crate::errors::FileSystemError;
use crate::fs::FileSystem;
use crate::layout::{
    spec_ceil_div, spec_inodes_per_block, spec_sb_valid, SuperBlock, DINODE_SIZE, DIRECT_POINTERS,
};
use crate::model::{
    lemma_inode_location, lemma_inode_update, spec_inode_block, FsView,
};
use crate::records::{
    blank_dinode, decode_dinode, encode_dinode, spec_blank_dinode, DInode, DInodeView, FType,
    Inode,
};
use vstd::prelude::*;

verus! {

/// How many data blocks the inode's byte size spans.
pub open spec fn spec_used_blocks(sb: SuperBlock, dv: DInodeView) -> int {
    spec_ceil_div(dv.size as int, sb.block_size as int)
}

/// Whether `p` is an absolute block index inside the data region.
pub open spec fn is_data_ptr(sb: SuperBlock, p: u64) -> bool {
    sb.datastart <= p < sb.datastart + sb.ndatablocks
}

/// The index of the first unused pointer slot at or after `from`; the fixed
/// slot count when every remaining slot is populated.
pub open spec fn first_zero_slot_from(s: Seq<u64>, from: int) -> int
    decreases DIRECT_POINTERS as int - from,
{
    if from < 0 || from >= DIRECT_POINTERS {
        DIRECT_POINTERS as int
    } else if s[from] == 0 {
        from
    } else {
        first_zero_slot_from(s, from + 1)
    }
}

/// How many data blocks the record's populated pointer prefix names.
pub open spec fn spec_nblocks(dv: DInodeView) -> int {
    first_zero_slot_from(dv.direct_blocks, 0)
}

/// The first unused slot lies between `from` and the fixed slot count, every
/// slot before it is populated, and the slot itself (if any) is unused.
pub proof fn lemma_first_zero_slot(s: Seq<u64>, from: int)
    requires
        0 <= from <= DIRECT_POINTERS,
    ensures
        from <= first_zero_slot_from(s, from) <= DIRECT_POINTERS,
        forall|k: int| from <= k < first_zero_slot_from(s, from) ==> s[k] != 0,
        first_zero_slot_from(s, from) < DIRECT_POINTERS ==> s[first_zero_slot_from(s, from)] == 0,
    decreases DIRECT_POINTERS as int - from,
{
    if from < DIRECT_POINTERS && s[from] != 0 {
        lemma_first_zero_slot(s, from + 1);
    }
}

/// If the first `m` slots are populated and slot `m` (if any) is unused, then
/// `m` is exactly the first unused slot.
pub proof fn lemma_first_zero_slot_is(s: Seq<u64>, m: int)
    requires
        0 <= m <= DIRECT_POINTERS,
        forall|k: int| 0 <= k < m ==> s[k] != 0,
        m < DIRECT_POINTERS ==> s[m] == 0,
    ensures
        first_zero_slot_from(s, 0) == m,
{
    lemma_first_zero_slot_is_from(s, 0, m);
}

proof fn lemma_first_zero_slot_is_from(s: Seq<u64>, from: int, m: int)
    requires
        0 <= from <= m <= DIRECT_POINTERS,
        forall|k: int| from <= k < m ==> s[k] != 0,
        m < DIRECT_POINTERS ==> s[m] == 0,
    ensures
        first_zero_slot_from(s, from) == m,
    decreases DIRECT_POINTERS as int - from,
{
    if from < m {
        lemma_first_zero_slot_is_from(s, from + 1, m);
    }
}

/// Whether one of the first `upto` pointer slots of the record points at the
/// data block with data index `j`.
pub open spec fn points_within(sb: SuperBlock, dv: DInodeView, upto: int, j: int) -> bool {
    exists|k: int|
        0 <= k < upto && dv.direct_blocks[k] as int == sb.datastart as int + j
}

/// Whether the record's populated pointers include data index `j`.
pub open spec fn points_to(sb: SuperBlock, dv: DInodeView, j: int) -> bool {
    points_within(sb, dv, spec_nblocks(dv), j)
}

/// Whether one of the pointer slots `from .. upto` of the record points at
/// the data block with data index `p`.
pub open spec fn points_in_range(
    sb: SuperBlock,
    dv: DInodeView,
    from: int,
    upto: int,
    p: int,
) -> bool {
    exists|k: int| from <= k < upto && dv.direct_blocks[k] as int == sb.datastart as int + p
}

/// The bitmap with the bits of exactly those data blocks set that pointer
/// slots `from .. upto` of the record name.
pub open spec fn with_attached(
    sb: SuperBlock,
    bm: Seq<bool>,
    dv: DInodeView,
    from: int,
    upto: int,
) -> Seq<bool> {
    Seq::new(bm.len(), |p: int| bm[p] || points_in_range(sb, dv, from, upto, p))
}

/// Attaching over an empty slot range sets no bit at all.
pub proof fn lemma_with_attached_empty(sb: SuperBlock, bm: Seq<bool>, dv: DInodeView, from: int)
    ensures
        with_attached(sb, bm, dv, from, from) == bm,
{
    assert forall|p: int| 0 <= p < bm.len() implies with_attached(sb, bm, dv, from, from)[p]
        == bm[p] by {
        if points_in_range(sb, dv, from, from, p) {
            let k = choose|k: int|
                from <= k < from && dv.direct_blocks[k] as int == sb.datastart as int + p;
            assert(false);
        }
    }
    assert(with_attached(sb, bm, dv, from, from) =~= bm);
}

/// Records with equal pointer slots over the range attach the same bits.
pub proof fn lemma_with_attached_same(
    sb: SuperBlock,
    bm: Seq<bool>,
    dv1: DInodeView,
    dv2: DInodeView,
    from: int,
    upto: int,
)
    requires
        forall|k: int| from <= k < upto ==> dv1.direct_blocks[k] == dv2.direct_blocks[k],
    ensures
        with_attached(sb, bm, dv1, from, upto) == with_attached(sb, bm, dv2, from, upto),
{
    assert forall|p: int| 0 <= p < bm.len() implies with_attached(sb, bm, dv1, from, upto)[p]
        == with_attached(sb, bm, dv2, from, upto)[p] by {
        if points_in_range(sb, dv1, from, upto, p) {
            let k = choose|k: int|
                from <= k < upto && dv1.direct_blocks[k] as int == sb.datastart as int + p;
            assert(dv2.direct_blocks[k] as int == sb.datastart as int + p);
            assert(points_in_range(sb, dv2, from, upto, p));
        }
        if points_in_range(sb, dv2, from, upto, p) {
            let k = choose|k: int|
                from <= k < upto && dv2.direct_blocks[k] as int == sb.datastart as int + p;
            assert(dv1.direct_blocks[k] as int == sb.datastart as int + p);
            assert(points_in_range(sb, dv1, from, upto, p));
        }
    }
    assert(with_attached(sb, bm, dv1, from, upto) =~= with_attached(sb, bm, dv2, from, upto));
}

/// Attaching one more slot, holding data index `f`, sets exactly bit `f` on
/// top of the bits the earlier slots set.
pub proof fn lemma_with_attached_extend(
    sb: SuperBlock,
    bm: Seq<bool>,
    dv1: DInodeView,
    dv2: DInodeView,
    from: int,
    upto: int,
    f: int,
)
    requires
        bm.len() == sb.ndatablocks,
        from <= upto,
        forall|k: int| from <= k < upto ==> dv2.direct_blocks[k] == dv1.direct_blocks[k],
        dv2.direct_blocks[upto] as int == sb.datastart as int + f,
        0 <= f < sb.ndatablocks,
    ensures
        with_attached(sb, bm, dv1, from, upto).update(f, true) == with_attached(
            sb,
            bm,
            dv2,
            from,
            upto + 1,
        ),
{
    let lhs = with_attached(sb, bm, dv1, from, upto).update(f, true);
    let rhs = with_attached(sb, bm, dv2, from, upto + 1);
    assert forall|p: int| 0 <= p < bm.len() implies lhs[p] == rhs[p] by {
        if p == f {
            assert(points_in_range(sb, dv2, from, upto + 1, p)) by {
                assert(from <= upto < upto + 1 && dv2.direct_blocks[upto] as int
                    == sb.datastart as int + p);
            }
        } else {
            if points_in_range(sb, dv1, from, upto, p) {
                let k = choose|k: int|
                    from <= k < upto && dv1.direct_blocks[k] as int == sb.datastart as int + p;
                assert(dv2.direct_blocks[k] as int == sb.datastart as int + p);
                assert(points_in_range(sb, dv2, from, upto + 1, p));
            }
            if points_in_range(sb, dv2, from, upto + 1, p) {
                let k = choose|k: int|
                    from <= k < upto + 1 && dv2.direct_blocks[k] as int == sb.datastart as int
                        + p;
                assert(k < upto);
                assert(points_in_range(sb, dv1, from, upto, p));
            }
        }
    }
    assert(lhs =~= rhs);
}

/// A structurally sound inode record for the given volume state: the
/// populated pointer slots form a prefix that covers the byte size, the
/// populated pointers are distinct data blocks whose allocation bits are
/// set, and a free record is blank.
pub open spec fn inode_ok(fsv: FsView, dv: DInodeView) -> bool {
    let nb = spec_nblocks(dv);
    &&& dv.direct_blocks.len() == DIRECT_POINTERS
    &&& spec_used_blocks(fsv.sb, dv) <= nb
    &&& forall|k: int| 0 <= k < nb ==> is_data_ptr(fsv.sb, #[trigger] dv.direct_blocks[k])
    &&& forall|k: int| nb <= k < DIRECT_POINTERS ==> #[trigger] dv.direct_blocks[k] == 0
    &&& forall|k: int, l: int|
        0 <= k < l < nb ==> dv.direct_blocks[k] != dv.direct_blocks[l]
    &&& forall|k: int|
        0 <= k < nb ==> fsv.bitmap[#[trigger] dv.direct_blocks[k] as int - fsv.sb.datastart as int]
    &&& (dv.ft == FType::TFree ==> dv.size == 0 && dv.nlink == 0 && spec_nblocks(dv) == 0)
}

/// Whether inode `i`'s populated pointers include data index `j`.
pub open spec fn inode_owns(fsv: FsView, i: int, j: int) -> bool {
    points_to(fsv.sb, fsv.inodes[i], j)
}

/// The structural invariant of a volume: every inode record is sound, and no
/// data block is pointed at by two inodes.
pub open spec fn inv_inodes(fsv: FsView) -> bool {
    &&& forall|i: int| 0 <= i < fsv.inodes.len() ==> inode_ok(fsv, #[trigger] fsv.inodes[i])
    &&& forall|i: int, j: int, p: int|
        0 <= i < fsv.inodes.len() && 0 <= j < fsv.inodes.len() && #[trigger] inode_owns(fsv, i, p)
            && #[trigger] inode_owns(fsv, j, p) ==> i == j
}

/// A blank record is sound in any volume state.
pub proof fn lemma_blank_inode_ok(fsv: FsView, ft: FType)
    requires
        fsv.sb.block_size >= 1,
        ft == FType::TFree || ft == FType::TDir || ft == FType::TFile,
    ensures
        inode_ok(fsv, spec_blank_dinode(ft)),
        spec_used_blocks(fsv.sb, spec_blank_dinode(ft)) == 0,
        spec_nblocks(spec_blank_dinode(ft)) == 0,
{
    let bs = fsv.sb.block_size as int;
    vstd::arithmetic::div_mod::lemma_small_mod(0, bs as nat);
    vstd::arithmetic::div_mod::lemma_div_of0(bs);
    lemma_first_zero_slot_is(spec_blank_dinode(ft).direct_blocks, 0);
}

/// A freshly formatted volume satisfies the structural invariant.
pub proof fn lemma_fresh_view_inv(sb: SuperBlock)
    requires
        spec_sb_valid(sb),
    ensures
        inv_inodes(crate::model::spec_fresh_view(sb)),
{
    let fsv = crate::model::spec_fresh_view(sb);
    assert forall|i: int| 0 <= i < fsv.inodes.len() implies inode_ok(
        fsv,
        #[trigger] fsv.inodes[i],
    ) by {
        if i == 1 {
            lemma_blank_inode_ok(fsv, FType::TDir);
        } else {
            lemma_blank_inode_ok(fsv, FType::TFree);
        }
    }
    assert forall|i: int, j: int, p: int|
        0 <= i < fsv.inodes.len() && 0 <= j < fsv.inodes.len() && #[trigger] inode_owns(fsv, i, p)
            && #[trigger] inode_owns(fsv, j, p) implies i == j by {
        lemma_blank_inode_ok(fsv, FType::TDir);
        lemma_blank_inode_ok(fsv, FType::TFree);
    }
}

/// The bitmap with the bits of every data block cleared that one of the
/// first `upto` pointer slots of the record references.
pub open spec fn clear_pointed(
    sb: SuperBlock,
    bm: Seq<bool>,
    dv: DInodeView,
    upto: int,
) -> Seq<bool> {
    Seq::new(bm.len(), |j: int| bm[j] && !points_within(sb, dv, upto, j))
}

/// The record with its pointers released: byte size 0, every pointer slot
/// unused, type and link count kept.
pub open spec fn spec_truncated(dv: DInodeView) -> DInodeView {
    DInodeView {
        ft: dv.ft,
        nlink: dv.nlink,
        size: 0,
        direct_blocks: Seq::new(DIRECT_POINTERS as nat, |_k: int| 0u64),
    }
}

/// Replacing inode `i` by a record without pointers, while clearing exactly
/// the allocation bits of the pointers the old record held, preserves the
/// structural invariant.
proof fn lemma_inv_after_release(fsv1: FsView, fsv2: FsView, i: int, nr: DInodeView)
    requires
        inv_inodes(fsv1),
        spec_sb_valid(fsv1.sb),
        0 <= i < fsv1.inodes.len(),
        fsv1.bitmap.len() == fsv1.sb.ndatablocks,
        fsv2.sb == fsv1.sb,
        fsv2.inodes == fsv1.inodes.update(i, nr),
        fsv2.bitmap.len() == fsv1.bitmap.len(),
        forall|j: int|
            0 <= j < fsv1.bitmap.len() ==> fsv2.bitmap[j] == (fsv1.bitmap[j] && !points_to(
                fsv1.sb,
                fsv1.inodes[i],
                j,
            )),
        nr.direct_blocks.len() == DIRECT_POINTERS,
        forall|k: int| 0 <= k < DIRECT_POINTERS ==> nr.direct_blocks[k] == 0,
        nr.size == 0,
        nr.ft == FType::TFree ==> nr.nlink == 0,
    ensures
        inv_inodes(fsv2),
{
    let sb = fsv1.sb;
    vstd::arithmetic::div_mod::lemma_small_mod(0, sb.block_size as nat);
    vstd::arithmetic::div_mod::lemma_div_of0(sb.block_size as int);
    assert(spec_used_blocks(sb, nr) == 0);
    lemma_first_zero_slot_is(nr.direct_blocks, 0);
    assert forall|m: int| 0 <= m < fsv2.inodes.len() implies inode_ok(
        fsv2,
        #[trigger] fsv2.inodes[m],
    ) by {
        if m != i {
            let dv = fsv1.inodes[m];
            assert(inode_ok(fsv1, dv));
            let nb = spec_nblocks(dv);
            assert forall|k: int| 0 <= k < nb implies fsv2.bitmap[#[trigger] dv.direct_blocks[k] as int
                - sb.datastart as int] by {
                let p = dv.direct_blocks[k] as int - sb.datastart as int;
                assert(fsv1.bitmap[p]);
                if points_to(sb, fsv1.inodes[i], p) {
                    assert(inode_owns(fsv1, i, p));
                    assert(inode_owns(fsv1, m, p)) by {
                        assert(0 <= k < spec_nblocks(fsv1.inodes[m])
                            && fsv1.inodes[m].direct_blocks[k] as int == sb.datastart as int + p);
                    }
                    assert(m == i);
                    assert(false);
                }
            }
        }
    }
    assert forall|a: int, b: int, p: int|
        0 <= a < fsv2.inodes.len() && 0 <= b < fsv2.inodes.len() && #[trigger] inode_owns(
            fsv2,
            a,
            p,
        ) && #[trigger] inode_owns(fsv2, b, p) implies a == b by {
        if a == i || b == i {
            assert(!points_to(sb, nr, p));
        } else {
            assert(inode_owns(fsv1, a, p));
            assert(inode_owns(fsv1, b, p));
        }
    }
}

/// Releases every data block the handle's populated pointers reference back
/// to the allocator, zeroes the pointer slots, and resets the byte size to
/// 0.  The record itself is not persisted; callers must write the handle
/// back if the change should survive.
pub fn trunc(fs: &mut FileSystem, ino: &mut Inode) -> (r: Result<(), FileSystemError>)
    requires
        old(fs).wf(),
        inode_ok(old(fs)@, old(ino).disk_node@),
    ensures
        r is Ok,
        final(fs).wf(),
        final(fs).superblock == old(fs).superblock,
        final(ino).inum == old(ino).inum,
        final(ino).disk_node.wf(),
        final(ino).disk_node@ == spec_truncated(old(ino).disk_node@),
        final(fs)@.inodes == old(fs)@.inodes,
        final(fs)@.data == old(fs)@.data,
        final(fs)@.bitmap.len() == old(fs)@.bitmap.len(),
        forall|j: int|
            0 <= j < old(fs)@.bitmap.len() ==> final(fs)@.bitmap[j] == (old(fs)@.bitmap[j]
                && !points_to(old(fs).superblock, old(ino).disk_node@, j)),
        forall|t: int|
            0 <= t < old(fs).device.disk().len() && !(old(fs).superblock.bmapstart <= t < old(
                fs,
            ).superblock.datastart) ==> final(fs).device.disk()[t] == old(fs).device.disk()[t],
{
    let ghost sb = old(fs).superblock;
    let ghost dv0 = old(ino).disk_node@;
    let ghost used = spec_nblocks(dv0);
    proof {
        crate::layout::lemma_valid_geometry(sb);
        assert forall|j: int| 0 <= j < sb.ndatablocks as int implies !points_within(
            sb,
            dv0,
            0,
            j,
        ) by {
            if points_within(sb, dv0, 0, j) {
                let l = choose|l: int|
                    0 <= l < 0 && dv0.direct_blocks[l] as int == sb.datastart as int + j;
                assert(false);
            }
        }
        assert(fs@.bitmap =~= clear_pointed(sb, old(fs)@.bitmap, dv0, 0));
    }
    let mut k: usize = 0;
    while k < DIRECT_POINTERS as usize
        invariant
            fs.wf(),
            fs.superblock == sb,
            sb == old(fs).superblock,
            inode_ok(old(fs)@, dv0),
            dv0 == old(ino).disk_node@,
            used == spec_nblocks(dv0),
            spec_sb_valid(sb),
            k <= DIRECT_POINTERS,
            ino.inum == old(ino).inum,
            ino.disk_node.wf(),
            ino.disk_node@.ft == dv0.ft,
            ino.disk_node@.nlink == dv0.nlink,
            ino.disk_node@.size == dv0.size,
            forall|l: int| 0 <= l < k ==> ino.disk_node@.direct_blocks[l] == 0,
            forall|l: int|
                k <= l < DIRECT_POINTERS ==> ino.disk_node@.direct_blocks[l]
                    == dv0.direct_blocks[l],
            fs@.inodes == old(fs)@.inodes,
            fs@.data == old(fs)@.data,
            old(fs)@.bitmap.len() == sb.ndatablocks,
            old(fs).device.disk().len() == sb.nblocks,
            fs@.bitmap == clear_pointed(sb, old(fs)@.bitmap, dv0, k as int),
            forall|t: int|
                0 <= t < old(fs).device.disk().len() && !(sb.bmapstart <= t < sb.datastart)
                    ==> fs.device.disk()[t] == old(fs).device.disk()[t],
        decreases DIRECT_POINTERS as usize - k,
    {
        let ptr = ino.disk_node.direct_blocks[k];
        if ptr != 0 {
            proof {
                // A populated slot lies in the spanned prefix, so its pointer
                // is a data block whose bit is still set.
                crate::layout::lemma_valid_geometry(sb);
                assert(ptr == ino.disk_node@.direct_blocks[k as int]);
                assert(ino.disk_node@.direct_blocks[k as int] == dv0.direct_blocks[k as int]);
                if k as int >= used {
                    assert(dv0.direct_blocks[k as int] == 0);
                }
                assert((k as int) < used);
                assert(is_data_ptr(sb, dv0.direct_blocks[k as int]));
                let j = ptr as int - sb.datastart as int;
                assert(old(fs)@.bitmap[dv0.direct_blocks[k as int] as int - sb.datastart as int]);
                assert(old(fs)@.bitmap[j]);
                if points_within(sb, dv0, k as int, j) {
                    let l = choose|l: int|
                        0 <= l < k as int && dv0.direct_blocks[l] as int == sb.datastart as int
                            + j;
                    assert(dv0.direct_blocks[l] == dv0.direct_blocks[k as int]);
                    assert(false);
                }
                assert(fs@.bitmap[j]);
            }
            let idx = ptr - fs.superblock.datastart;
            let ghost fs_pre = *fs;
            match fs.b_free(idx) {
                Ok(()) => {},
                Err(e) => {
                    proof {
                        assert(false);
                    }
                    return Err(e);
                },
            }
            proof {
                crate::model::lemma_bit_location(sb, idx as int);
                assert forall|t: int|
                    0 <= t < old(fs).device.disk().len() && !(sb.bmapstart <= t
                        < sb.datastart) implies fs.device.disk()[t] == old(
                    fs,
                ).device.disk()[t] by {
                    assert(t != crate::model::spec_bit_block(sb, idx as int));
                    assert(fs.device.disk()[t] == fs_pre.device.disk()[t]);
                }
            }
            ino.disk_node.direct_blocks.set(k, 0);
            proof {
                let j0 = ptr as int - sb.datastart as int;
                assert forall|j: int| 0 <= j < sb.ndatablocks as int implies fs@.bitmap[j]
                    == clear_pointed(sb, old(fs)@.bitmap, dv0, k as int + 1)[j] by {
                    if j == j0 {
                        assert(dv0.direct_blocks[k as int] as int == sb.datastart as int + j);
                        assert(points_within(sb, dv0, k as int + 1, j));
                    } else {
                        if points_within(sb, dv0, k as int + 1, j) {
                            let l = choose|l: int|
                                0 <= l < k as int + 1 && dv0.direct_blocks[l] as int
                                    == sb.datastart as int + j;
                            assert(l < k as int);
                            assert(points_within(sb, dv0, k as int, j));
                        }
                        if points_within(sb, dv0, k as int, j) {
                            assert(points_within(sb, dv0, k as int + 1, j));
                        }
                    }
                }
                assert(fs@.bitmap =~= clear_pointed(sb, old(fs)@.bitmap, dv0, k as int + 1));
            }
        } else {
            proof {
                // An unused slot frees nothing: slot k contributes no pointer.
                crate::layout::lemma_valid_geometry(sb);
                assert(ino.disk_node@.direct_blocks[k as int] == dv0.direct_blocks[k as int]);
                assert(dv0.direct_blocks[k as int] == 0);
                assert forall|j: int| 0 <= j < sb.ndatablocks as int implies fs@.bitmap[j]
                    == clear_pointed(sb, old(fs)@.bitmap, dv0, k as int + 1)[j] by {
                    if points_within(sb, dv0, k as int + 1, j) {
                        let l = choose|l: int|
                            0 <= l < k as int + 1 && dv0.direct_blocks[l] as int
                                == sb.datastart as int + j;
                        assert(sb.datastart as int + j >= 2);
                        assert(l < k as int);
                        assert(points_within(sb, dv0, k as int, j));
                    }
                    if points_within(sb, dv0, k as int, j) {
                        assert(points_within(sb, dv0, k as int + 1, j));
                    }
                }
                assert(fs@.bitmap =~= clear_pointed(sb, old(fs)@.bitmap, dv0, k as int + 1));
            }
        }
        k += 1;
    }
    proof {
        assert(ino.disk_node@.direct_blocks =~= spec_truncated(dv0).direct_blocks);
    }
    ino.disk_node.size = 0;
    proof {
        crate::layout::lemma_valid_geometry(sb);
        assert(ino.disk_node@ =~= spec_truncated(dv0));
        // Slots at or beyond the spanned prefix are unused, so scanning all
        // slots releases exactly the populated ones.
        assert forall|j: int| 0 <= j < sb.ndatablocks as int implies fs@.bitmap[j] == (old(
            fs,
        )@.bitmap[j] && !points_to(sb, dv0, j)) by {
            assert(fs@.bitmap[j] == (old(fs)@.bitmap[j] && !points_within(
                sb,
                dv0,
                DIRECT_POINTERS as int,
                j,
            )));
            if points_within(sb, dv0, DIRECT_POINTERS as int, j) {
                let l = choose|l: int|
                    0 <= l < DIRECT_POINTERS as int && dv0.direct_blocks[l] as int
                        == sb.datastart as int + j;
                assert(sb.datastart as int + j >= 2);
                if l >= used {
                    assert(dv0.direct_blocks[l] == 0);
                }
                assert(l < used);
                assert(points_to(sb, dv0, j));
            }
            if points_to(sb, dv0, j) {
                lemma_first_zero_slot(dv0.direct_blocks, 0);
                let l = choose|l: int|
                    0 <= l < used && dv0.direct_blocks[l] as int == sb.datastart as int + j;
                assert(0 <= l < DIRECT_POINTERS as int);
                assert(points_within(sb, dv0, DIRECT_POINTERS as int, j));
            }
        }
    }
    Ok(())
}


/// Ceiling division stays at or below `n` when the dividend is at most
/// `n * b`.
pub proof fn lemma_ceil_le(a: int, b: int, n: int)
    requires
        b >= 1,
        0 <= a,
        a <= n * b,
    ensures
        spec_ceil_div(a, b) <= n,
{
    vstd::arithmetic::div_mod::lemma_fundamental_div_mod(a, b);
    vstd::arithmetic::div_mod::lemma_mod_bound(a, b);
    if a % b == 0 {
        assert(a / b <= n) by (nonlinear_arith)
            requires
                a == b * (a / b),
                a <= n * b,
                b >= 1,
        ;
    } else {
        assert(a / b + 1 <= n) by (nonlinear_arith)
            requires
                a == b * (a / b) + a % b,
                0 < a % b < b,
                a <= n * b,
                b >= 1,
        ;
    }
}

/// A volume state that differs only in the data blocks' contents satisfies
/// the structural invariant as well.
pub proof fn lemma_inv_data_irrelevant(fsv1: FsView, fsv2: FsView)
    requires
        inv_inodes(fsv1),
        fsv2.sb == fsv1.sb,
        fsv2.bitmap == fsv1.bitmap,
        fsv2.inodes == fsv1.inodes,
    ensures
        inv_inodes(fsv2),
{
    assert forall|m: int| 0 <= m < fsv2.inodes.len() implies inode_ok(
        fsv2,
        #[trigger] fsv2.inodes[m],
    ) by {
        assert(inode_ok(fsv1, fsv1.inodes[m]));
    }
    assert forall|a: int, b: int, p: int|
        0 <= a < fsv2.inodes.len() && 0 <= b < fsv2.inodes.len() && #[trigger] inode_owns(
            fsv2,
            a,
            p,
        ) && #[trigger] inode_owns(fsv2, b, p) implies a == b by {
        assert(inode_owns(fsv1, a, p));
        assert(inode_owns(fsv1, b, p));
    }
}

/// Setting additional allocation bits never breaks the structural invariant.
pub proof fn lemma_inv_bitmap_monotone(fsv1: FsView, fsv2: FsView)
    requires
        inv_inodes(fsv1),
        fsv1.bitmap.len() == fsv1.sb.ndatablocks,
        fsv2.sb == fsv1.sb,
        fsv2.inodes == fsv1.inodes,
        fsv2.bitmap.len() == fsv1.bitmap.len(),
        forall|p: int| 0 <= p < fsv1.bitmap.len() && fsv1.bitmap[p] ==> fsv2.bitmap[p],
    ensures
        inv_inodes(fsv2),
{
    assert forall|m: int| 0 <= m < fsv2.inodes.len() implies inode_ok(
        fsv2,
        #[trigger] fsv2.inodes[m],
    ) by {
        let dv = fsv1.inodes[m];
        assert(inode_ok(fsv1, dv));
        let nb = spec_nblocks(dv);
        assert forall|k: int| 0 <= k < nb implies fsv2.bitmap[#[trigger] dv.direct_blocks[k] as int
            - fsv1.sb.datastart as int] by {
            assert(is_data_ptr(fsv1.sb, dv.direct_blocks[k]));
            assert(fsv1.bitmap[dv.direct_blocks[k] as int - fsv1.sb.datastart as int]);
        }
    }
    assert forall|a: int, b: int, p: int|
        0 <= a < fsv2.inodes.len() && 0 <= b < fsv2.inodes.len() && #[trigger] inode_owns(
            fsv2,
            a,
            p,
        ) && #[trigger] inode_owns(fsv2, b, p) implies a == b by {
        assert(inode_owns(fsv1, a, p));
        assert(inode_owns(fsv1, b, p));
    }
}

/// Replacing one inode record by one with the same pointer slots, with the
/// byte size still covered by the populated prefix, preserves the structural
/// invariant.
pub proof fn lemma_inv_same_pointers(fsv1: FsView, fsv2: FsView, t: int, nd: DInodeView)
    requires
        inv_inodes(fsv1),
        0 <= t < fsv1.inodes.len(),
        fsv2.sb == fsv1.sb,
        fsv2.bitmap == fsv1.bitmap,
        fsv2.inodes == fsv1.inodes.update(t, nd),
        nd.direct_blocks == fsv1.inodes[t].direct_blocks,
        spec_used_blocks(fsv2.sb, nd) <= spec_nblocks(nd),
        nd.ft != FType::TFree,
    ensures
        inv_inodes(fsv2),
{
    let dv = fsv1.inodes[t];
    assert(inode_ok(fsv1, dv));
    assert(spec_nblocks(nd) == spec_nblocks(dv));
    assert forall|m: int| 0 <= m < fsv2.inodes.len() implies inode_ok(
        fsv2,
        #[trigger] fsv2.inodes[m],
    ) by {
        assert(inode_ok(fsv1, fsv1.inodes[m]));
    }
    assert forall|a: int, b: int, p: int|
        0 <= a < fsv2.inodes.len() && 0 <= b < fsv2.inodes.len() && #[trigger] inode_owns(
            fsv2,
            a,
            p,
        ) && #[trigger] inode_owns(fsv2, b, p) implies a == b by {
        assert(points_to(fsv2.sb, fsv2.inodes[a], p) ==> points_to(fsv1.sb, fsv1.inodes[a], p));
        assert(points_to(fsv2.sb, fsv2.inodes[b], p) ==> points_to(fsv1.sb, fsv1.inodes[b], p));
        assert(inode_owns(fsv1, a, p));
        assert(inode_owns(fsv1, b, p));
    }
}

/// Extending one inode's pointer prefix by a data block that was free, while
/// setting exactly that block's allocation bit, preserves the structural
/// invariant.
pub proof fn lemma_inv_after_grow(fsv1: FsView, fsv2: FsView, i: int, f: int, nd: DInodeView)
    requires
        inv_inodes(fsv1),
        spec_sb_valid(fsv1.sb),
        0 <= i < fsv1.inodes.len(),
        fsv1.bitmap.len() == fsv1.sb.ndatablocks,
        0 <= f < fsv1.sb.ndatablocks,
        !fsv1.bitmap[f],
        fsv2.sb == fsv1.sb,
        fsv2.bitmap == fsv1.bitmap.update(f, true),
        fsv2.inodes == fsv1.inodes.update(i, nd),
        spec_nblocks(fsv1.inodes[i]) < DIRECT_POINTERS,
        fsv1.inodes[i].ft != FType::TFree,
        nd.ft == fsv1.inodes[i].ft,
        nd.direct_blocks == fsv1.inodes[i].direct_blocks.update(
            spec_nblocks(fsv1.inodes[i]),
            (fsv1.sb.datastart as int + f) as u64,
        ),
        spec_used_blocks(fsv2.sb, nd) <= spec_nblocks(fsv1.inodes[i]) + 1,
    ensures
        inv_inodes(fsv2),
        spec_nblocks(nd) == spec_nblocks(fsv1.inodes[i]) + 1,
{
    let sb = fsv1.sb;
    let dv = fsv1.inodes[i];
    let nb = spec_nblocks(dv);
    let np: u64 = (sb.datastart as int + f) as u64;
    assert(inode_ok(fsv1, dv));
    lemma_first_zero_slot(dv.direct_blocks, 0);
    assert(sb.datastart as int + f < sb.nblocks as int);
    assert(np as int == sb.datastart as int + f);
    assert forall|k: int| 0 <= k < nb + 1 implies nd.direct_blocks[k] != 0u64 by {
        if k < nb {
            assert(dv.direct_blocks[k] != 0);
        } else {
            crate::layout::lemma_valid_geometry(sb);
            assert(np >= 2);
        }
    }
    lemma_first_zero_slot_is(nd.direct_blocks, nb + 1);
    assert(spec_nblocks(nd) == nb + 1);
    // The new record is sound.
    assert(inode_ok(fsv2, nd)) by {
        assert forall|k: int| 0 <= k < nb + 1 implies is_data_ptr(
            sb,
            #[trigger] nd.direct_blocks[k],
        ) by {
            if k < nb {
                assert(is_data_ptr(sb, dv.direct_blocks[k]));
            }
        }
        assert forall|k: int, l: int| 0 <= k < l < nb + 1 implies nd.direct_blocks[k]
            != nd.direct_blocks[l] by {
            if l < nb {
                assert(dv.direct_blocks[k] != dv.direct_blocks[l]);
            } else {
                assert(fsv1.bitmap[dv.direct_blocks[k] as int - sb.datastart as int]);
            }
        }
        assert forall|k: int| 0 <= k < nb + 1 implies fsv2.bitmap[#[trigger] nd.direct_blocks[k] as int
            - sb.datastart as int] by {
            if k < nb {
                assert(fsv1.bitmap[dv.direct_blocks[k] as int - sb.datastart as int]);
            }
        }
    }
    // Every other record is still sound: its bits are untouched.
    assert forall|m: int| 0 <= m < fsv2.inodes.len() implies inode_ok(
        fsv2,
        #[trigger] fsv2.inodes[m],
    ) by {
        if m != i {
            let dm = fsv1.inodes[m];
            assert(inode_ok(fsv1, dm));
            assert forall|k: int| 0 <= k < spec_nblocks(dm) implies fsv2.bitmap[#[trigger] dm.direct_blocks[k] as int
                - sb.datastart as int] by {
                assert(is_data_ptr(sb, dm.direct_blocks[k]));
                assert(fsv1.bitmap[dm.direct_blocks[k] as int - sb.datastart as int]);
            }
        }
    }
    // No data block gains a second owner: the new pointer was free, so no
    // record pointed at it.
    assert forall|a: int, b: int, p: int|
        0 <= a < fsv2.inodes.len() && 0 <= b < fsv2.inodes.len() && #[trigger] inode_owns(
            fsv2,
            a,
            p,
        ) && #[trigger] inode_owns(fsv2, b, p) implies a == b by {
        assert forall|m: int|
            0 <= m < fsv2.inodes.len() && #[trigger] inode_owns(fsv2, m, p) implies (p == f && m
            == i) || inode_owns(fsv1, m, p) by {
            if m == i {
                let k = choose|k: int|
                    0 <= k < spec_nblocks(nd) && nd.direct_blocks[k] as int == sb.datastart as int
                        + p;
                if k < nb {
                    assert(dv.direct_blocks[k] as int == sb.datastart as int + p);
                    assert(inode_owns(fsv1, m, p));
                } else {
                    assert(p == f);
                }
            }
        }
        if inode_owns(fsv1, a, p) && inode_owns(fsv1, b, p) {
            assert(a == b);
        } else {
            // At least one owner owns the fresh block, whose bit was clear;
            // a second owner would have had its bit set.
            if (p == f && a == i) && inode_owns(fsv1, b, p) {
                let dm = fsv1.inodes[b];
                assert(inode_ok(fsv1, dm));
                let k = choose|k: int|
                    0 <= k < spec_nblocks(dm) && dm.direct_blocks[k] as int == sb.datastart as int
                        + p;
                assert(fsv1.bitmap[dm.direct_blocks[k] as int - sb.datastart as int]);
                assert(false);
            }
            if (p == f && b == i) && inode_owns(fsv1, a, p) {
                let dm = fsv1.inodes[a];
                assert(inode_ok(fsv1, dm));
                let k = choose|k: int|
                    0 <= k < spec_nblocks(dm) && dm.direct_blocks[k] as int == sb.datastart as int
                        + p;
                assert(fsv1.bitmap[dm.direct_blocks[k] as int - sb.datastart as int]);
                assert(false);
            }
        }
    }
}

/// Reads the block of the inode region that holds inode `i`'s record.
pub fn get_inode_block(fs: &FileSystem, i: u64, inodes_per_block: u64) -> (r: Result<
    Block,
    FileSystemError,
>)
    requires
        fs.wf(),
        inodes_per_block as int == spec_inodes_per_block(fs.superblock),
    ensures
        match r {
            Ok(b) => {
                &&& i < fs.superblock.ninodes
                &&& b.block_no as int == spec_inode_block(fs.superblock, i as int)
                &&& b.data@ == fs.device.disk()[spec_inode_block(fs.superblock, i as int)]
                &&& b.data@.len() == fs.superblock.block_size
            },
            Err(e) => {
                &&& e == FileSystemError::IndexOutOfBounds
                &&& i >= fs.superblock.ninodes
            },
        },
{
    if i < fs.superblock.ninodes {
        proof {
            lemma_inode_location(fs.superblock, i as int);
        }
        let block_index = i / inodes_per_block;
        fs.b_get(fs.superblock.inodestart + block_index)
    } else {
        Err(FileSystemError::IndexOutOfBounds)
    }
}

/// How many data blocks the inode's byte size spans.
pub fn get_inode_block_size(fs: &FileSystem, ino: &Inode) -> (r: u64)
    requires
        fs.wf(),
    ensures
        r as int == spec_used_blocks(fs.superblock, ino.disk_node@),
{
    crate::layout::ceil_div_u64(ino.disk_node.size, fs.superblock.block_size)
}

/// How many populated pointer slots the record's prefix holds.
pub fn nblocks_of(node: &DInode) -> (r: u64)
    requires
        node.wf(),
    ensures
        r as int == spec_nblocks(node@),
        r <= DIRECT_POINTERS,
{
    let mut k: usize = 0;
    while k < DIRECT_POINTERS as usize
        invariant
            node.wf(),
            k <= DIRECT_POINTERS,
            forall|l: int| 0 <= l < k as int ==> node.direct_blocks@[l] != 0,
        decreases DIRECT_POINTERS as usize - k,
    {
        if node.direct_blocks[k] == 0 {
            proof {
                lemma_first_zero_slot_is(node@.direct_blocks, k as int);
            }
            return k as u64;
        }
        k += 1;
    }
    proof {
        lemma_first_zero_slot_is(node@.direct_blocks, DIRECT_POINTERS as int);
    }
    DIRECT_POINTERS
}

/// Whether two inode records hold the same value.
fn dinode_eq(a: &DInode, b: &DInode) -> (r: bool)
    requires
        a.wf(),
        b.wf(),
    ensures
        r == (a@ == b@),
{
    if !(a.ft == b.ft && a.nlink == b.nlink && a.size == b.size) {
        return false;
    }
    let mut k: usize = 0;
    while k < DIRECT_POINTERS as usize
        invariant
            a.wf(),
            b.wf(),
            k <= DIRECT_POINTERS,
            forall|j: int| 0 <= j < k ==> a.direct_blocks@[j] == b.direct_blocks@[j],
        decreases DIRECT_POINTERS as usize - k,
    {
        if a.direct_blocks[k] != b.direct_blocks[k] {
            return false;
        }
        k += 1;
    }
    proof {
        assert(a@.direct_blocks =~= b@.direct_blocks);
        assert(a@ =~= b@);
    }
    true
}

impl FileSystem {
    /// Reads inode `i`'s record from disk and returns a fresh handle for it.
    pub fn i_get(&self, i: u64) -> (r: Result<Inode, FileSystemError>)
        requires
            self.wf(),
        ensures
            match r {
                Ok(ino) => {
                    &&& i < self.superblock.ninodes
                    &&& ino.inum == i
                    &&& ino.disk_node@ == self@.inodes[i as int]
                    &&& ino.disk_node.wf()
                },
                Err(e) => {
                    &&& e == FileSystemError::IndexOutOfBounds
                    &&& i >= self.superblock.ninodes
                },
            },
    {
        let inodes_per_block = self.superblock.block_size / DINODE_SIZE;
        let block = match get_inode_block(self, i, inodes_per_block) {
            Ok(b) => b,
            Err(e) => {
                return Err(e);
            },
        };
        proof {
            lemma_inode_location(self.superblock, i as int);
        }
        let off = (i % inodes_per_block) * DINODE_SIZE;
        let disk_node = decode_dinode(block.contents_as_ref(), off as usize);
        Ok(Inode::new(i, disk_node))
    }

    /// Encodes the handle's record and writes it back to the inode's slot on
    /// disk.
    pub fn i_put(&mut self, ino: &Inode) -> (r: Result<(), FileSystemError>)
        requires
            old(self).wf(),
            ino.disk_node.wf(),
        ensures
            final(self).wf(),
            final(self).superblock == old(self).superblock,
            match r {
                Ok(()) => {
                    &&& ino.inum < old(self).superblock.ninodes
                    &&& final(self)@.inodes == old(self)@.inodes.update(
                        ino.inum as int,
                        ino.disk_node@,
                    )
                    &&& final(self)@.bitmap == old(self)@.bitmap
                    &&& final(self)@.data == old(self)@.data
                    &&& forall|t: int|
                        0 <= t < old(self).device.disk().len() && t != spec_inode_block(
                            old(self).superblock,
                            ino.inum as int,
                        ) ==> final(self).device.disk()[t] == old(self).device.disk()[t]
                },
                Err(e) => {
                    &&& e == FileSystemError::IndexOutOfBounds
                    &&& ino.inum >= old(self).superblock.ninodes
                    &&& *final(self) == *old(self)
                },
            },
    {
        let inodes_per_block = self.superblock.block_size / DINODE_SIZE;
        let mut block = match get_inode_block(self, ino.inum, inodes_per_block) {
            Ok(b) => b,
            Err(e) => {
                return Err(e);
            },
        };
        proof {
            lemma_inode_location(self.superblock, ino.inum as int);
        }
        let off = (ino.inum % inodes_per_block) * DINODE_SIZE;
        let enc = encode_dinode(&ino.disk_node);
        match block.write_data(enc.as_slice(), off) {
            Ok(()) => {},
            Err(e) => {
                proof {
                    assert(false);
                }
                return Err(e);
            },
        }
        match self.b_put(&block) {
            Ok(()) => {},
            Err(e) => {
                proof {
                    assert(false);
                }
                return Err(e);
            },
        }
        proof {
            let sb = old(self).superblock;
            let d1 = old(self).device.disk();
            let i = ino.inum as int;
            lemma_inode_update(sb, d1, i, ino.disk_node@);
            assert(self.device.disk() =~~= d1.update(
                spec_inode_block(sb, i),
                crate::byteops::splice(
                    d1[spec_inode_block(sb, i)],
                    crate::model::spec_inode_off(sb, i),
                    crate::records::spec_dinode_enc(ino.disk_node@),
                ),
            ));
        }
        Ok(())
    }
}


impl FileSystem {
    /// Truncates the inode through its handle: releases every referenced
    /// data block, zeroes the pointer slots, resets the size to 0, and
    /// persists the record.  A handle that no longer matches the record on
    /// disk is rejected instead of silently skipped.
    pub fn i_trunc(&mut self, inode: &mut Inode) -> (r: Result<(), FileSystemError>)
        requires
            old(self).wf(),
            inv_inodes(old(self)@),
            old(inode).disk_node.wf(),
        ensures
            final(self).wf(),
            final(self).superblock == old(self).superblock,
            inv_inodes(final(self)@),
            match r {
                Ok(()) => {
                    &&& old(inode).inum < old(self).superblock.ninodes
                    &&& old(inode).disk_node@ == old(self)@.inodes[old(inode).inum as int]
                    &&& final(inode).inum == old(inode).inum
                    &&& final(inode).disk_node@ == spec_truncated(old(inode).disk_node@)
                    &&& final(self)@.inodes == old(self)@.inodes.update(
                        old(inode).inum as int,
                        spec_truncated(old(inode).disk_node@),
                    )
                    &&& final(self)@.data == old(self)@.data
                    &&& final(self)@.bitmap.len() == old(self)@.bitmap.len()
                    &&& forall|j: int|
                        0 <= j < old(self)@.bitmap.len() ==> final(self)@.bitmap[j] == (old(
                            self,
                        )@.bitmap[j] && !points_to(
                            old(self).superblock,
                            old(inode).disk_node@,
                            j,
                        ))
                },
                Err(e) => {
                    &&& *final(self) == *old(self)
                    &&& *final(inode) == *old(inode)
                    &&& if old(inode).inum >= old(self).superblock.ninodes {
                        e == FileSystemError::IndexOutOfBounds
                    } else {
                        &&& e == FileSystemError::INodeNotFoundNotUpToDate
                        &&& old(inode).disk_node@ != old(self)@.inodes[old(inode).inum as int]
                    }
                },
            },
    {
        let disk_ino = match self.i_get(inode.inum) {
            Ok(ino) => ino,
            Err(e) => {
                return Err(e);
            },
        };
        if !dinode_eq(&disk_ino.disk_node, &inode.disk_node) {
            return Err(FileSystemError::INodeNotFoundNotUpToDate);
        }
        proof {
            assert(inode_ok(old(self)@, inode.disk_node@));
        }
        let ghost dv0 = inode.disk_node@;
        match trunc(self, inode) {
            Ok(()) => {},
            Err(e) => {
                proof {
                    assert(false);
                }
                return Err(e);
            },
        }
        let ghost mid = *self;
        match self.i_put(&inode) {
            Ok(()) => {},
            Err(e) => {
                proof {
                    assert(false);
                }
                return Err(e);
            },
        }
        proof {
            let i = inode.inum as int;
            let nr = spec_truncated(dv0);
            if nr.ft == FType::TFree {
                assert(dv0.nlink == 0);
            }
            lemma_inv_after_release(old(self)@, self@, i, nr);
        }
        Ok(())
    }

    /// Frees inode `i`: permitted only for a real inode (never inode 0)
    /// whose link count is 0.  Its data blocks are released first, then the
    /// record is marked free and persisted.
    pub fn i_free(&mut self, i: u64) -> (r: Result<(), FileSystemError>)
        requires
            old(self).wf(),
            inv_inodes(old(self)@),
        ensures
            final(self).wf(),
            final(self).superblock == old(self).superblock,
            inv_inodes(final(self)@),
            match r {
                Ok(()) => {
                    &&& 0 < i < old(self).superblock.ninodes
                    &&& old(self)@.inodes[i as int].nlink == 0
                    &&& final(self)@.inodes == old(self)@.inodes.update(
                        i as int,
                        spec_blank_dinode(FType::TFree),
                    )
                    &&& final(self)@.data == old(self)@.data
                    &&& final(self)@.bitmap.len() == old(self)@.bitmap.len()
                    &&& forall|j: int|
                        0 <= j < old(self)@.bitmap.len() ==> final(self)@.bitmap[j] == (old(
                            self,
                        )@.bitmap[j] && !points_to(
                            old(self).superblock,
                            old(self)@.inodes[i as int],
                            j,
                        ))
                },
                Err(e) => {
                    &&& *final(self) == *old(self)
                    &&& if i >= old(self).superblock.ninodes {
                        e == FileSystemError::IndexOutOfBounds
                    } else {
                        &&& e == FileSystemError::INodeNotFreeable
                        &&& (old(self)@.inodes[i as int].nlink != 0 || i == 0)
                    }
                },
            },
    {
        let mut ino = match self.i_get(i) {
            Ok(ino) => ino,
            Err(e) => {
                return Err(e);
            },
        };
        if !(ino.disk_node.nlink == 0 && i > 0) {
            return Err(FileSystemError::INodeNotFreeable);
        }
        proof {
            assert(inode_ok(old(self)@, ino.disk_node@));
        }
        let ghost dv0 = ino.disk_node@;
        match trunc(self, &mut ino) {
            Ok(()) => {},
            Err(e) => {
                proof {
                    assert(false);
                }
                return Err(e);
            },
        }
        ino.disk_node.ft = FType::TFree;
        proof {
            assert(ino.disk_node@ =~= spec_blank_dinode(FType::TFree));
        }
        match self.i_put(&ino) {
            Ok(()) => {},
            Err(e) => {
                proof {
                    assert(false);
                }
                return Err(e);
            },
        }
        proof {
            lemma_inv_after_release(old(self)@, self@, i as int, spec_blank_dinode(FType::TFree));
        }
        Ok(())
    }

    /// Allocates the free inode with the lowest number, starting at 1 (inode
    /// 0 is never allocated), stamps it with the requested type and persists
    /// it.  A table without a free inode is an allocation failure.
    pub fn i_alloc(&mut self, ft: FType) -> (r: Result<u64, FileSystemError>)
        requires
            old(self).wf(),
            inv_inodes(old(self)@),
        ensures
            final(self).wf(),
            final(self).superblock == old(self).superblock,
            inv_inodes(final(self)@),
            match r {
                Ok(i) => {
                    &&& 1 <= i < old(self).superblock.ninodes
                    &&& old(self)@.inodes[i as int].ft == FType::TFree
                    &&& (forall|j: int|
                        1 <= j < i as int ==> old(self)@.inodes[j].ft != FType::TFree)
                    &&& final(self)@.inodes == old(self)@.inodes.update(
                        i as int,
                        spec_blank_dinode(ft),
                    )
                    &&& final(self)@.bitmap == old(self)@.bitmap
                    &&& final(self)@.data == old(self)@.data
                },
                Err(e) => {
                    &&& e == FileSystemError::AllocationError
                    &&& (forall|j: int|
                        1 <= j < old(self).superblock.ninodes ==> old(self)@.inodes[j].ft
                            != FType::TFree)
                    &&& *final(self) == *old(self)
                },
            },
    {
        let ninodes = self.superblock.ninodes;
        let mut i: u64 = 1;
        while i < ninodes
            invariant
                self.wf(),
                *self == *old(self),
                inv_inodes(self@),
                ninodes == self.superblock.ninodes,
                1 <= i <= ninodes,
                forall|j: int| 1 <= j < i as int ==> self@.inodes[j].ft != FType::TFree,
            decreases ninodes - i,
        {
            let mut ino = match self.i_get(i) {
                Ok(ino) => ino,
                Err(e) => {
                    proof {
                        assert(false);
                    }
                    return Err(e);
                },
            };
            if ino.disk_node.ft == FType::TFree {
                proof {
                    assert(inode_ok(old(self)@, ino.disk_node@));
                }
                let ghost dv0 = ino.disk_node@;
                ino.disk_node.ft = ft;
                proof {
                    assert(spec_nblocks(dv0) == 0);
                    assert forall|k: int|
                        0 <= k < DIRECT_POINTERS implies #[trigger] dv0.direct_blocks[k]
                        == 0u64 by {}
                    assert(ino.disk_node@ =~= spec_blank_dinode(ft));
                }
                match self.i_put(&ino) {
                    Ok(()) => {},
                    Err(e) => {
                        proof {
                            assert(false);
                        }
                        return Err(e);
                    },
                }
                proof {
                    let nr = spec_blank_dinode(ft);
                    assert forall|j: int|
                        0 <= j < old(self)@.bitmap.len() implies self@.bitmap[j] == (old(
                        self,
                    )@.bitmap[j] && !points_to(
                        old(self).superblock,
                        old(self)@.inodes[i as int],
                        j,
                    )) by {
                        if points_to(old(self).superblock, old(self)@.inodes[i as int], j) {
                            assert(spec_nblocks(dv0) == 0);
                            assert(false);
                        }
                    }
                    lemma_inv_after_release(old(self)@, self@, i as int, nr);
                }
                return Ok(i);
            }
            i += 1;
        }
        Err(FileSystemError::AllocationError)
    }
}

/// Initializes every inode record of the volume to the blank free record,
/// each record explicitly written.
pub fn allocate_inodes(fs: &mut FileSystem) -> (r: Result<(), FileSystemError>)
    requires
        old(fs).wf(),
    ensures
        r is Ok,
        final(fs).wf(),
        final(fs).superblock == old(fs).superblock,
        final(fs)@.inodes == Seq::new(
            old(fs).superblock.ninodes as nat,
            |_i: int| spec_blank_dinode(FType::TFree),
        ),
        final(fs)@.bitmap == old(fs)@.bitmap,
        final(fs)@.data == old(fs)@.data,
        forall|t: int|
            0 <= t < old(fs).device.disk().len() && !(1 <= t < 1 + crate::layout::spec_ninodeblocks(
                old(fs).superblock,
            )) ==> final(fs).device.disk()[t] == old(fs).device.disk()[t],
{
    let ghost sb = old(fs).superblock;
    let ninodes = fs.superblock.ninodes;
    let mut i: u64 = 0;
    while i < ninodes
        invariant
            fs.wf(),
            fs.superblock == sb,
            sb == old(fs).superblock,
            ninodes == sb.ninodes,
            i <= ninodes,
            old(fs).device.disk().len() == sb.nblocks,
            fs@.inodes.len() == ninodes,
            old(fs)@.inodes.len() == ninodes,
            forall|j: int|
                0 <= j < i as int ==> fs@.inodes[j] == spec_blank_dinode(FType::TFree),
            forall|j: int| i as int <= j < ninodes ==> fs@.inodes[j] == old(fs)@.inodes[j],
            fs@.bitmap == old(fs)@.bitmap,
            fs@.data == old(fs)@.data,
            forall|t: int|
                0 <= t < old(fs).device.disk().len() && !(1 <= t < 1 + crate::layout::spec_ninodeblocks(
                    sb,
                )) ==> fs.device.disk()[t] == old(fs).device.disk()[t],
        decreases ninodes - i,
    {
        let node = blank_dinode(FType::TFree);
        let ino = Inode::new(i, node);
        let ghost fs_pre = *fs;
        match fs.i_put(&ino) {
            Ok(()) => {},
            Err(e) => {
                proof {
                    assert(false);
                }
                return Err(e);
            },
        }
        proof {
            lemma_inode_location(sb, i as int);
            assert forall|t: int|
                0 <= t < old(fs).device.disk().len() && !(1 <= t < 1 + crate::layout::spec_ninodeblocks(
                    sb,
                )) implies fs.device.disk()[t] == old(fs).device.disk()[t] by {
                assert(t != spec_inode_block(sb, i as int));
                assert(fs.device.disk()[t] == fs_pre.device.disk()[t]);
            }
        }
        i += 1;
    }
    proof {
        assert(fs@.inodes =~= Seq::new(
            sb.ninodes as nat,
            |_i: int| spec_blank_dinode(FType::TFree),
        ));
    }
    Ok(())
}

/// Creates the root directory inode: the record of inode 1 becomes an empty
/// directory.
pub fn allocate_rootdirectory(fs: &mut FileSystem) -> (r: Result<(), FileSystemError>)
    requires
        old(fs).wf(),
    ensures
        r is Ok,
        final(fs).wf(),
        final(fs).superblock == old(fs).superblock,
        final(fs)@.inodes == old(fs)@.inodes.update(1, spec_blank_dinode(FType::TDir)),
        final(fs)@.bitmap == old(fs)@.bitmap,
        final(fs)@.data == old(fs)@.data,
        forall|t: int|
            0 <= t < old(fs).device.disk().len() && !(1 <= t < 1 + crate::layout::spec_ninodeblocks(
                old(fs).superblock,
            )) ==> final(fs).device.disk()[t] == old(fs).device.disk()[t],
{
    let node = blank_dinode(FType::TDir);
    let ino = Inode::new(1, node);
    proof {
        crate::layout::lemma_valid_geometry(old(fs).superblock);
    }
    match fs.i_put(&ino) {
        Ok(()) => {},
        Err(e) => {
            proof {
                assert(false);
            }
            return Err(e);
        },
    }
    proof {
        lemma_inode_location(old(fs).superblock, 1);
    }
    Ok(())
}

} // verus!
