//! Volume-wide laws of the library, stated over the mathematical model and
//! proved once and for all: what formatting, allocation, truncation, linking
//! and writing guarantee in combination.

use crate::blocks::{all_allocated, is_first_free};
use crate::dirs::{
    lemma_name_roundtrip, pad_name, slot_matches, spec_dir_slots, spec_slot, spec_valid_name,
};
use crate::inodes::{is_data_ptr, points_to, points_within, spec_nblocks};
use crate::layout::{spec_sb_valid, SuperBlock};
use crate::model::{spec_fresh_view, FsView};
use crate::records::{lemma_sb_roundtrip, spec_sb_dec, spec_sb_enc, DInodeView, DirEntryView};
use crate::rw::spec_file_bytes;
use vstd::prelude::*;

verus! {

/// Law: decoding a stored superblock record recovers it exactly, whatever
/// padding follows it inside block 0.  Formatting a volume with a valid
/// superblock and then mounting it therefore adopts an equal superblock and
/// reports the same geometry.
pub proof fn lemma_layout_roundtrip(sb: SuperBlock, pad: Seq<u8>)
    requires
        spec_sb_valid(sb),
    ensures
        spec_sb_dec(spec_sb_enc(sb) + pad) == sb,
{
    lemma_sb_roundtrip(sb, pad);
}

/// Law: the index the allocator hands out was free at the time, so the set
/// of indices successful allocations return is always disjoint from the set
/// of currently allocated indices.
pub proof fn lemma_alloc_yields_free(bitmap: Seq<bool>, i: int)
    requires
        is_first_free(bitmap, i),
    ensures
        0 <= i < bitmap.len(),
        !bitmap[i],
{
}

/// Law: freeing an index below which everything is allocated makes it the
/// allocator's next pick, so a freed block may be handed out again.
pub proof fn lemma_free_then_alloc_reyields(bitmap: Seq<bool>, i: int)
    requires
        0 <= i < bitmap.len(),
        forall|j: int| 0 <= j < i ==> bitmap[j],
    ensures
        is_first_free(bitmap.update(i, false), i),
{
}

/// The bitmap of a volume whose lowest `k` data blocks are allocated and
/// whose remaining blocks are free.
pub open spec fn spec_prefix_allocated(n: int, k: int) -> Seq<bool> {
    Seq::new(n as nat, |j: int| j < k)
}

/// Law: with the lowest `k` of `n` data blocks allocated, the next
/// allocation yields exactly index `k`.  Starting from a fresh volume, `n`
/// consecutive allocations therefore succeed with the distinct indices
/// `0 .. n`, in order.
pub proof fn lemma_bounded_allocation(n: int, k: int)
    requires
        0 <= k < n,
    ensures
        is_first_free(spec_prefix_allocated(n, k), k),
        spec_prefix_allocated(n, k).update(k, true) == spec_prefix_allocated(n, k + 1),
{
    assert(spec_prefix_allocated(n, k).update(k, true) =~= spec_prefix_allocated(n, k + 1));
}

/// Law: a fresh volume has nothing allocated, and once every data block is
/// allocated the allocator can only fail.
pub proof fn lemma_allocation_bounds(sb: SuperBlock)
    requires
        spec_sb_valid(sb),
    ensures
        spec_fresh_view(sb).bitmap == spec_prefix_allocated(sb.ndatablocks as int, 0),
        all_allocated(spec_prefix_allocated(sb.ndatablocks as int, sb.ndatablocks as int)),
{
    assert(spec_fresh_view(sb).bitmap =~= spec_prefix_allocated(sb.ndatablocks as int, 0));
}

/// Law: truncation releases every data block the record pointed at back to
/// the allocator: each populated pointer's allocation bit is clear in the
/// bitmap truncation leaves behind, so each block is re-allocatable.
pub proof fn lemma_trunc_releases(
    sb: SuperBlock,
    dv: DInodeView,
    bm1: Seq<bool>,
    bm2: Seq<bool>,
    k: int,
)
    requires
        bm1.len() == sb.ndatablocks,
        bm2.len() == bm1.len(),
        forall|j: int| 0 <= j < bm1.len() ==> bm2[j] == (bm1[j] && !points_to(sb, dv, j)),
        0 <= k < spec_nblocks(dv),
        is_data_ptr(sb, dv.direct_blocks[k]),
    ensures
        !bm2[dv.direct_blocks[k] as int - sb.datastart as int],
{
    let j = dv.direct_blocks[k] as int - sb.datastart as int;
    assert(points_within(sb, dv, spec_nblocks(dv), j)) by {
        assert(0 <= k < spec_nblocks(dv) && dv.direct_blocks[k] as int == sb.datastart as int
            + j);
    }
}

/// Law: after linking a name that was absent from the directory, looking the
/// name up finds exactly the new entry — the slot the link filled matches,
/// and no slot before it does.
pub proof fn lemma_link_then_lookup(
    fsv0: FsView,
    dv0: DInodeView,
    fsv1: FsView,
    dv1: DInodeView,
    name: Seq<u8>,
    de: DirEntryView,
    j: int,
)
    requires
        spec_valid_name(name),
        de.inum != 0,
        de.name == pad_name(name),
        fsv1.sb == fsv0.sb,
        0 <= j < spec_dir_slots(fsv1.sb, dv1),
        j <= spec_dir_slots(fsv0.sb, dv0),
        spec_slot(fsv1, dv1, j) == de,
        forall|l: int|
            0 <= l < j ==> spec_slot(fsv1, dv1, l) == spec_slot(fsv0, dv0, l) && spec_slot(
                fsv1,
                dv1,
                l,
            ).inum != 0,
        forall|l: int|
            0 <= l < spec_dir_slots(fsv0.sb, dv0) ==> !slot_matches(fsv0, dv0, l, name),
    ensures
        slot_matches(fsv1, dv1, j, name),
        forall|l: int| 0 <= l < j ==> !slot_matches(fsv1, dv1, l, name),
{
    lemma_name_roundtrip(name);
    assert(crate::dirs::spec_name_of(spec_slot(fsv1, dv1, j).name) == name);
    assert forall|l: int| 0 <= l < j implies !slot_matches(fsv1, dv1, l, name) by {
        assert(spec_slot(fsv1, dv1, l) == spec_slot(fsv0, dv0, l));
        assert(!slot_matches(fsv0, dv0, l, name));
    }
}

/// Law: the bytes a write stored at a range are exactly the bytes a read of
/// the same range returns afterwards.
pub proof fn lemma_write_then_read(fsv: FsView, dv: DInodeView, buf: Seq<u8>, off: int, n: int)
    requires
        0 <= off,
        0 <= n <= buf.len(),
        off + n <= dv.size,
        forall|x: int| off <= x < off + n ==> spec_file_bytes(fsv, dv)[x] == buf[x - off],
    ensures
        spec_file_bytes(fsv, dv).subrange(off, off + n) == buf.take(n),
{
    assert(spec_file_bytes(fsv, dv).subrange(off, off + n) =~= buf.take(n));
}

} // verus!
