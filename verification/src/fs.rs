//! The file system handle: exclusive owner of a device together with the
//! volume's superblock, and the operations that format, mount and unmount a
//! volume and move raw blocks and the superblock record.

use crate::byteops::splice;
use crate::device::{read_block, write_block, zero_bytes, Block, Device};
use crate::errors::FileSystemError;
use crate::layout::{
    get_nbitmapblocks, get_ninodeblocks, lemma_valid_geometry, sb_valid, spec_nbitmapblocks,
    spec_ninodeblocks, spec_sb_valid, SuperBlock, SUPERBLOCK_SIZE,
};
use crate::model::{fs_view, FsView};
use crate::records::{decode_sb, encode_sb, lemma_sb_roundtrip, spec_sb_dec, spec_sb_enc};
use vstd::prelude::*;

verus! {

/// A mounted volume: the superblock read at mount time and the exclusively
/// owned device the volume lives on.
#[derive(Debug)]
pub struct FileSystem {
    /// The volume's layout descriptor, decoded from block 0 at mount time.
    pub superblock: SuperBlock,
    /// The device the volume lives on, owned until unmounted.
    pub device: Device,
}

impl View for FileSystem {
    type V = FsView;

    open spec fn view(&self) -> FsView {
        fs_view(self.superblock, self.device.disk())
    }
}

impl FileSystem {
    /// A mounted volume is well formed when its device is, its superblock is
    /// valid, and the superblock's geometry matches the device's.
    pub open spec fn wf(&self) -> bool {
        &&& self.device.wf()
        &&& spec_sb_valid(self.superblock)
        &&& self.device.block_size == self.superblock.block_size
        &&& self.device.nblocks == self.superblock.nblocks
    }

    /// Combines a superblock and a device into a file system handle.
    pub fn create_filesystem(superblock: SuperBlock, device: Device) -> (fs: FileSystem)
        ensures
            fs.superblock == superblock,
            fs.device == device,
    {
        FileSystem { superblock, device }
    }

    /// Whether the superblock describes a consistent volume layout.
    pub fn sb_valid(sb: &SuperBlock) -> (r: bool)
        ensures
            r == spec_sb_valid(*sb),
    {
        sb_valid(sb)
    }

    /// Mounts the volume stored on the device: reads block 0, decodes the
    /// superblock, validates it, and cross-checks it against the device's
    /// actual geometry.  Any mismatch is an error, never a silent coercion.
    pub fn mountfs(dev: Device) -> (r: Result<FileSystem, FileSystemError>)
        requires
            dev.wf(),
        ensures
            match r {
                Ok(fs) => {
                    &&& dev.nblocks >= 1
                    &&& dev.block_size >= SUPERBLOCK_SIZE
                    &&& spec_sb_valid(spec_sb_dec(dev.disk()[0]))
                    &&& spec_sb_dec(dev.disk()[0]).block_size == dev.block_size
                    &&& spec_sb_dec(dev.disk()[0]).nblocks == dev.nblocks
                    &&& fs.superblock == spec_sb_dec(dev.disk()[0])
                    &&& fs.device == dev
                    &&& fs.wf()
                },
                Err(e) => {
                    &&& e == FileSystemError::InvalidSuperBlock
                    &&& (dev.nblocks < 1 || dev.block_size < SUPERBLOCK_SIZE || !spec_sb_valid(
                        spec_sb_dec(dev.disk()[0]),
                    ) || spec_sb_dec(dev.disk()[0]).block_size != dev.block_size || spec_sb_dec(
                        dev.disk()[0],
                    ).nblocks != dev.nblocks)
                },
            },
    {
        if dev.nblocks < 1 || dev.block_size < SUPERBLOCK_SIZE {
            return Err(FileSystemError::InvalidSuperBlock);
        }
        let block = match read_block(&dev, 0) {
            Ok(block) => block,
            Err(e) => {
                return Err(FileSystemError::InvalidSuperBlock);
            },
        };
        let sb = decode_sb(block.contents_as_ref());
        if sb_valid(&sb) && dev.block_size == sb.block_size && dev.nblocks == sb.nblocks {
            Ok(FileSystem::create_filesystem(sb, dev))
        } else {
            Err(FileSystemError::InvalidSuperBlock)
        }
    }

    /// Releases ownership of the device back to the caller; the handle is
    /// consumed.
    pub fn unmountfs(self) -> (dev: Device)
        ensures
            dev == self.device,
    {
        self.device
    }

    /// Reads the raw block at index `i` of the volume.
    pub fn b_get(&self, i: u64) -> (r: Result<Block, FileSystemError>)
        requires
            self.wf(),
        ensures
            match r {
                Ok(b) => {
                    &&& i < self.superblock.nblocks
                    &&& b.block_no == i
                    &&& b.data@ == self.device.disk()[i as int]
                },
                Err(e) => {
                    &&& e == FileSystemError::IndexOutOfBounds
                    &&& i >= self.superblock.nblocks
                },
            },
    {
        read_block(&self.device, i)
    }

    /// Writes a raw block back to the volume at the buffer's own index.
    pub fn b_put(&mut self, b: &Block) -> (r: Result<(), FileSystemError>)
        requires
            old(self).wf(),
        ensures
            final(self).wf(),
            final(self).superblock == old(self).superblock,
            match r {
                Ok(()) => {
                    &&& b.block_no < old(self).superblock.nblocks
                    &&& b.data@.len() == old(self).superblock.block_size
                    &&& final(self).device.disk() == old(self).device.disk().update(
                        b.block_no as int,
                        b.data@,
                    )
                },
                Err(e) => {
                    &&& final(self).device.disk() == old(self).device.disk()
                    &&& (b.block_no >= old(self).superblock.nblocks || b.data@.len() != old(
                        self,
                    ).superblock.block_size)
                    &&& e == (if b.block_no >= old(self).superblock.nblocks {
                        FileSystemError::IndexOutOfBounds
                    } else {
                        FileSystemError::RangeError
                    })
                },
            },
    {
        write_block(&mut self.device, b)
    }

    /// Reads the superblock record stored at block 0 of the volume.
    pub fn sup_get(&self) -> (r: Result<SuperBlock, FileSystemError>)
        requires
            self.wf(),
        ensures
            r == Ok::<SuperBlock, FileSystemError>(spec_sb_dec(self.device.disk()[0])),
    {
        proof {
            lemma_valid_geometry(self.superblock);
        }
        let block = match self.b_get(0) {
            Ok(block) => block,
            Err(e) => {
                return Err(e);
            },
        };
        Ok(decode_sb(block.contents_as_ref()))
    }

    /// Writes a new superblock record to block 0 and adopts it as the
    /// volume's layout.  The new superblock must be valid and must describe
    /// the same geometry as the device; anything else is rejected.
    pub fn sup_put(&mut self, sup: &SuperBlock) -> (r: Result<(), FileSystemError>)
        requires
            old(self).wf(),
        ensures
            final(self).wf(),
            match r {
                Ok(()) => {
                    &&& spec_sb_valid(*sup)
                    &&& sup.block_size == old(self).superblock.block_size
                    &&& sup.nblocks == old(self).superblock.nblocks
                    &&& final(self).superblock == *sup
                    &&& final(self).device.disk() == old(self).device.disk().update(
                        0,
                        splice(old(self).device.disk()[0], 0, spec_sb_enc(*sup)),
                    )
                    &&& spec_sb_dec(final(self).device.disk()[0]) == *sup
                },
                Err(e) => {
                    &&& e == FileSystemError::InvalidSuperBlock
                    &&& (!spec_sb_valid(*sup) || sup.block_size != old(self).superblock.block_size
                        || sup.nblocks != old(self).superblock.nblocks)
                    &&& *final(self) == *old(self)
                },
            },
    {
        if !sb_valid(sup) || sup.block_size != self.superblock.block_size || sup.nblocks
            != self.superblock.nblocks {
            return Err(FileSystemError::InvalidSuperBlock);
        }
        proof {
            lemma_valid_geometry(self.superblock);
        }
        let mut block = match self.b_get(0) {
            Ok(block) => block,
            Err(e) => {
                return Err(FileSystemError::InvalidSuperBlock);
            },
        };
        let enc = encode_sb(sup);
        match block.write_data(enc.as_slice(), 0) {
            Ok(()) => {},
            Err(e) => {
                return Err(FileSystemError::InvalidSuperBlock);
            },
        }
        match self.b_put(&block) {
            Ok(()) => {},
            Err(e) => {
                return Err(FileSystemError::InvalidSuperBlock);
            },
        }
        self.superblock = *sup;
        proof {
            let d0 = splice(old(self).device.disk()[0], 0, spec_sb_enc(*sup));
            crate::records::lemma_sb_enc_len(*sup);
            assert(d0 =~= spec_sb_enc(*sup) + old(self).device.disk()[0].skip(
                SUPERBLOCK_SIZE as int,
            ));
            lemma_sb_roundtrip(*sup, old(self).device.disk()[0].skip(SUPERBLOCK_SIZE as int));
        }
        Ok(())
    }
}

/// Writes the superblock record into block 0 of the device.
pub fn write_sb(sb: &SuperBlock, dev: &mut Device) -> (r: Result<(), FileSystemError>)
    requires
        old(dev).wf(),
        old(dev).nblocks >= 1,
        old(dev).block_size >= SUPERBLOCK_SIZE,
    ensures
        r is Ok,
        final(dev).wf(),
        final(dev).block_size == old(dev).block_size,
        final(dev).nblocks == old(dev).nblocks,
        final(dev).disk() == old(dev).disk().update(
            0,
            splice(old(dev).disk()[0], 0, spec_sb_enc(*sb)),
        ),
        spec_sb_dec(final(dev).disk()[0]) == *sb,
{
    let mut block = match read_block(dev, 0) {
        Ok(block) => block,
        Err(e) => {
            return Err(e);
        },
    };
    let enc = encode_sb(sb);
    match block.write_data(enc.as_slice(), 0) {
        Ok(()) => {},
        Err(e) => {
            return Err(e);
        },
    }
    match write_block(dev, &block) {
        Ok(()) => {},
        Err(e) => {
            return Err(e);
        },
    }
    proof {
        let d0 = splice(old(dev).disk()[0], 0, spec_sb_enc(*sb));
        crate::records::lemma_sb_enc_len(*sb);
        assert(d0 =~= spec_sb_enc(*sb) + old(dev).disk()[0].skip(SUPERBLOCK_SIZE as int));
        lemma_sb_roundtrip(*sb, old(dev).disk()[0].skip(SUPERBLOCK_SIZE as int));
    }
    Ok(())
}

/// Zero-fills the blocks `[start, start + count)` of the device, each block
/// explicitly written.
fn zero_region(dev: &mut Device, start: u64, count: u64) -> (r: Result<(), FileSystemError>)
    requires
        old(dev).wf(),
        start + count <= old(dev).nblocks,
    ensures
        r is Ok,
        final(dev).wf(),
        final(dev).block_size == old(dev).block_size,
        final(dev).nblocks == old(dev).nblocks,
        final(dev).disk().len() == old(dev).disk().len(),
        forall|t: int|
            0 <= t < old(dev).disk().len() ==> final(dev).disk()[t] == (if start <= t < start
                + count {
                zero_bytes(old(dev).block_size as int)
            } else {
                old(dev).disk()[t]
            }),
{
    let mut k: u64 = 0;
    while k < count
        invariant
            dev.wf(),
            start + count <= dev.nblocks,
            dev.block_size == old(dev).block_size,
            dev.nblocks == old(dev).nblocks,
            k <= count,
            dev.disk().len() == old(dev).disk().len(),
            forall|t: int|
                0 <= t < dev.disk().len() ==> dev.disk()[t] == (if start <= t < start + k {
                    zero_bytes(old(dev).block_size as int)
                } else {
                    old(dev).disk()[t]
                }),
        decreases count - k,
    {
        let block = Block::new_zero(start + k, dev.block_size);
        match write_block(dev, &block) {
            Ok(()) => {},
            Err(e) => {
                return Err(e);
            },
        }
        k += 1;
    }
    Ok(())
}

/// Zero-fills every block of the inode region.
pub fn allocate_inoderegionblocks(sb: &SuperBlock, dev: &mut Device) -> (r: Result<
    (),
    FileSystemError,
>)
    requires
        old(dev).wf(),
        spec_sb_valid(*sb),
        old(dev).block_size == sb.block_size,
        old(dev).nblocks == sb.nblocks,
    ensures
        r is Ok,
        final(dev).wf(),
        final(dev).block_size == old(dev).block_size,
        final(dev).nblocks == old(dev).nblocks,
        forall|t: int|
            0 <= t < old(dev).disk().len() ==> final(dev).disk()[t] == (if 1 <= t < 1
                + spec_ninodeblocks(*sb) {
                zero_bytes(sb.block_size as int)
            } else {
                old(dev).disk()[t]
            }),
{
    let ninodeblocks = get_ninodeblocks(sb);
    proof {
        lemma_valid_geometry(*sb);
    }
    zero_region(dev, sb.inodestart, ninodeblocks)
}

/// Zero-fills every block of the free-space bitmap region.
pub fn allocate_bitmapregion(sb: &SuperBlock, dev: &mut Device) -> (r: Result<
    (),
    FileSystemError,
>)
    requires
        old(dev).wf(),
        spec_sb_valid(*sb),
        old(dev).block_size == sb.block_size,
        old(dev).nblocks == sb.nblocks,
    ensures
        r is Ok,
        final(dev).wf(),
        final(dev).block_size == old(dev).block_size,
        final(dev).nblocks == old(dev).nblocks,
        forall|t: int|
            0 <= t < old(dev).disk().len() ==> final(dev).disk()[t] == (
            if sb.bmapstart as int <= t < sb.bmapstart as int + spec_nbitmapblocks(*sb) {
                zero_bytes(sb.block_size as int)
            } else {
                old(dev).disk()[t]
            }),
{
    let nbitmapblocks = get_nbitmapblocks(sb);
    proof {
        lemma_valid_geometry(*sb);
    }
    zero_region(dev, sb.bmapstart, nbitmapblocks)
}

/// Zero-fills every block of the data region.
pub fn allocate_dataregion(sb: &SuperBlock, dev: &mut Device) -> (r: Result<(), FileSystemError>)
    requires
        old(dev).wf(),
        spec_sb_valid(*sb),
        old(dev).block_size == sb.block_size,
        old(dev).nblocks == sb.nblocks,
    ensures
        r is Ok,
        final(dev).wf(),
        final(dev).block_size == old(dev).block_size,
        final(dev).nblocks == old(dev).nblocks,
        forall|t: int|
            0 <= t < old(dev).disk().len() ==> final(dev).disk()[t] == (
            if sb.datastart as int <= t < sb.datastart as int + sb.ndatablocks as int {
                zero_bytes(sb.block_size as int)
            } else {
                old(dev).disk()[t]
            }),
{
    zero_region(dev, sb.datastart, sb.ndatablocks)
}


/// Formats a fresh volume with the superblock's geometry: rejects an invalid
/// superblock, creates a zero-filled device, writes the superblock to block
/// 0, explicitly zero-fills the inode, bitmap and data regions, initializes
/// every inode record to free, creates the root directory inode, and returns
/// the mounted volume.
pub fn mkfs(sb: &SuperBlock) -> (r: Result<FileSystem, FileSystemError>)
    requires
        sb.block_size <= usize::MAX as u64,
        sb.nblocks <= usize::MAX as u64,
    ensures
        match r {
            Ok(fs) => {
                &&& spec_sb_valid(*sb)
                &&& fs.wf()
                &&& fs.superblock == *sb
                &&& fs@ == crate::model::spec_fresh_view(*sb)
                &&& crate::inodes::inv_inodes(fs@)
                &&& spec_sb_dec(fs.device.disk()[0]) == *sb
            },
            Err(e) => {
                &&& e == FileSystemError::InvalidSuperBlock
                &&& !spec_sb_valid(*sb)
            },
        },
{
    if !FileSystem::sb_valid(sb) {
        return Err(FileSystemError::InvalidSuperBlock);
    }
    proof {
        lemma_valid_geometry(*sb);
    }
    let mut device = Device::new(sb.block_size, sb.nblocks);
    match write_sb(sb, &mut device) {
        Ok(()) => {},
        Err(e) => {
            proof {
                assert(false);
            }
            return Err(e);
        },
    }
    let ghost d1 = device.disk();
    match allocate_inoderegionblocks(sb, &mut device) {
        Ok(()) => {},
        Err(e) => {
            proof {
                assert(false);
            }
            return Err(e);
        },
    }
    let ghost d2 = device.disk();
    match allocate_bitmapregion(sb, &mut device) {
        Ok(()) => {},
        Err(e) => {
            proof {
                assert(false);
            }
            return Err(e);
        },
    }
    let ghost d3 = device.disk();
    match allocate_dataregion(sb, &mut device) {
        Ok(()) => {},
        Err(e) => {
            proof {
                assert(false);
            }
            return Err(e);
        },
    }
    let ghost d4 = device.disk();
    proof {
        // Block 0 lies in no region, so the stored superblock survives.
        assert(d4[0] == d1[0]);
        assert(spec_sb_dec(device.disk()[0]) == *sb);
    }
    let mut fs = match FileSystem::mountfs(device) {
        Ok(fs) => fs,
        Err(e) => {
            proof {
                assert(false);
            }
            return Err(e);
        },
    };
    proof {
        // Every bitmap block is zero-filled, so every allocation bit is clear.
        assert forall|i: int| 0 <= i < sb.ndatablocks as int implies !crate::model::spec_bit_at(
            *sb,
            d4,
            i,
        ) by {
            crate::model::lemma_bit_location(*sb, i);
            let blk = crate::model::spec_bit_block(*sb, i);
            assert(d4[blk] == d3[blk]);
            assert(d3[blk] == zero_bytes(sb.block_size as int));
            assert(d4[blk][crate::model::spec_bit_byte(*sb, i)] == 0u8);
            let k = crate::model::spec_bit_index(*sb, i) as u8;
            assert(k < 8 ==> (0u8 >> k) & 1 == 0) by (bit_vector);
        }
        assert(fs@.bitmap =~= crate::model::spec_fresh_view(*sb).bitmap);
        assert(fs@.data =~= crate::model::spec_fresh_view(*sb).data);
    }
    let ghost fs_mounted = fs;
    match crate::inodes::allocate_inodes(&mut fs) {
        Ok(()) => {},
        Err(e) => {
            proof {
                assert(false);
            }
            return Err(e);
        },
    }
    match crate::inodes::allocate_rootdirectory(&mut fs) {
        Ok(()) => {},
        Err(e) => {
            proof {
                assert(false);
            }
            return Err(e);
        },
    }
    proof {
        let fresh = crate::model::spec_fresh_view(*sb);
        assert(fs@.inodes =~= fresh.inodes);
        assert(fs@.bitmap == fs_mounted@.bitmap);
        assert(fs@.data == fs_mounted@.data);
        assert(fs@ =~= fresh);
        crate::inodes::lemma_fresh_view_inv(*sb);
        // Block 0 is outside the inode region, so the superblock record is
        // still in place.
        assert(fs.device.disk()[0] == d4[0]);
    }
    Ok(fs)
}

} // verus!
