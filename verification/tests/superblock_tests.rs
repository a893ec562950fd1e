use blockfs::fs::FileSystem;
use blockfs::layout::SuperBlock;

static BLOCK_SIZE: u64 = 1000;
static NBLOCKS: u64 = 10;

static SUPERBLOCK_OVERSIZED: SuperBlock = SuperBlock {
    block_size: BLOCK_SIZE,
    nblocks: NBLOCKS,
    ninodes: 1000,
    inodestart: 1,
    ndatablocks: 5,
    bmapstart: 5,
    datastart: 6,
};

static SUPERBLOCK_GOOD: SuperBlock = SuperBlock {
    block_size: BLOCK_SIZE,
    nblocks: NBLOCKS,
    ninodes: 6,
    inodestart: 1,
    ndatablocks: 4,
    bmapstart: 5,
    datastart: 6,
};

static SUPERBLOCK_BAD_1: SuperBlock = SuperBlock {
    block_size: BLOCK_SIZE,
    nblocks: NBLOCKS,
    ninodes: 6,
    inodestart: 1,
    ndatablocks: 2,
    bmapstart: 5,
    datastart: 6,
};

// The inode table of this superblock has room for a single inode, so there is
// no room for the root directory inode 1: the volume is not formattable.
static SUPERBLOCK_BAD_2: SuperBlock = SuperBlock {
    block_size: BLOCK_SIZE,
    nblocks: NBLOCKS,
    ninodes: 1,
    inodestart: 1,
    ndatablocks: 5,
    bmapstart: 5,
    datastart: 6,
};

static SUPERBLOCK_BAD_3: SuperBlock = SuperBlock {
    block_size: BLOCK_SIZE,
    nblocks: NBLOCKS,
    ninodes: 1,
    inodestart: 1,
    ndatablocks: 5,
    bmapstart: 4,
    datastart: 5,
};

#[test]
fn trivial_unit_test() {
    assert_eq!(FileSystem::sb_valid(&SUPERBLOCK_OVERSIZED), false);
    assert_eq!(FileSystem::sb_valid(&SUPERBLOCK_GOOD), true);
    assert_eq!(FileSystem::sb_valid(&SUPERBLOCK_BAD_1), true);
    assert_eq!(FileSystem::sb_valid(&SUPERBLOCK_BAD_2), false);
    assert_eq!(FileSystem::sb_valid(&SUPERBLOCK_BAD_3), false);
}

#[test]
fn format_then_mount_roundtrip() {
    let fs = blockfs::fs::mkfs(&SUPERBLOCK_GOOD).unwrap();
    assert_eq!(fs.superblock, SUPERBLOCK_GOOD);
    let dev = fs.unmountfs();
    assert_eq!(dev.block_size, BLOCK_SIZE);
    assert_eq!(dev.nblocks, NBLOCKS);
    let fs = FileSystem::mountfs(dev).unwrap();
    assert_eq!(fs.superblock, SUPERBLOCK_GOOD);
    let stored = fs.sup_get().unwrap();
    assert_eq!(stored, SUPERBLOCK_GOOD);
}

#[test]
fn mkfs_rejects_invalid_superblock() {
    assert_eq!(
        blockfs::fs::mkfs(&SUPERBLOCK_OVERSIZED).unwrap_err(),
        blockfs::errors::FileSystemError::InvalidSuperBlock
    );
}

#[test]
fn mount_rejects_mismatched_geometry() {
    // A blank device holds no valid superblock at all.
    let dev = blockfs::device::Device::new(BLOCK_SIZE, NBLOCKS);
    assert_eq!(
        FileSystem::mountfs(dev).unwrap_err(),
        blockfs::errors::FileSystemError::InvalidSuperBlock
    );
}

#[test]
fn sup_put_rewrites_superblock() {
    let mut fs = blockfs::fs::mkfs(&SUPERBLOCK_GOOD).unwrap();
    let mut sb2 = SUPERBLOCK_GOOD;
    sb2.ninodes = 8;
    fs.sup_put(&sb2).unwrap();
    assert_eq!(fs.sup_get().unwrap(), sb2);
    // A superblock of another geometry is rejected, never coerced.
    let mut sb3 = SUPERBLOCK_GOOD;
    sb3.nblocks = 20;
    assert_eq!(
        fs.sup_put(&sb3).unwrap_err(),
        blockfs::errors::FileSystemError::InvalidSuperBlock
    );
}

#[test]
fn error_messages() {
    assert_eq!(
        blockfs::errors::FileSystemError::InvalidSuperBlock.message(),
        "Invalid superblock"
    );
    assert_eq!(
        blockfs::errors::FileSystemError::DirectoryNotFound.message(),
        "Directory not found in the filesystem"
    );
    assert_eq!(
        blockfs::errors::FileSystemError::AllreadyFreeError.message(),
        "Cannot free the block at the requested index, it is already free"
    );
}
