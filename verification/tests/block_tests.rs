use blockfs::device::Block;
use blockfs::errors::FileSystemError;
use blockfs::layout::SuperBlock;

static BLOCK_SIZE: u64 = 1000;
static NBLOCKS: u64 = 10;

static SUPERBLOCK_GOOD: SuperBlock = SuperBlock {
    block_size: BLOCK_SIZE,
    nblocks: NBLOCKS,
    ninodes: 6,
    inodestart: 1,
    ndatablocks: 4,
    bmapstart: 5,
    datastart: 6,
};

fn zero_block(i: u64) -> Block {
    Block::new_zero(i, BLOCK_SIZE)
}

fn n_block(i: u64, fill: u8) -> Block {
    Block::new(i, vec![fill; BLOCK_SIZE as usize])
}

#[test]
fn complex_test() {
    let mut my_fs = blockfs::fs::mkfs(&SUPERBLOCK_GOOD).unwrap();

    // Every block of a fresh volume is zero-filled, except block 0 (the
    // superblock record) and block 1 (the root directory's inode record).
    for i in 2..NBLOCKS {
        assert_eq!(my_fs.b_get(i).unwrap().data, zero_block(i).data);
    }
    let inode_block = my_fs.b_get(1).unwrap();
    let mut expected = zero_block(1).data;
    // Inode 1 sits 120 bytes into the inode region; its type tag reads 1,
    // the directory tag, and everything else of the region is zero.
    expected[120] = 1;
    assert_eq!(inode_block.data, expected);

    let nb = n_block(5, 6);
    my_fs.b_put(&nb).unwrap();
    let b = my_fs.b_get(5).unwrap();
    assert_eq!(b.block_no, 5);
    assert_eq!(b.data, nb.data);

    let nb_bis = n_block(6, 6);
    my_fs.b_put(&nb_bis).unwrap();
    // Zeroing data index 1 rewrites absolute block 7, not block 6.
    my_fs.b_zero(1).unwrap();
    assert_eq!(my_fs.b_get(6).unwrap().data, nb_bis.data);
    assert_eq!(my_fs.b_get(7).unwrap().data, zero_block(7).data);

    // Data index 5 lies outside the four data blocks.
    assert!(my_fs.b_zero(5).is_err());

    let dev = my_fs.unmountfs();
    assert_eq!(dev.nblocks, NBLOCKS);
}

static SCENARIO: SuperBlock = SuperBlock {
    block_size: 1000,
    nblocks: 10,
    ninodes: 8,
    inodestart: 1,
    ndatablocks: 4,
    bmapstart: 2,
    datastart: 3,
};

#[test]
fn alloc_free_scenario() {
    let mut fs = blockfs::fs::mkfs(&SCENARIO).unwrap();
    // The first allocation takes the lowest index.
    assert_eq!(fs.b_alloc().unwrap(), 0);
    // Freeing it makes it the next pick again.
    fs.b_free(0).unwrap();
    assert_eq!(fs.b_alloc().unwrap(), 0);
    // Allocation hands out distinct indices until every block is taken.
    assert_eq!(fs.b_alloc().unwrap(), 1);
    assert_eq!(fs.b_alloc().unwrap(), 2);
    assert_eq!(fs.b_alloc().unwrap(), 3);
    // The fifth allocation finds nothing.
    assert_eq!(fs.b_alloc().unwrap_err(), FileSystemError::AllocationError);
}

#[test]
fn free_errors() {
    let mut fs = blockfs::fs::mkfs(&SCENARIO).unwrap();
    // Freeing an unallocated block is rejected, never ignored.
    assert_eq!(fs.b_free(0).unwrap_err(), FileSystemError::AllreadyFreeError);
    let i = fs.b_alloc().unwrap();
    fs.b_free(i).unwrap();
    assert_eq!(fs.b_free(i).unwrap_err(), FileSystemError::AllreadyFreeError);
    // Freeing an index outside the data region is an index error.
    assert_eq!(fs.b_free(4).unwrap_err(), FileSystemError::IndexOutOfBounds);
}

#[test]
fn alloc_zeroes_the_block() {
    let mut fs = blockfs::fs::mkfs(&SCENARIO).unwrap();
    let i = fs.b_alloc().unwrap();
    let junk = n_block(SCENARIO.datastart + i, 0xAB);
    fs.b_put(&junk).unwrap();
    fs.b_free(i).unwrap();
    // Re-allocating the block hands it back zero-filled.
    let j = fs.b_alloc().unwrap();
    assert_eq!(j, i);
    assert_eq!(fs.b_get(SCENARIO.datastart + j).unwrap().data, vec![0u8; 1000]);
}

#[test]
fn bytesarray_free_index() {
    let all_set = [0xFFu8; 4];
    assert_eq!(
        blockfs::blocks::get_bytesarray_free_index(&all_set).unwrap_err(),
        FileSystemError::AllocationError
    );
    let one_free = [0xFFu8, 0xFF, 0x7F, 0xFF];
    assert_eq!(blockfs::blocks::get_bytesarray_free_index(&one_free).unwrap(), 2);
    let empty: [u8; 0] = [];
    assert!(blockfs::blocks::get_bytesarray_free_index(&empty).is_err());
}

#[test]
fn bit_byte_blockindex() {
    // Data index 13 sits at bit 5 of byte 1 of the first bitmap block.
    let sb = SuperBlock {
        block_size: 1000,
        nblocks: 100,
        ninodes: 8,
        inodestart: 1,
        ndatablocks: 50,
        bmapstart: 2,
        datastart: 3,
    };
    let (bit, byte, blk) = blockfs::blocks::get_bit_byte_blockindex(&sb, 13).unwrap();
    assert_eq!(bit, 5);
    assert_eq!(byte, 1);
    assert_eq!(blk, 2);
    assert!(blockfs::blocks::get_bit_byte_blockindex(&sb, 50).is_err());
}
