use blockfs::errors::FileSystemError;
use blockfs::layout::SuperBlock;
use blockfs::records::FType;

static SB: SuperBlock = SuperBlock {
    block_size: 1000,
    nblocks: 10,
    ninodes: 8,
    inodestart: 1,
    ndatablocks: 4,
    bmapstart: 2,
    datastart: 3,
};

#[test]
fn fresh_volume_inodes() {
    let fs = blockfs::fs::mkfs(&SB).unwrap();
    // Inode 1 is the root directory; every other inode is free and blank.
    let root = fs.i_get(1).unwrap();
    assert_eq!(root.get_ft(), FType::TDir);
    assert_eq!(root.disk_node.nlink, 0);
    assert_eq!(root.get_size(), 0);
    for i in [0u64, 2, 3, 4, 5, 6, 7] {
        let ino = fs.i_get(i).unwrap();
        assert_eq!(ino.get_ft(), FType::TFree);
        assert_eq!(ino.disk_node.nlink, 0);
        assert_eq!(ino.get_size(), 0);
    }
    assert_eq!(fs.i_get(8).unwrap_err(), FileSystemError::IndexOutOfBounds);
}

#[test]
fn alloc_free_lifecycle() {
    let mut fs = blockfs::fs::mkfs(&SB).unwrap();
    // Allocation starts at inode 1 and takes the lowest free one; inode 1 is
    // the root directory, so inode 2 comes first.
    let i = fs.i_alloc(FType::TFile).unwrap();
    assert_eq!(i, 2);
    let ino = fs.i_get(i).unwrap();
    // A freshly allocated inode has link count 0 and the requested type.
    assert_eq!(ino.get_ft(), FType::TFile);
    assert_eq!(ino.disk_node.nlink, 0);
    assert_eq!(ino.get_size(), 0);

    // An inode that still has links may not be freed.
    let mut linked = fs.i_get(i).unwrap();
    linked.disk_node.nlink = 1;
    fs.i_put(&linked).unwrap();
    assert_eq!(fs.i_free(i).unwrap_err(), FileSystemError::INodeNotFreeable);
    linked.disk_node.nlink = 0;
    fs.i_put(&linked).unwrap();

    // After freeing, the record reads back free and is re-allocatable.
    fs.i_free(i).unwrap();
    assert_eq!(fs.i_get(i).unwrap().get_ft(), FType::TFree);
    assert_eq!(fs.i_alloc(FType::TDir).unwrap(), i);

    // Inode 0 is never freeable.
    assert_eq!(fs.i_free(0).unwrap_err(), FileSystemError::INodeNotFreeable);
    assert_eq!(fs.i_free(99).unwrap_err(), FileSystemError::IndexOutOfBounds);
}

#[test]
fn trunc_releases_blocks() {
    let mut fs = blockfs::fs::mkfs(&SB).unwrap();
    let i = fs.i_alloc(FType::TFile).unwrap();
    let mut ino = fs.i_get(i).unwrap();
    // Grow the file over three data blocks.
    let payload = vec![7u8; 2500];
    fs.i_write(&mut ino, &payload, 0, 2500).unwrap();
    assert_eq!(fs.b_alloc().unwrap(), 3);
    fs.b_free(3).unwrap();
    // Truncating releases every referenced block back to the allocator.
    fs.i_trunc(&mut ino).unwrap();
    assert_eq!(ino.get_size(), 0);
    assert_eq!(fs.b_alloc().unwrap(), 0);
    assert_eq!(fs.b_alloc().unwrap(), 1);
    assert_eq!(fs.b_alloc().unwrap(), 2);
}

#[test]
fn trunc_rejects_stale_handle() {
    let mut fs = blockfs::fs::mkfs(&SB).unwrap();
    let i = fs.i_alloc(FType::TFile).unwrap();
    let mut stale = fs.i_get(i).unwrap();
    stale.disk_node.size = 999;
    assert_eq!(
        fs.i_trunc(&mut stale).unwrap_err(),
        FileSystemError::INodeNotFoundNotUpToDate
    );
}

#[test]
fn put_get_roundtrip() {
    let mut fs = blockfs::fs::mkfs(&SB).unwrap();
    let mut ino = fs.i_get(5).unwrap();
    ino.disk_node.ft = FType::TFile;
    ino.disk_node.nlink = 3;
    ino.disk_node.size = 0;
    fs.i_put(&ino).unwrap();
    let back = fs.i_get(5).unwrap();
    assert_eq!(back.get_ft(), FType::TFile);
    assert_eq!(back.disk_node.nlink, 3);
    assert_eq!(back.get_size(), 0);
}
