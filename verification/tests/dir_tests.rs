use blockfs::errors::FileSystemError;
use blockfs::fs::FileSystem;
use blockfs::layout::SuperBlock;
use blockfs::records::FType;

static SB: SuperBlock = SuperBlock {
    block_size: 1000,
    nblocks: 10,
    ninodes: 8,
    inodestart: 1,
    ndatablocks: 5,
    bmapstart: 4,
    datastart: 5,
};

// A geometry with only five directory entries per block, so directory growth
// is easy to trigger: block_size 120 holds 5 entries of 22 bytes.
static SMALL: SuperBlock = SuperBlock {
    block_size: 120,
    nblocks: 12,
    ninodes: 4,
    inodestart: 1,
    ndatablocks: 5,
    bmapstart: 5,
    datastart: 6,
};

#[test]
fn unit_test() {
    let _myfs = blockfs::fs::mkfs(&SB).unwrap();

    let name1 = "test.:d"; // ':' may not appear in a name
    assert!(FileSystem::new_de(0, name1).is_none());

    let name2 = "tes.t.";
    let de = FileSystem::new_de(0, name2).unwrap();
    assert_eq!("tes.t.", FileSystem::get_name_str(&de));
}

#[test]
fn name_validation() {
    assert!(blockfs::dirs::is_valid_dirname("abc.XYZ.019"));
    assert!(!blockfs::dirs::is_valid_dirname("a b"));
    assert!(!blockfs::dirs::is_valid_dirname("a/b"));
    // The empty name has no invalid character, but it is still not a name.
    assert!(FileSystem::new_de(1, "").is_none());
    // Fourteen characters fit the buffer exactly; fifteen do not.
    assert!(FileSystem::new_de(1, "abcdefghijklmn").is_some());
    assert!(FileSystem::new_de(1, "abcdefghijklmno").is_none());
    let de = FileSystem::new_de(1, "abcdefghijklmn").unwrap();
    assert_eq!("abcdefghijklmn", FileSystem::get_name_str(&de));
    assert!(matches!(
        blockfs::dirs::to_char_array("no:good"),
        Err(FileSystemError::InvalidDirname)
    ));
}

#[test]
fn link_then_lookup() {
    let mut fs = blockfs::fs::mkfs(&SB).unwrap();
    let target = fs.i_alloc(FType::TFile).unwrap();
    let mut root = fs.i_get(1).unwrap();

    let off = fs.dirlink(&mut root, "hello", target).unwrap();
    assert_eq!(off, 0);

    let root_handle = fs.i_get(1).unwrap();
    let (found, foff) = fs.dirlookup(&root_handle, "hello").unwrap();
    assert_eq!(found.inum, target);
    assert_eq!(foff, off);
    // Each link raises the target's link count by exactly one.
    assert_eq!(fs.i_get(target).unwrap().disk_node.nlink, 1);

    let off2 = fs.dirlink(&mut root, "world", target).unwrap();
    assert_eq!(off2, 22);
    assert_eq!(fs.i_get(target).unwrap().disk_node.nlink, 2);
    let (found2, foff2) = fs.dirlookup(&root_handle, "world").unwrap();
    assert_eq!(found2.inum, target);
    assert_eq!(foff2, off2);

    // A name never linked is not found.
    assert_eq!(
        fs.dirlookup(&root_handle, "missing").unwrap_err(),
        FileSystemError::DirectoryNotFound
    );

    // Both links fit in the directory's single data block: the second link
    // reused a slot and allocated nothing.
    assert_eq!(fs.b_alloc().unwrap(), 1);
}

#[test]
fn lookup_errors() {
    let mut fs = blockfs::fs::mkfs(&SB).unwrap();
    let root = fs.i_get(1).unwrap();
    assert_eq!(
        fs.dirlookup(&root, "bad name").unwrap_err(),
        FileSystemError::InvalidDirname
    );
    let file = fs.i_alloc(FType::TFile).unwrap();
    let file_handle = fs.i_get(file).unwrap();
    assert_eq!(
        fs.dirlookup(&file_handle, "hello").unwrap_err(),
        FileSystemError::INodeNotADirectory
    );
    let mut root2 = fs.i_get(1).unwrap();
    assert_eq!(
        fs.dirlink(&mut root2, "bad name", file).unwrap_err(),
        FileSystemError::InvalidDirname
    );
    // Linking to a free inode is rejected.
    assert_eq!(
        fs.dirlink(&mut root2, "hello", 5).unwrap_err(),
        FileSystemError::INodeNotADirectory
    );
    // Linking to an inode number outside the table is an index error.
    assert_eq!(
        fs.dirlink(&mut root2, "hello", 99).unwrap_err(),
        FileSystemError::IndexOutOfBounds
    );
}

#[test]
fn directory_growth() {
    let mut fs = blockfs::fs::mkfs(&SMALL).unwrap();
    let target = fs.i_alloc(FType::TFile).unwrap();
    let mut root = fs.i_get(1).unwrap();
    // Five entries fill the first block; the sixth needs a second one.
    let names = ["n0", "n1", "n2", "n3", "n4", "n5", "n6"];
    let mut offs: Vec<u64> = Vec::new();
    for name in names.iter() {
        offs.push(fs.dirlink(&mut root, name, target).unwrap());
    }
    assert_eq!(offs, vec![0, 22, 44, 66, 88, 120, 142]);
    assert_eq!(fs.i_get(1).unwrap().get_size(), 7 * 22);
    let root_handle = fs.i_get(1).unwrap();
    for (k, name) in names.iter().enumerate() {
        let (found, foff) = fs.dirlookup(&root_handle, name).unwrap();
        assert_eq!(found.inum, target);
        assert_eq!(foff, offs[k]);
    }
    assert_eq!(fs.i_get(target).unwrap().disk_node.nlink, 7);
    // Exactly one data block was added for the growth: two are in use now.
    assert_eq!(fs.b_alloc().unwrap(), 2);
}

#[test]
fn get_direntries_enumerates_slots() {
    let mut fs = blockfs::fs::mkfs(&SMALL).unwrap();
    let target = fs.i_alloc(FType::TFile).unwrap();
    let mut root = fs.i_get(1).unwrap();
    fs.dirlink(&mut root, "one", target).unwrap();
    let root_handle = fs.i_get(1).unwrap();
    let entries = blockfs::dirs::get_direntries(&fs, &root_handle).unwrap();
    // One populated block of five slots; the first holds the entry.
    assert_eq!(entries.len(), 5);
    assert_eq!(entries[0].0.inum, target);
    assert_eq!(entries[0].1, 0);
    assert_eq!(entries[1].0.inum, 0);
    assert_eq!(entries[1].1, 22);
}
