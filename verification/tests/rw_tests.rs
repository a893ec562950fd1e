use blockfs::errors::FileSystemError;
use blockfs::layout::SuperBlock;
use blockfs::records::FType;

// Five data blocks of 120 bytes each, so multi-block writes are cheap to set
// up: a write of 200 bytes spans two blocks.
static SB: SuperBlock = SuperBlock {
    block_size: 120,
    nblocks: 12,
    ninodes: 4,
    inodestart: 1,
    ndatablocks: 5,
    bmapstart: 5,
    datastart: 6,
};

#[test]
fn write_then_read_roundtrip() {
    let mut fs = blockfs::fs::mkfs(&SB).unwrap();
    let i = fs.i_alloc(FType::TFile).unwrap();
    let mut ino = fs.i_get(i).unwrap();

    let payload: Vec<u8> = (0..100u64).map(|x| (x * 3 % 251) as u8).collect();
    fs.i_write(&mut ino, &payload, 0, 100).unwrap();
    assert_eq!(ino.get_size(), 100);

    let mut buf = vec![0u8; 100];
    let got = fs.i_read(&ino, &mut buf, 0, 100).unwrap();
    assert_eq!(got, 100);
    assert_eq!(buf, payload);
}

#[test]
fn write_across_block_boundary() {
    let mut fs = blockfs::fs::mkfs(&SB).unwrap();
    let i = fs.i_alloc(FType::TFile).unwrap();
    let mut ino = fs.i_get(i).unwrap();

    let payload: Vec<u8> = (0..200u64).map(|x| (x % 251) as u8).collect();
    fs.i_write(&mut ino, &payload, 0, 200).unwrap();
    assert_eq!(ino.get_size(), 200);

    // Exactly two data blocks were allocated: the next allocation yields
    // index 2, never over-allocating.
    assert_eq!(fs.b_alloc().unwrap(), 2);
    fs.b_free(2).unwrap();

    let mut buf = vec![0u8; 200];
    assert_eq!(fs.i_read(&ino, &mut buf, 0, 200).unwrap(), 200);
    assert_eq!(buf, payload);

    // Overwrite a range spanning the block boundary and read it back.
    let patch = vec![0xEEu8; 50];
    fs.i_write(&mut ino, &patch, 100, 50).unwrap();
    assert_eq!(ino.get_size(), 200);
    let mut buf2 = vec![0u8; 200];
    fs.i_read(&ino, &mut buf2, 0, 200).unwrap();
    assert_eq!(&buf2[0..100], &payload[0..100]);
    assert_eq!(&buf2[100..150], &patch[..]);
    assert_eq!(&buf2[150..200], &payload[150..200]);
}

#[test]
fn size_grows_by_exactly_the_needed_amount() {
    let mut fs = blockfs::fs::mkfs(&SB).unwrap();
    let i = fs.i_alloc(FType::TFile).unwrap();
    let mut ino = fs.i_get(i).unwrap();
    let payload = vec![1u8; 30];
    fs.i_write(&mut ino, &payload, 0, 30).unwrap();
    assert_eq!(ino.get_size(), 30);
    // Appending at the end grows the size to exactly offset plus count.
    fs.i_write(&mut ino, &payload, 30, 30).unwrap();
    assert_eq!(ino.get_size(), 60);
    // Overwriting inside the stream does not grow it.
    fs.i_write(&mut ino, &payload, 10, 30).unwrap();
    assert_eq!(ino.get_size(), 60);
    // One block suffices for 60 bytes.
    assert_eq!(fs.b_alloc().unwrap(), 1);
}

#[test]
fn read_and_write_errors() {
    let mut fs = blockfs::fs::mkfs(&SB).unwrap();
    let i = fs.i_alloc(FType::TFile).unwrap();
    let mut ino = fs.i_get(i).unwrap();
    let payload = vec![1u8; 10];

    // An offset past the end of the stream is a range error.
    assert_eq!(
        fs.i_write(&mut ino, &payload, 1, 10).unwrap_err(),
        FileSystemError::RangeError
    );
    // A count past the buffer's end is a range error.
    assert_eq!(
        fs.i_write(&mut ino, &payload, 0, 11).unwrap_err(),
        FileSystemError::RangeError
    );
    // A zero-byte write succeeds and changes nothing.
    fs.i_write(&mut ino, &payload, 0, 0).unwrap();
    assert_eq!(ino.get_size(), 0);

    let mut buf = vec![9u8; 4];
    assert_eq!(
        fs.i_read(&ino, &mut buf, 1, 1).unwrap_err(),
        FileSystemError::RangeError
    );
    // Reading exactly at the end delivers zero bytes, not an error.
    assert_eq!(fs.i_read(&ino, &mut buf, 0, 4).unwrap(), 0);
    assert_eq!(buf, vec![9u8; 4]);

    // A write that would need more pointers than an inode has fails.
    fs.i_write(&mut ino, &vec![2u8; 600], 0, 600).unwrap();
    assert_eq!(
        fs.i_write(&mut ino, &vec![2u8; 1], 600, 1).unwrap_err(),
        FileSystemError::AllocationError
    );
}

#[test]
fn read_clips_to_buffer_and_stream() {
    let mut fs = blockfs::fs::mkfs(&SB).unwrap();
    let i = fs.i_alloc(FType::TFile).unwrap();
    let mut ino = fs.i_get(i).unwrap();
    let payload: Vec<u8> = (0..50u8).collect();
    fs.i_write(&mut ino, &payload, 0, 50).unwrap();

    // A small buffer clips the delivered count.
    let mut small = vec![0u8; 8];
    assert_eq!(fs.i_read(&ino, &mut small, 10, 40).unwrap(), 8);
    assert_eq!(&small[..], &payload[10..18]);

    // The end of the stream clips it as well.
    let mut big = vec![0xAAu8; 64];
    assert_eq!(fs.i_read(&ino, &mut big, 40, 64).unwrap(), 10);
    assert_eq!(&big[0..10], &payload[40..50]);
    assert_eq!(&big[10..], &vec![0xAAu8; 54][..]);
}

// A volume with more data blocks than an inode has pointer slots, so the
// pointer budget is what binds.
static WIDE: SuperBlock = SuperBlock {
    block_size: 120,
    nblocks: 20,
    ninodes: 4,
    inodestart: 1,
    ndatablocks: 13,
    bmapstart: 5,
    datastart: 6,
};

#[test]
fn write_beyond_pointer_budget() {
    let mut fs = blockfs::fs::mkfs(&WIDE).unwrap();
    let i = fs.i_alloc(FType::TFile).unwrap();
    let mut ino = fs.i_get(i).unwrap();
    // Twelve pointers cover 1440 bytes; writing them all succeeds.
    let payload = vec![5u8; 1440];
    fs.i_write(&mut ino, &payload, 0, 1440).unwrap();
    assert_eq!(ino.get_size(), 1440);
    // One more byte would need a thirteenth pointer: the inode is full.
    assert_eq!(
        fs.i_write(&mut ino, &vec![5u8; 1], 1440, 1).unwrap_err(),
        FileSystemError::AllocationError
    );
    // The failed write changed nothing.
    assert_eq!(fs.i_get(i).unwrap().get_size(), 1440);
}
