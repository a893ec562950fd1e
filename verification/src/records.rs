//! The fixed-layout on-disk records: inode records, directory entries, and
//! the encoded superblock.  Each record type has a byte-exact binary codec
//! with a proved round trip.

use crate::byteops::{
    lemma_words_enc_len, lemma_words_word_at, read_u64_at, spec_u64_at, words_enc,
};
use crate::layout::{SuperBlock, DINODE_SIZE, DIRECT_POINTERS, DIRENTRY_SIZE, DIRNAME_SIZE,
    SUPERBLOCK_SIZE};
use vstd::bytes::{spec_u64_from_le_bytes, spec_u64_to_le_bytes, u64_from_le_bytes};
use vstd::prelude::*;
use vstd::slice::{slice_subrange, slice_to_vec};

verus! {

/// The type tag of an inode record.
#[derive(Clone, Copy, Debug, PartialEq, Eq, Structural)]
pub enum FType {
    /// The record is unused and may be handed out by inode allocation.
    TFree,
    /// The inode is a directory.
    TDir,
    /// The inode is a regular file.
    TFile,
}

/// The numeric tag an inode type is stored as on disk.
pub open spec fn ft_to_u64(ft: FType) -> u64 {
    match ft {
        FType::TFree => 0,
        FType::TDir => 1,
        FType::TFile => 2,
    }
}

/// The inode type a stored numeric tag decodes to; unknown tags read as free.
pub open spec fn ft_from_u64(x: u64) -> FType {
    if x == 1 {
        FType::TDir
    } else if x == 2 {
        FType::TFile
    } else {
        FType::TFree
    }
}

/// Executable counterpart of [`ft_to_u64`].
pub fn ft_code(ft: FType) -> (x: u64)
    ensures
        x == ft_to_u64(ft),
{
    match ft {
        FType::TFree => 0,
        FType::TDir => 1,
        FType::TFile => 2,
    }
}

/// Executable counterpart of [`ft_from_u64`].
pub fn ft_decode(x: u64) -> (ft: FType)
    ensures
        ft == ft_from_u64(x),
{
    if x == 1 {
        FType::TDir
    } else if x == 2 {
        FType::TFile
    } else {
        FType::TFree
    }
}

/// The mathematical value of one inode record.
#[verifier::ext_equal]
pub struct DInodeView {
    /// The inode's type tag.
    pub ft: FType,
    /// How many directory entries refer to this inode.
    pub nlink: u64,
    /// The byte size of the inode's data.
    pub size: u64,
    /// The twelve direct block pointers; 0 marks an unused slot.
    pub direct_blocks: Seq<u64>,
}

/// One inode record as held in memory.
#[derive(Debug)]
pub struct DInode {
    /// The inode's type tag.
    pub ft: FType,
    /// How many directory entries refer to this inode.
    pub nlink: u64,
    /// The byte size of the inode's data.
    pub size: u64,
    /// The twelve direct block pointers; 0 marks an unused slot.
    pub direct_blocks: Vec<u64>,
}

impl View for DInode {
    type V = DInodeView;

    open spec fn view(&self) -> DInodeView {
        DInodeView {
            ft: self.ft,
            nlink: self.nlink,
            size: self.size,
            direct_blocks: self.direct_blocks@,
        }
    }
}

impl DInode {
    /// A record is well formed when it carries exactly the fixed number of
    /// direct pointer slots.
    pub open spec fn wf(&self) -> bool {
        self.direct_blocks@.len() == DIRECT_POINTERS
    }
}

/// The record of an inode that holds no data: zero links, zero size, and
/// every pointer slot unused.
pub open spec fn spec_blank_dinode(ft: FType) -> DInodeView {
    DInodeView {
        ft,
        nlink: 0,
        size: 0,
        direct_blocks: Seq::new(DIRECT_POINTERS as nat, |_k: int| 0u64),
    }
}

/// Builds the blank record of the given type.
pub fn blank_dinode(ft: FType) -> (d: DInode)
    ensures
        d@ == spec_blank_dinode(ft),
        d.wf(),
{
    let direct_blocks: Vec<u64> = vec![0u64; DIRECT_POINTERS as usize];
    proof {
        assert(direct_blocks@ =~= spec_blank_dinode(ft).direct_blocks);
    }
    DInode { ft, nlink: 0, size: 0, direct_blocks }
}

/// A word read out of an all-zero byte range decodes to 0.
pub proof fn lemma_zero_word(z: Seq<u8>, off: int)
    requires
        0 <= off,
        off + 8 <= z.len(),
        forall|j: int| off <= j < off + 8 ==> z[j] == 0,
    ensures
        spec_u64_at(z, off) == 0,
{
    vstd::bytes::lemma_auto_spec_u64_to_from_le_bytes();
    let w = z.subrange(off, off + 8);
    let x = spec_u64_from_le_bytes(w);
    assert(spec_u64_to_le_bytes(x) == w);
    vstd::bytes::spec_u64_to_le_bytes_to_open(x);
    let o = vstd::bytes::spec_u64_to_le_bytes_open(x);
    assert(o[0] == 0u8 && o[1] == 0u8 && o[2] == 0u8 && o[3] == 0u8 && o[4] == 0u8 && o[5] == 0u8
        && o[6] == 0u8 && o[7] == 0u8);
    assert(x == 0) by (bit_vector)
        requires
            (x & 0xff) as u8 == 0u8,
            ((x >> 8) & 0xff) as u8 == 0u8,
            ((x >> 16) & 0xff) as u8 == 0u8,
            ((x >> 24) & 0xff) as u8 == 0u8,
            ((x >> 32) & 0xff) as u8 == 0u8,
            ((x >> 40) & 0xff) as u8 == 0u8,
            ((x >> 48) & 0xff) as u8 == 0u8,
            ((x >> 56) & 0xff) as u8 == 0u8,
    ;
}

/// An all-zero 120-byte buffer decodes to the blank free inode record.
pub proof fn lemma_dinode_dec_zero(z: Seq<u8>)
    requires
        z.len() == DINODE_SIZE,
        forall|j: int| 0 <= j < DINODE_SIZE ==> z[j] == 0,
    ensures
        spec_dinode_dec(z) == spec_blank_dinode(FType::TFree),
{
    assert forall|off: int| 0 <= off && off + 8 <= DINODE_SIZE implies #[trigger] spec_u64_at(
        z,
        off,
    ) == 0 by {
        lemma_zero_word(z, off);
    }
    assert(spec_u64_at(z, 0) == 0);
    assert(spec_u64_at(z, 8) == 0);
    assert(spec_u64_at(z, 16) == 0);
    assert forall|k: int| 0 <= k < DIRECT_POINTERS implies #[trigger] spec_u64_at(z, 24 + 8 * k)
        == 0 by {
        assert(0 <= 24 + 8 * k && 24 + 8 * k + 8 <= DINODE_SIZE);
    }
    assert(spec_dinode_dec(z) =~= spec_blank_dinode(FType::TFree));
}

/// An in-memory inode handle: the inode number together with a cached copy
/// of the on-disk record.  Mutations of the copy are local until the handle
/// is written back.
#[derive(Debug)]
pub struct Inode {
    /// The inode number the record belongs to.
    pub inum: u64,
    /// The cached record.
    pub disk_node: DInode,
}

impl Inode {
    /// A handle for inode `inum` holding the given record copy.
    pub fn new(inum: u64, disk_node: DInode) -> (ino: Inode)
        ensures
            ino.inum == inum,
            ino.disk_node@ == disk_node@,
    {
        Inode { inum, disk_node }
    }

    /// The inode's type tag.
    pub fn get_ft(&self) -> (ft: FType)
        ensures
            ft == self.disk_node@.ft,
    {
        self.disk_node.ft
    }

    /// The byte size of the inode's data.
    pub fn get_size(&self) -> (n: u64)
        ensures
            n == self.disk_node@.size,
    {
        self.disk_node.size
    }
}

/// The inode record as a sequence of fifteen 64-bit words.
pub open spec fn dinode_words(d: DInodeView) -> Seq<u64> {
    seq![ft_to_u64(d.ft), d.nlink, d.size] + d.direct_blocks
}

/// The 120-byte encoding of one inode record.
pub open spec fn spec_dinode_enc(d: DInodeView) -> Seq<u8> {
    words_enc(dinode_words(d))
}

/// The inode record stored in a 120-byte buffer.
pub open spec fn spec_dinode_dec(b: Seq<u8>) -> DInodeView {
    DInodeView {
        ft: ft_from_u64(spec_u64_at(b, 0)),
        nlink: spec_u64_at(b, 8),
        size: spec_u64_at(b, 16),
        direct_blocks: Seq::new(DIRECT_POINTERS as nat, |k: int| spec_u64_at(b, 24 + 8 * k)),
    }
}

/// The encoding of an inode record is exactly [`DINODE_SIZE`] bytes long.
pub proof fn lemma_dinode_enc_len(d: DInodeView)
    requires
        d.direct_blocks.len() == DIRECT_POINTERS,
    ensures
        spec_dinode_enc(d).len() == DINODE_SIZE,
{
    lemma_words_enc_len(dinode_words(d));
}

/// Decoding an encoded inode record (with any trailing bytes) gives the
/// record back.
pub proof fn lemma_dinode_roundtrip(d: DInodeView, pad: Seq<u8>)
    requires
        d.direct_blocks.len() == DIRECT_POINTERS,
    ensures
        spec_dinode_dec(spec_dinode_enc(d) + pad) == d,
{
    let ws = dinode_words(d);
    let b = words_enc(ws) + pad;
    lemma_words_enc_len(ws);
    lemma_words_word_at(ws, pad, 0);
    lemma_words_word_at(ws, pad, 1);
    lemma_words_word_at(ws, pad, 2);
    assert forall|k: int| 0 <= k < DIRECT_POINTERS implies spec_u64_at(b, 24 + 8 * k)
        == d.direct_blocks[k] by {
        lemma_words_word_at(ws, pad, 3 + k);
        assert(8 * (3 + k) == 24 + 8 * k);
        assert(ws[3 + k] == d.direct_blocks[k]);
    }
    assert(spec_dinode_dec(b).direct_blocks =~= d.direct_blocks);
    assert(spec_dinode_dec(b) =~= d);
}

/// Encodes an inode record into its 120-byte form.
pub fn encode_dinode(d: &DInode) -> (v: Vec<u8>)
    requires
        d.wf(),
    ensures
        v@ == spec_dinode_enc(d@),
        v@.len() == DINODE_SIZE,
{
    let mut words: Vec<u64> = Vec::new();
    words.push(ft_code(d.ft));
    words.push(d.nlink);
    words.push(d.size);
    let mut k: usize = 0;
    while k < DIRECT_POINTERS as usize
        invariant
            d.wf(),
            k <= DIRECT_POINTERS,
            words@.len() == 3 + k,
            words@ =~= dinode_words(d@).take(3 + k as int),
        decreases DIRECT_POINTERS as usize - k,
    {
        words.push(d.direct_blocks[k]);
        proof {
            assert(words@ =~= dinode_words(d@).take(3 + k as int + 1));
        }
        k += 1;
    }
    proof {
        assert(words@ =~= dinode_words(d@));
        lemma_dinode_enc_len(d@);
    }
    crate::byteops::encode_words(&words)
}

/// Decodes the inode record stored at byte offset `off` of `b`.
pub fn decode_dinode(b: &[u8], off: usize) -> (d: DInode)
    requires
        off + DINODE_SIZE <= b@.len(),
    ensures
        d@ == spec_dinode_dec(b@.subrange(off as int, off as int + DINODE_SIZE as int)),
        d.wf(),
{
    let ghost sub = b@.subrange(off as int, off as int + DINODE_SIZE as int);
    let _len = b.len();
    let ft_word = read_u64_at(b, off);
    let nlink = read_u64_at(b, off + 8);
    let size = read_u64_at(b, off + 16);
    proof {
        assert(sub.subrange(0, 8) =~= b@.subrange(off as int, off as int + 8));
        assert(sub.subrange(8, 16) =~= b@.subrange(off as int + 8, off as int + 16));
        assert(sub.subrange(16, 24) =~= b@.subrange(off as int + 16, off as int + 24));
    }
    let mut direct_blocks: Vec<u64> = Vec::new();
    let mut k: usize = 0;
    while k < DIRECT_POINTERS as usize
        invariant
            off + DINODE_SIZE <= b@.len(),
            _len == b@.len(),
            sub == b@.subrange(off as int, off as int + DINODE_SIZE as int),
            k <= DIRECT_POINTERS,
            direct_blocks@.len() == k,
            forall|j: int| 0 <= j < k ==> direct_blocks@[j] == spec_u64_at(sub, 24 + 8 * j),
        decreases DIRECT_POINTERS as usize - k,
    {
        let w = read_u64_at(b, off + 24 + 8 * k);
        proof {
            assert(sub.subrange(24 + 8 * (k as int), 24 + 8 * (k as int) + 8) =~= b@.subrange(
                off as int + 24 + 8 * (k as int),
                off as int + 24 + 8 * (k as int) + 8,
            ));
        }
        direct_blocks.push(w);
        k += 1;
    }
    let d = DInode { ft: ft_decode(ft_word), nlink, size, direct_blocks };
    proof {
        assert(d@.direct_blocks =~= spec_dinode_dec(sub).direct_blocks);
        assert(d@ =~= spec_dinode_dec(sub));
    }
    d
}

/// The superblock as a sequence of seven 64-bit words.
pub open spec fn sb_words(sb: SuperBlock) -> Seq<u64> {
    seq![
        sb.block_size,
        sb.nblocks,
        sb.ninodes,
        sb.inodestart,
        sb.ndatablocks,
        sb.bmapstart,
        sb.datastart,
    ]
}

/// The 56-byte encoding of the superblock.
pub open spec fn spec_sb_enc(sb: SuperBlock) -> Seq<u8> {
    words_enc(sb_words(sb))
}

/// The superblock stored at the start of a byte sequence.
pub open spec fn spec_sb_dec(b: Seq<u8>) -> SuperBlock {
    SuperBlock {
        block_size: spec_u64_at(b, 0),
        nblocks: spec_u64_at(b, 8),
        ninodes: spec_u64_at(b, 16),
        inodestart: spec_u64_at(b, 24),
        ndatablocks: spec_u64_at(b, 32),
        bmapstart: spec_u64_at(b, 40),
        datastart: spec_u64_at(b, 48),
    }
}

/// The encoding of the superblock is exactly [`SUPERBLOCK_SIZE`] bytes long.
pub proof fn lemma_sb_enc_len(sb: SuperBlock)
    ensures
        spec_sb_enc(sb).len() == SUPERBLOCK_SIZE,
{
    lemma_words_enc_len(sb_words(sb));
}

/// Decoding an encoded superblock (with any trailing bytes) gives the
/// superblock back.
pub proof fn lemma_sb_roundtrip(sb: SuperBlock, pad: Seq<u8>)
    ensures
        spec_sb_dec(spec_sb_enc(sb) + pad) == sb,
{
    let ws = sb_words(sb);
    lemma_words_enc_len(ws);
    lemma_words_word_at(ws, pad, 0);
    lemma_words_word_at(ws, pad, 1);
    lemma_words_word_at(ws, pad, 2);
    lemma_words_word_at(ws, pad, 3);
    lemma_words_word_at(ws, pad, 4);
    lemma_words_word_at(ws, pad, 5);
    lemma_words_word_at(ws, pad, 6);
}

/// Encodes the superblock into its 56-byte form.
pub fn encode_sb(sb: &SuperBlock) -> (v: Vec<u8>)
    ensures
        v@ == spec_sb_enc(*sb),
        v@.len() == SUPERBLOCK_SIZE,
{
    let mut words: Vec<u64> = Vec::new();
    words.push(sb.block_size);
    words.push(sb.nblocks);
    words.push(sb.ninodes);
    words.push(sb.inodestart);
    words.push(sb.ndatablocks);
    words.push(sb.bmapstart);
    words.push(sb.datastart);
    proof {
        assert(words@ =~= sb_words(*sb));
        lemma_sb_enc_len(*sb);
    }
    crate::byteops::encode_words(&words)
}

/// Decodes the superblock stored at the start of `b`.
pub fn decode_sb(b: &[u8]) -> (sb: SuperBlock)
    requires
        SUPERBLOCK_SIZE <= b@.len(),
    ensures
        sb == spec_sb_dec(b@),
{
    SuperBlock {
        block_size: read_u64_at(b, 0),
        nblocks: read_u64_at(b, 8),
        ninodes: read_u64_at(b, 16),
        inodestart: read_u64_at(b, 24),
        ndatablocks: read_u64_at(b, 32),
        bmapstart: read_u64_at(b, 40),
        datastart: read_u64_at(b, 48),
    }
}

/// The mathematical value of one directory entry: the target inode number
/// and the fixed-length, zero-padded name buffer.
#[verifier::ext_equal]
pub struct DirEntryView {
    /// The inode the entry points at; 0 marks an unused slot.
    pub inum: u64,
    /// The zero-padded name buffer, always [`DIRNAME_SIZE`] bytes.
    pub name: Seq<u8>,
}

/// One directory entry as held in memory.
#[derive(Debug)]
pub struct DirEntry {
    /// The inode the entry points at; 0 marks an unused slot.
    pub inum: u64,
    /// The zero-padded name buffer, always [`DIRNAME_SIZE`] bytes.
    pub name: Vec<u8>,
}

impl View for DirEntry {
    type V = DirEntryView;

    open spec fn view(&self) -> DirEntryView {
        DirEntryView { inum: self.inum, name: self.name@ }
    }
}

impl DirEntry {
    /// An entry is well formed when its name buffer has the fixed length.
    pub open spec fn wf(&self) -> bool {
        self.name@.len() == DIRNAME_SIZE
    }
}

impl Default for DirEntry {
    /// The unused entry: inode number 0 and an all-zero name buffer.
    fn default() -> (d: DirEntry)
        ensures
            d@.inum == 0,
            d@.name == crate::device::zero_bytes(DIRNAME_SIZE as int),
            d.wf(),
    {
        let name: Vec<u8> = vec![0u8; DIRNAME_SIZE as usize];
        proof {
            assert(name@ =~= crate::device::zero_bytes(DIRNAME_SIZE as int));
        }
        DirEntry { inum: 0, name }
    }
}

/// The 22-byte encoding of one directory entry.
pub open spec fn spec_de_enc(de: DirEntryView) -> Seq<u8> {
    spec_u64_to_le_bytes(de.inum) + de.name
}

/// The directory entry stored in a 22-byte buffer.
pub open spec fn spec_de_dec(b: Seq<u8>) -> DirEntryView {
    DirEntryView { inum: spec_u64_at(b, 0), name: b.subrange(8, DIRENTRY_SIZE as int) }
}

/// Decoding an encoded directory entry gives the entry back.
pub proof fn lemma_de_roundtrip(de: DirEntryView)
    requires
        de.name.len() == DIRNAME_SIZE,
    ensures
        spec_de_dec(spec_de_enc(de)) == de,
        spec_de_enc(de).len() == DIRENTRY_SIZE,
{
    vstd::bytes::lemma_auto_spec_u64_to_from_le_bytes();
    let b = spec_de_enc(de);
    assert(b.subrange(0, 8) =~= spec_u64_to_le_bytes(de.inum));
    assert(b.subrange(8, DIRENTRY_SIZE as int) =~= de.name);
    assert(spec_de_dec(b) =~= de);
}

/// Encodes a directory entry into its 22-byte form.
pub fn encode_de(de: &DirEntry) -> (v: Vec<u8>)
    requires
        de.wf(),
    ensures
        v@ == spec_de_enc(de@),
        v@.len() == DIRENTRY_SIZE,
{
    let mut v = vstd::bytes::u64_to_le_bytes(de.inum);
    let mut k: usize = 0;
    while k < DIRNAME_SIZE as usize
        invariant
            de.wf(),
            k <= DIRNAME_SIZE,
            v@ =~= spec_u64_to_le_bytes(de@.inum) + de@.name.take(k as int),
        decreases DIRNAME_SIZE as usize - k,
    {
        v.push(de.name[k]);
        proof {
            assert(v@ =~= spec_u64_to_le_bytes(de@.inum) + de@.name.take(k as int + 1));
        }
        k += 1;
    }
    proof {
        vstd::bytes::lemma_auto_spec_u64_to_from_le_bytes();
        assert(de@.name.take(DIRNAME_SIZE as int) =~= de@.name);
    }
    v
}

/// Decodes the directory entry stored at byte offset `off` of `b`.
pub fn decode_de(b: &[u8], off: usize) -> (de: DirEntry)
    requires
        off + DIRENTRY_SIZE <= b@.len(),
    ensures
        de@ == spec_de_dec(b@.subrange(off as int, off as int + DIRENTRY_SIZE as int)),
        de.wf(),
{
    let ghost sub = b@.subrange(off as int, off as int + DIRENTRY_SIZE as int);
    let _len = b.len();
    let inum = read_u64_at(b, off);
    let name = slice_to_vec(slice_subrange(b, off + 8, off + DIRENTRY_SIZE as usize));
    proof {
        assert(sub.subrange(0, 8) =~= b@.subrange(off as int, off as int + 8));
        assert(sub.subrange(8, DIRENTRY_SIZE as int) =~= b@.subrange(
            off as int + 8,
            off as int + DIRENTRY_SIZE as int,
        ));
        let de = DirEntryView { inum: spec_u64_at(b@.subrange(off as int, off as int + DIRENTRY_SIZE as int), 0), name: sub.subrange(8, DIRENTRY_SIZE as int) };
        assert(spec_de_dec(sub) =~= de);
    }
    DirEntry { inum, name }
}

} // verus!
