//! The directory layer: fixed-size directory entries stored as inode data,
//! with name encoding and decoding, slot enumeration, lookup, and linking
//! with on-demand growth.

use crate::errors::FileSystemError;
use crate::fs::FileSystem;
use crate::inodes::{inv_inodes, is_data_ptr, spec_nblocks};
use crate::layout::{
    lemma_valid_geometry, spec_sb_valid, SuperBlock, DIRECT_POINTERS, DIRENTRY_SIZE, DIRNAME_SIZE,
};
use crate::model::FsView;
use crate::records::{decode_de, spec_de_dec, DirEntry, DirEntryView, Inode};
use vstd::arithmetic::div_mod::{
    lemma_fundamental_div_mod, lemma_fundamental_div_mod_converse, lemma_mod_bound,
};
use vstd::prelude::*;
use vstd::string::StringSliceAdditionalSpecFns;
use vstd::slice::{slice_subrange, slice_to_vec};

verus! {

/// Whether the byte may appear in a directory name: ASCII letters, digits,
/// and the dot.  Names are byte strings with a byte-exact on-disk layout, so
/// the alphanumeric repertoire is deliberately the ASCII one; a character
/// outside it is rejected at name validation, never stored.
pub open spec fn is_name_byte(b: u8) -> bool {
    ||| 97 <= b <= 122  // 'a' ..= 'z'
    ||| 65 <= b <= 90  // 'A' ..= 'Z'
    ||| 48 <= b <= 57  // '0' ..= '9'
    ||| b == 46  // '.'
}

/// Whether every byte of the sequence may appear in a directory name.
pub open spec fn spec_name_chars_ok(s: Seq<u8>) -> bool {
    forall|i: int| 0 <= i < s.len() ==> is_name_byte(#[trigger] s[i])
}

/// Whether the byte sequence is a valid directory name: between one byte and
/// the fixed buffer length, every byte a name byte.
pub open spec fn spec_valid_name(s: Seq<u8>) -> bool {
    &&& 1 <= s.len() <= DIRNAME_SIZE
    &&& spec_name_chars_ok(s)
}

/// The name padded with zero bytes to the fixed buffer length.
pub open spec fn pad_name(s: Seq<u8>) -> Seq<u8> {
    Seq::new(
        DIRNAME_SIZE as nat,
        |i: int|
            if i < s.len() {
                s[i]
            } else {
                0u8
            },
    )
}

/// The index of the first zero byte at or after `from`, or the buffer length
/// when none remains.
pub open spec fn first_zero_byte_from(s: Seq<u8>, from: int) -> int
    decreases s.len() - from,
{
    if from < 0 || from >= s.len() {
        s.len() as int
    } else if s[from] == 0 {
        from
    } else {
        first_zero_byte_from(s, from + 1)
    }
}

/// The name stored in a zero-padded buffer: the bytes before the first zero.
pub open spec fn spec_name_of(buf: Seq<u8>) -> Seq<u8> {
    buf.take(first_zero_byte_from(buf, 0))
}

/// The first zero byte lies between `from` and the buffer length, every byte
/// before it is nonzero, and the byte itself (if any) is zero.
pub proof fn lemma_first_zero_byte(s: Seq<u8>, from: int)
    requires
        0 <= from <= s.len(),
    ensures
        from <= first_zero_byte_from(s, from) <= s.len(),
        forall|k: int| from <= k < first_zero_byte_from(s, from) ==> s[k] != 0,
        first_zero_byte_from(s, from) < s.len() ==> s[first_zero_byte_from(s, from)] == 0,
    decreases s.len() - from,
{
    if from < s.len() && s[from] != 0 {
        lemma_first_zero_byte(s, from + 1);
    }
}

/// If the first `m` bytes are nonzero and byte `m` (if any) is zero, then `m`
/// is exactly the first zero byte.
pub proof fn lemma_first_zero_byte_is(s: Seq<u8>, m: int)
    requires
        0 <= m <= s.len(),
        forall|k: int| 0 <= k < m ==> s[k] != 0,
        m < s.len() ==> s[m] == 0,
    ensures
        first_zero_byte_from(s, 0) == m,
{
    lemma_first_zero_byte_is_from(s, 0, m);
}

proof fn lemma_first_zero_byte_is_from(s: Seq<u8>, from: int, m: int)
    requires
        0 <= from <= m <= s.len(),
        forall|k: int| from <= k < m ==> s[k] != 0,
        m < s.len() ==> s[m] == 0,
    ensures
        first_zero_byte_from(s, from) == m,
    decreases s.len() - from,
{
    if from < m {
        lemma_first_zero_byte_is_from(s, from + 1, m);
    }
}

/// Encoding a valid name into the padded buffer and decoding it back yields
/// the name: the codec round-trips every valid directory name.
pub proof fn lemma_name_roundtrip(s: Seq<u8>)
    requires
        spec_valid_name(s),
    ensures
        spec_name_of(pad_name(s)) == s,
{
    let p = pad_name(s);
    assert forall|k: int| 0 <= k < s.len() implies p[k] != 0 by {
        assert(is_name_byte(s[k]));
    }
    lemma_first_zero_byte_is(p, s.len() as int);
    assert(spec_name_of(p) =~= s);
}

/// Whether the byte may appear in a directory name.
pub fn name_byte_ok(b: u8) -> (r: bool)
    ensures
        r == is_name_byte(b),
{
    (97 <= b && b <= 122) || (65 <= b && b <= 90) || (48 <= b && b <= 57) || b == 46
}

/// Whether every character of the name is one a directory name may hold.
pub fn is_valid_dirname(name: &str) -> (r: bool)
    ensures
        r == spec_name_chars_ok(name.spec_bytes()),
{
    let bytes = name.as_bytes();
    let n = bytes.len();
    let mut i: usize = 0;
    while i < n
        invariant
            n == bytes@.len(),
            bytes@ == name.spec_bytes(),
            i <= n,
            forall|j: int| 0 <= j < i as int ==> is_name_byte(#[trigger] bytes@[j]),
        decreases n - i,
    {
        if !name_byte_ok(bytes[i]) {
            return false;
        }
        i += 1;
    }
    true
}

/// Builds the zero-padded fixed-length name buffer for a valid name; an
/// empty, oversized or ill-formed name yields no buffer at all.
pub fn to_char_array(name: &str) -> (r: Result<Vec<u8>, FileSystemError>)
    ensures
        match r {
            Ok(buf) => {
                &&& spec_valid_name(name.spec_bytes())
                &&& buf@ == pad_name(name.spec_bytes())
            },
            Err(e) => {
                &&& e == FileSystemError::InvalidDirname
                &&& !spec_valid_name(name.spec_bytes())
            },
        },
{
    let bytes = name.as_bytes();
    let n = bytes.len();
    if n < 1 || n > DIRNAME_SIZE as usize {
        return Err(FileSystemError::InvalidDirname);
    }
    if !is_valid_dirname(name) {
        return Err(FileSystemError::InvalidDirname);
    }
    let mut buf: Vec<u8> = Vec::new();
    let mut i: usize = 0;
    while i < n
        invariant
            n == bytes@.len(),
            n <= DIRNAME_SIZE,
            i <= n,
            buf@.len() == i,
            forall|j: int| 0 <= j < i as int ==> buf@[j] == bytes@[j],
        decreases n - i,
    {
        buf.push(bytes[i]);
        i += 1;
    }
    while i < DIRNAME_SIZE as usize
        invariant
            n == bytes@.len(),
            n <= i <= DIRNAME_SIZE,
            buf@.len() == i,
            forall|j: int| 0 <= j < n as int ==> buf@[j] == bytes@[j],
            forall|j: int| n as int <= j < i as int ==> buf@[j] == 0u8,
        decreases DIRNAME_SIZE as usize - i,
    {
        buf.push(0u8);
        i += 1;
    }
    proof {
        assert(buf@ =~= pad_name(name.spec_bytes()));
    }
    Ok(buf)
}

/// The name stored in the buffer: the bytes before the first zero.
pub fn name_of_buf(buf: &Vec<u8>) -> (r: Vec<u8>)
    ensures
        r@ == spec_name_of(buf@),
{
    let n = buf.len();
    let mut i: usize = 0;
    while i < n
        invariant
            n == buf@.len(),
            i <= n,
            forall|j: int| 0 <= j < i as int ==> buf@[j] != 0u8,
        decreases n - i,
    {
        if buf[i] == 0 {
            proof {
                lemma_first_zero_byte_is(buf@, i as int);
            }
            return slice_to_vec(slice_subrange(buf.as_slice(), 0, i));
        }
        i += 1;
    }
    proof {
        lemma_first_zero_byte_is(buf@, n as int);
        assert(buf@.subrange(0, n as int) =~= buf@.take(n as int));
    }
    slice_to_vec(slice_subrange(buf.as_slice(), 0, n))
}

/// Whether two byte vectors hold the same bytes.
pub fn bytes_eq(a: &Vec<u8>, b: &Vec<u8>) -> (r: bool)
    ensures
        r == (a@ == b@),
{
    let n = a.len();
    if n != b.len() {
        proof {
            assert(a@.len() != b@.len());
        }
        return false;
    }
    let mut i: usize = 0;
    while i < n
        invariant
            n == a@.len(),
            n == b@.len(),
            i <= n,
            forall|j: int| 0 <= j < i as int ==> a@[j] == b@[j],
        decreases n - i,
    {
        if a[i] != b[i] {
            return false;
        }
        i += 1;
    }
    proof {
        assert(a@ =~= b@);
    }
    true
}

/// Relies on `String::from_utf8`: a sequence of bytes below 128 is valid
/// UTF-8 and decodes to one character per byte, each with the byte's value.
#[verifier::external_body]
fn ascii_bytes_to_string(bytes: Vec<u8>) -> (r: String)
    requires
        forall|i: int| 0 <= i < bytes@.len() ==> bytes@[i] < 128,
    ensures
        r@ == bytes@.map_values(|b: u8| b as char),
{
    String::from_utf8(bytes).unwrap_or_default()
}

impl FileSystem {
    /// Builds a directory entry pointing at inode `inum` under the given
    /// name; an invalid name yields no entry at all.
    pub fn new_de(inum: u64, name: &str) -> (r: Option<DirEntry>)
        ensures
            match r {
                Some(de) => {
                    &&& spec_valid_name(name.spec_bytes())
                    &&& de@.inum == inum
                    &&& de@.name == pad_name(name.spec_bytes())
                    &&& de.wf()
                },
                None => !spec_valid_name(name.spec_bytes()),
            },
    {
        let mut de = DirEntry::default();
        match FileSystem::set_name_str(&mut de, name) {
            Some(()) => {},
            None => {
                return None;
            },
        }
        de.inum = inum;
        Some(de)
    }

    /// The entry's stored name, decoded from the zero-padded buffer.  The
    /// buffer must hold ASCII bytes, as every encoded name does.
    pub fn get_name_str(de: &DirEntry) -> (r: String)
        requires
            de.wf(),
            forall|i: int| 0 <= i < de.name@.len() ==> de.name@[i] < 128,
        ensures
            r@ == spec_name_of(de@.name).map_values(|b: u8| b as char),
    {
        let bytes = name_of_buf(&de.name);
        proof {
            lemma_first_zero_byte(de.name@, 0);
        }
        ascii_bytes_to_string(bytes)
    }

    /// Stores a valid name in the entry's buffer, zero-padded; an invalid
    /// name leaves the entry untouched and yields nothing.
    pub fn set_name_str(de: &mut DirEntry, name: &str) -> (r: Option<()>)
        requires
            old(de).wf(),
        ensures
            final(de).wf(),
            final(de).inum == old(de).inum,
            match r {
                Some(()) => {
                    &&& spec_valid_name(name.spec_bytes())
                    &&& final(de)@.name == pad_name(name.spec_bytes())
                },
                None => {
                    &&& !spec_valid_name(name.spec_bytes())
                    &&& final(de)@ == old(de)@
                },
            },
    {
        match to_char_array(name) {
            Ok(buf) => {
                de.name = buf;
                Some(())
            },
            Err(_) => None,
        }
    }
}


/// How many directory entries fit in one block.
pub open spec fn spec_epb(sb: SuperBlock) -> int {
    sb.block_size as int / DIRENTRY_SIZE as int
}

/// How many entry slots the directory's populated blocks hold in all.
pub open spec fn spec_dir_slots(sb: SuperBlock, dv: crate::records::DInodeView) -> int {
    spec_nblocks(dv) * spec_epb(sb)
}

/// The data index of the block that holds entry slot `j`.
pub open spec fn spec_slot_data_index(
    sb: SuperBlock,
    dv: crate::records::DInodeView,
    j: int,
) -> int {
    dv.direct_blocks[j / spec_epb(sb)] as int - sb.datastart as int
}

/// The byte offset of entry slot `j` inside its block.
pub open spec fn spec_slot_off(sb: SuperBlock, j: int) -> int {
    (j % spec_epb(sb)) * DIRENTRY_SIZE
}

/// The byte offset of entry slot `j` in the directory's byte stream: whole
/// blocks before it, then the slots before it in its own block.
pub open spec fn spec_slot_byte_offset(sb: SuperBlock, j: int) -> int {
    (j / spec_epb(sb)) * sb.block_size + (j % spec_epb(sb)) * DIRENTRY_SIZE
}

/// The directory entry stored in slot `j`.
pub open spec fn spec_slot(fsv: FsView, dv: crate::records::DInodeView, j: int) -> DirEntryView {
    spec_de_dec(
        fsv.data[spec_slot_data_index(fsv.sb, dv, j)].subrange(
            spec_slot_off(fsv.sb, j),
            spec_slot_off(fsv.sb, j) + DIRENTRY_SIZE,
        ),
    )
}

/// Whether slot `j` holds an entry with the given name.
pub open spec fn slot_matches(
    fsv: FsView,
    dv: crate::records::DInodeView,
    j: int,
    name: Seq<u8>,
) -> bool {
    &&& spec_slot(fsv, dv, j).inum != 0
    &&& spec_name_of(spec_slot(fsv, dv, j).name) == name
}

/// At least one entry fits in a block, and the slots of a block fit inside
/// it.
pub proof fn lemma_epb_bounds(sb: SuperBlock)
    requires
        spec_sb_valid(sb),
    ensures
        spec_epb(sb) >= 1,
        spec_epb(sb) * DIRENTRY_SIZE <= sb.block_size,
{
    vstd::arithmetic::div_mod::lemma_div_non_zero(sb.block_size as int, DIRENTRY_SIZE as int);
    lemma_fundamental_div_mod(sb.block_size as int, DIRENTRY_SIZE as int);
    let epb = spec_epb(sb);
    lemma_mod_bound(sb.block_size as int, DIRENTRY_SIZE as int);
    assert(epb * DIRENTRY_SIZE <= sb.block_size) by (nonlinear_arith)
        requires
            sb.block_size as int == DIRENTRY_SIZE as int * epb + sb.block_size as int % (
            DIRENTRY_SIZE as int),
            sb.block_size as int % (DIRENTRY_SIZE as int) >= 0,
    ;
}

/// A slot index inside a block stays inside the block's bytes.
pub proof fn lemma_slot_in_block(sb: SuperBlock, e: int)
    requires
        spec_sb_valid(sb),
        0 <= e < spec_epb(sb),
    ensures
        0 <= e * DIRENTRY_SIZE,
        e * DIRENTRY_SIZE + DIRENTRY_SIZE <= sb.block_size,
{
    lemma_epb_bounds(sb);
    let epb = spec_epb(sb);
    assert(e * DIRENTRY_SIZE + DIRENTRY_SIZE <= epb * DIRENTRY_SIZE) by (nonlinear_arith)
        requires
            0 <= e < epb,
    ;
    assert(e * DIRENTRY_SIZE >= 0) by (nonlinear_arith)
        requires
            e >= 0,
    ;
}

/// The slot at position `e` of block ordinal `k` has slot index
/// `k * epb + e`, and the location functions invert it.
pub proof fn lemma_slot_converse(sb: SuperBlock, k: int, e: int)
    requires
        spec_sb_valid(sb),
        0 <= k,
        0 <= e < spec_epb(sb),
    ensures
        (k * spec_epb(sb) + e) / spec_epb(sb) == k,
        (k * spec_epb(sb) + e) % spec_epb(sb) == e,
{
    let epb = spec_epb(sb);
    lemma_epb_bounds(sb);
    let j = k * epb + e;
    assert(j == epb * k + e) by (nonlinear_arith)
        requires
            j == k * epb + e,
    ;
    lemma_fundamental_div_mod_converse(j, epb, k, e);
}

/// Every slot index of the directory lies in a populated block, inside the
/// block's bytes, at a byte-stream offset that fits the pointer budget.
pub proof fn lemma_slot_location(sb: SuperBlock, dv: crate::records::DInodeView, j: int)
    requires
        spec_sb_valid(sb),
        spec_nblocks(dv) <= DIRECT_POINTERS,
        0 <= j < spec_dir_slots(sb, dv),
    ensures
        0 <= j / spec_epb(sb) < spec_nblocks(dv),
        0 <= j % spec_epb(sb) < spec_epb(sb),
        0 <= spec_slot_off(sb, j),
        spec_slot_off(sb, j) + DIRENTRY_SIZE <= sb.block_size,
        0 <= spec_slot_byte_offset(sb, j),
        spec_slot_byte_offset(sb, j) + DIRENTRY_SIZE <= DIRECT_POINTERS * sb.block_size,
{
    let epb = spec_epb(sb);
    let nb = spec_nblocks(dv);
    lemma_epb_bounds(sb);
    vstd::arithmetic::div_mod::lemma_div_pos_is_pos(j, epb);
    lemma_mod_bound(j, epb);
    // j <= nb * epb - 1, whose quotient by epb is nb - 1.
    assert(nb * epb - 1 == epb * (nb - 1) + (epb - 1)) by (nonlinear_arith);
    lemma_fundamental_div_mod_converse(nb * epb - 1, epb, nb - 1, epb - 1);
    vstd::arithmetic::div_mod::lemma_div_is_ordered(j, nb * epb - 1, epb);
    lemma_slot_in_block(sb, j % epb);
    assert((j / epb) * sb.block_size + (j % epb) * DIRENTRY_SIZE + DIRENTRY_SIZE
        <= DIRECT_POINTERS * sb.block_size) by (nonlinear_arith)
        requires
            0 <= j / epb <= nb - 1,
            nb <= DIRECT_POINTERS,
            0 <= (j % epb) * DIRENTRY_SIZE,
            (j % epb) * DIRENTRY_SIZE + DIRENTRY_SIZE <= sb.block_size,
            sb.block_size >= DIRENTRY_SIZE,
    ;
    assert((j / epb) * sb.block_size >= 0) by (nonlinear_arith)
        requires
            j / epb >= 0,
            sb.block_size as int >= 0,
    ;
}

/// Enumerates every directory-entry slot of the inode: one pair per slot,
/// the decoded entry together with its byte offset in the directory.
pub fn get_direntries(fs: &FileSystem, inode: &Inode) -> (r: Result<
    Vec<(DirEntry, u64)>,
    FileSystemError,
>)
    requires
        fs.wf(),
        inv_inodes(fs@),
        inode.inum < fs.superblock.ninodes,
        inode.disk_node@ == fs@.inodes[inode.inum as int],
        inode.disk_node.wf(),
        DIRECT_POINTERS as int * fs.superblock.block_size as int <= u64::MAX as int,
    ensures
        match r {
            Ok(v) => {
                let dv = fs@.inodes[inode.inum as int];
                &&& v@.len() == spec_dir_slots(fs.superblock, dv)
                &&& forall|j: int|
                    0 <= j < v@.len() ==> (#[trigger] v@[j]).0@ == spec_slot(fs@, dv, j)
                        && v@[j].1 as int == spec_slot_byte_offset(fs.superblock, j)
                        && v@[j].0.wf()
            },
            Err(_) => false,
        },
{
    let ghost sb = fs.superblock;
    let ghost dv = inode.disk_node@;
    let bs = fs.superblock.block_size;
    let epb = bs / DIRENTRY_SIZE;
    let nb = crate::inodes::nblocks_of(&inode.disk_node);
    let mut list: Vec<(DirEntry, u64)> = Vec::new();
    proof {
        assert(crate::inodes::inode_ok(fs@, dv));
        lemma_epb_bounds(sb);
    }
    let mut k: u64 = 0;
    while k < nb
        invariant
            fs.wf(),
            inv_inodes(fs@),
            sb == fs.superblock,
            bs == sb.block_size,
            epb as int == spec_epb(sb),
            dv == inode.disk_node@,
            inode.disk_node.wf(),
            inode.inum < sb.ninodes,
            dv == fs@.inodes[inode.inum as int],
            crate::inodes::inode_ok(fs@, dv),
            nb as int == spec_nblocks(dv),
            nb <= DIRECT_POINTERS,
            DIRECT_POINTERS as int * sb.block_size as int <= u64::MAX as int,
            k <= nb,
            list@.len() == k as int * spec_epb(sb),
            forall|j: int|
                0 <= j < list@.len() ==> (#[trigger] list@[j]).0@ == spec_slot(fs@, dv, j)
                    && list@[j].1 as int == spec_slot_byte_offset(sb, j) && list@[j].0.wf(),
        decreases nb - k,
    {
        proof {
            assert(is_data_ptr(sb, dv.direct_blocks[k as int]));
        }
        let ptr = inode.disk_node.direct_blocks[k as usize];
        let block = match fs.b_get(ptr) {
            Ok(b) => b,
            Err(e) => {
                proof {
                    assert(false);
                }
                return Err(e);
            },
        };
        let ghost di = ptr as int - sb.datastart as int;
        proof {
            assert(block.data@ == fs@.data[di]);
        }
        let mut e: u64 = 0;
        while e < epb
            invariant
                fs.wf(),
                inv_inodes(fs@),
                sb == fs.superblock,
                bs == sb.block_size,
                epb as int == spec_epb(sb),
                dv == inode.disk_node@,
                inode.disk_node.wf(),
                inode.inum < sb.ninodes,
                dv == fs@.inodes[inode.inum as int],
                crate::inodes::inode_ok(fs@, dv),
                nb as int == spec_nblocks(dv),
                nb <= DIRECT_POINTERS,
                DIRECT_POINTERS as int * sb.block_size as int <= u64::MAX as int,
                k < nb,
                ptr == dv.direct_blocks[k as int],
                is_data_ptr(sb, dv.direct_blocks[k as int]),
                di == ptr as int - sb.datastart as int,
                block.data@ == fs@.data[di],
                block.data@.len() == bs,
                e <= epb,
                list@.len() == k as int * spec_epb(sb) + e as int,
                forall|j: int|
                    0 <= j < list@.len() ==> (#[trigger] list@[j]).0@ == spec_slot(fs@, dv, j)
                        && list@[j].1 as int == spec_slot_byte_offset(sb, j) && list@[j].0.wf(),
            decreases epb - e,
        {
            proof {
                lemma_slot_in_block(sb, e as int);
            }
            let off = e * DIRENTRY_SIZE;
            let de = decode_de(block.contents_as_ref(), off as usize);
            proof {
                assert(k as int * bs as int + bs as int <= DIRECT_POINTERS as int * bs as int)
                    by (nonlinear_arith)
                    requires
                        k as int <= DIRECT_POINTERS as int - 1,
                        bs as int >= 0,
                ;
            }
            let boff = k * bs + off;
            proof {
                lemma_slot_converse(sb, k as int, e as int);
                let j = k as int * spec_epb(sb) + e as int;
                assert(spec_slot_data_index(sb, dv, j) == di);
                assert(spec_slot_off(sb, j) == off as int);
                assert(de@ == spec_slot(fs@, dv, j));
                assert(boff as int == spec_slot_byte_offset(sb, j));
            }
            list.push((de, boff));
            e += 1;
        }
        proof {
            assert(k as int * spec_epb(sb) + spec_epb(sb) == (k as int + 1) * spec_epb(sb))
                by (nonlinear_arith);
        }
        k += 1;
    }
    Ok(list)
}

impl FileSystem {
    /// Looks the name up in the directory: enumerates every entry slot of
    /// the directory inode, skips unused slots, and returns the first entry
    /// whose decoded name matches, as the target's inode handle together
    /// with the entry's byte offset inside the directory.
    pub fn dirlookup(&self, inode: &Inode, name: &str) -> (r: Result<
        (Inode, u64),
        FileSystemError,
    >)
        requires
            self.wf(),
            inv_inodes(self@),
            DIRECT_POINTERS as int * self.superblock.block_size as int <= u64::MAX as int,
        ensures
            ({
                let nameb = name.spec_bytes();
                let dv = self@.inodes[inode.inum as int];
                match r {
                    Ok((tino, off)) => {
                        &&& spec_valid_name(nameb)
                        &&& inode.inum < self.superblock.ninodes
                        &&& dv.ft == crate::records::FType::TDir
                        &&& exists|j: int|
                            {
                                &&& 0 <= j < spec_dir_slots(self.superblock, dv)
                                &&& #[trigger] slot_matches(self@, dv, j, nameb)
                                &&& (forall|l: int|
                                    0 <= l < j ==> !slot_matches(self@, dv, l, nameb))
                                &&& off as int == spec_slot_byte_offset(self.superblock, j)
                                &&& tino.inum == spec_slot(self@, dv, j).inum
                            }
                        &&& tino.inum < self.superblock.ninodes
                        &&& tino.disk_node@ == self@.inodes[tino.inum as int]
                        &&& tino.disk_node.wf()
                    },
                    Err(e) => {
                        if !spec_valid_name(nameb) {
                            e == FileSystemError::InvalidDirname
                        } else if inode.inum >= self.superblock.ninodes {
                            e == FileSystemError::IndexOutOfBounds
                        } else if dv.ft != crate::records::FType::TDir {
                            e == FileSystemError::INodeNotADirectory
                        } else {
                            ||| (e == FileSystemError::DirectoryNotFound && forall|j: int|
                                0 <= j < spec_dir_slots(self.superblock, dv) ==> !slot_matches(
                                    self@,
                                    dv,
                                    j,
                                    nameb,
                                ))
                            ||| (e == FileSystemError::IndexOutOfBounds && exists|j: int|
                                {
                                    &&& 0 <= j < spec_dir_slots(self.superblock, dv)
                                    &&& #[trigger] slot_matches(self@, dv, j, nameb)
                                    &&& (forall|l: int|
                                        0 <= l < j ==> !slot_matches(self@, dv, l, nameb))
                                    &&& spec_slot(self@, dv, j).inum
                                        >= self.superblock.ninodes
                                })
                        }
                    },
                }
            }),
    {
        let qbytes = slice_to_vec(name.as_bytes());
        let nlen = qbytes.len();
        if nlen < 1 || nlen > DIRNAME_SIZE as usize || !is_valid_dirname(name) {
            return Err(FileSystemError::InvalidDirname);
        }
        let dir = match self.i_get(inode.inum) {
            Ok(d) => d,
            Err(e) => {
                return Err(e);
            },
        };
        if !matches!(dir.disk_node.ft, crate::records::FType::TDir) {
            return Err(FileSystemError::INodeNotADirectory);
        }
        let entries = match get_direntries(self, &dir) {
            Ok(v) => v,
            Err(e) => {
                proof {
                    assert(false);
                }
                return Err(e);
            },
        };
        let ghost dv = self@.inodes[inode.inum as int];
        let ghost nameb = name.spec_bytes();
        let n = entries.len();
        let mut m: usize = 0;
        while m < n
            invariant
                self.wf(),
                inv_inodes(self@),
                dv == self@.inodes[inode.inum as int],
                nameb == name.spec_bytes(),
                qbytes@ == nameb,
                spec_valid_name(nameb),
                inode.inum < self.superblock.ninodes,
                dv.ft == crate::records::FType::TDir,
                n == entries@.len(),
                n == spec_dir_slots(self.superblock, dv),
                m <= n,
                forall|j: int|
                    0 <= j < n ==> (#[trigger] entries@[j]).0@ == spec_slot(self@, dv, j)
                        && entries@[j].1 as int == spec_slot_byte_offset(self.superblock, j)
                        && entries@[j].0.wf(),
                forall|l: int| 0 <= l < m as int ==> !slot_matches(self@, dv, l, nameb),
            decreases n - m,
        {
            let entry = &entries[m];
            let ename = name_of_buf(&entry.0.name);
            if entry.0.inum != 0 && bytes_eq(&ename, &qbytes) {
                proof {
                    assert(slot_matches(self@, dv, m as int, nameb));
                }
                let tino = match self.i_get(entry.0.inum) {
                    Ok(t) => t,
                    Err(e) => {
                        proof {
                            let j = m as int;
                            assert({
                                &&& 0 <= j < spec_dir_slots(self.superblock, dv)
                                &&& slot_matches(self@, dv, j, nameb)
                                &&& (forall|l: int|
                                    0 <= l < j ==> !slot_matches(self@, dv, l, nameb))
                                &&& spec_slot(self@, dv, j).inum >= self.superblock.ninodes
                            });
                        }
                        return Err(e);
                    },
                };
                proof {
                    let j = m as int;
                    assert({
                        &&& 0 <= j < spec_dir_slots(self.superblock, dv)
                        &&& slot_matches(self@, dv, j, nameb)
                        &&& (forall|l: int| 0 <= l < j ==> !slot_matches(self@, dv, l, nameb))
                        &&& entry.1 as int == spec_slot_byte_offset(self.superblock, j)
                        &&& tino.inum == spec_slot(self@, dv, j).inum
                    });
                }
                return Ok((tino, entry.1));
            }
            proof {
                assert(!slot_matches(self@, dv, m as int, nameb));
            }
            m += 1;
        }
        Err(FileSystemError::DirectoryNotFound)
    }
}


/// Attaches a data block to the inode's first unused pointer slot; a record
/// whose slots are all populated is an allocation failure.
pub fn add_block_to_inode(inode: &mut Inode, block_nr: u64) -> (r: Result<(), FileSystemError>)
    requires
        old(inode).disk_node.wf(),
        block_nr != 0,
    ensures
        final(inode).inum == old(inode).inum,
        final(inode).disk_node.wf(),
        match r {
            Ok(()) => {
                &&& spec_nblocks(old(inode).disk_node@) < DIRECT_POINTERS
                &&& final(inode).disk_node@ == (crate::records::DInodeView {
                    direct_blocks: old(inode).disk_node@.direct_blocks.update(
                        spec_nblocks(old(inode).disk_node@),
                        block_nr,
                    ),
                    ..old(inode).disk_node@
                })
            },
            Err(e) => {
                &&& e == FileSystemError::AllocationError
                &&& spec_nblocks(old(inode).disk_node@) == DIRECT_POINTERS
                &&& *final(inode) == *old(inode)
            },
        },
{
    let nb = crate::inodes::nblocks_of(&inode.disk_node);
    if nb == DIRECT_POINTERS {
        return Err(FileSystemError::AllocationError);
    }
    inode.disk_node.direct_blocks.set(nb as usize, block_nr);
    proof {
        assert(inode.disk_node@ =~= crate::records::DInodeView {
            direct_blocks: old(inode).disk_node@.direct_blocks.update(
                spec_nblocks(old(inode).disk_node@),
                block_nr,
            ),
            ..old(inode).disk_node@
        });
    }
    Ok(())
}

/// Inserts the entry into the directory: if the directory's size after one
/// more entry would exceed the capacity of its populated blocks, one data
/// block is allocated and attached first; then the entry overwrites the
/// first unused slot, the directory's recorded size grows by one entry, and
/// the entry's byte offset inside the directory is returned.
pub fn write_dir(fs: &mut FileSystem, inode: &mut Inode, dir: &DirEntry) -> (r: Result<
    u64,
    FileSystemError,
>)
    requires
        old(fs).wf(),
        inv_inodes(old(fs)@),
        old(inode).inum < old(fs).superblock.ninodes,
        old(inode).disk_node@ == old(fs)@.inodes[old(inode).inum as int],
        old(inode).disk_node.wf(),
        old(fs)@.inodes[old(inode).inum as int].ft != crate::records::FType::TFree,
        dir.wf(),
        old(inode).disk_node@.size + DIRENTRY_SIZE <= u64::MAX,
        DIRECT_POINTERS as int * old(fs).superblock.block_size as int <= u64::MAX as int,
    ensures
        final(fs).wf(),
        final(fs).superblock == old(fs).superblock,
        inv_inodes(final(fs)@),
        final(inode).inum == old(inode).inum,
        final(inode).disk_node.wf(),
        ({
            let sb = old(fs).superblock;
            let i = old(inode).inum as int;
            let dv0 = old(fs)@.inodes[i];
            match r {
                Ok(off) => {
                    let dvf = final(fs)@.inodes[i];
                    let grow = dv0.size + DIRENTRY_SIZE > spec_dir_slots(sb, dv0)
                        * DIRENTRY_SIZE;
                    let f = dvf.direct_blocks[spec_nblocks(dv0)] as int - sb.datastart as int;
                    &&& final(inode).disk_node@ == dvf
                    &&& dvf.ft == dv0.ft
                    &&& dvf.nlink == dv0.nlink
                    &&& dvf.size == dv0.size + DIRENTRY_SIZE
                    &&& final(fs)@.inodes.len() == old(fs)@.inodes.len()
                    &&& (forall|m: int|
                        0 <= m < old(fs)@.inodes.len() && m != i ==> final(fs)@.inodes[m] == old(fs)@.inodes[m])
                    &&& final(fs)@.bitmap.len() == old(fs)@.bitmap.len()
                    &&& final(fs)@.data.len() == old(fs)@.data.len()
                    &&& (!grow ==> dvf.direct_blocks == dv0.direct_blocks && final(fs)@.bitmap
                        == old(fs)@.bitmap)
                    &&& (grow ==> {
                        &&& crate::blocks::is_first_free(old(fs)@.bitmap, f)
                        &&& dvf.direct_blocks == dv0.direct_blocks.update(
                            spec_nblocks(dv0),
                            (sb.datastart as int + f) as u64,
                        )
                        &&& final(fs)@.bitmap == old(fs)@.bitmap.update(f, true)
                    })
                    &&& exists|j: int|
                        {
                            let dij = spec_slot_data_index(sb, dvf, j);
                            &&& 0 <= j < spec_dir_slots(sb, dvf)
                            &&& j <= spec_dir_slots(sb, dv0)
                            &&& (j < spec_dir_slots(sb, dv0) ==> spec_slot(
                                old(fs)@,
                                dv0,
                                j,
                            ).inum == 0)
                            &&& #[trigger] spec_slot(final(fs)@, dvf, j) == dir@
                            &&& off as int == spec_slot_byte_offset(sb, j)
                            &&& (forall|l: int|
                                0 <= l < j ==> spec_slot(final(fs)@, dvf, l) == spec_slot(
                                    old(fs)@,
                                    dv0,
                                    l,
                                ) && spec_slot(final(fs)@, dvf, l).inum != 0)
                            &&& (forall|l: int|
                                j < l < spec_dir_slots(sb, dv0) ==> spec_slot(
                                    final(fs)@,
                                    dvf,
                                    l,
                                ) == spec_slot(old(fs)@, dv0, l))
                            &&& (forall|p: int|
                                0 <= p < old(fs)@.data.len() && p != dij && (grow ==> p != f)
                                    ==> final(fs)@.data[p] == old(fs)@.data[p])
                            &&& final(fs)@.data[dij] == crate::byteops::splice(
                                (if grow && dij == f {
                                    crate::device::zero_bytes(sb.block_size as int)
                                } else {
                                    old(fs)@.data[dij]
                                }),
                                spec_slot_off(sb, j),
                                crate::records::spec_de_enc(dir@),
                            )
                            &&& (grow && dij != f ==> final(fs)@.data[f]
                                == crate::device::zero_bytes(sb.block_size as int))
                        }
                },
                Err(e) => {
                    &&& e == FileSystemError::AllocationError
                    &&& *final(fs) == *old(fs)
                    &&& *final(inode) == *old(inode)
                    &&& ({
                        let grow = dv0.size + DIRENTRY_SIZE > spec_dir_slots(sb, dv0)
                            * DIRENTRY_SIZE;
                        ||| (grow && spec_nblocks(dv0) == DIRECT_POINTERS)
                        ||| (grow && crate::blocks::all_allocated(old(fs)@.bitmap))
                        ||| (!grow && (forall|l: int|
                            0 <= l < spec_dir_slots(sb, dv0) ==> spec_slot(
                                old(fs)@,
                                dv0,
                                l,
                            ).inum != 0))
                    })
                },
            }
        }),
{
    let ghost sb = old(fs).superblock;
    let ghost v0 = old(fs)@;
    let ghost dv0 = old(inode).disk_node@;
    let i = inode.inum;
    let bs = fs.superblock.block_size;
    let epb = bs / DIRENTRY_SIZE;
    let nb = crate::inodes::nblocks_of(&inode.disk_node);
    let size = inode.disk_node.size;
    proof {
        assert(crate::inodes::inode_ok(v0, dv0));
        lemma_epb_bounds(sb);
        lemma_valid_geometry(sb);
    }
    proof {
        assert(nb as int * epb as int <= DIRECT_POINTERS as int * epb as int) by (nonlinear_arith)
            requires
                nb as int <= DIRECT_POINTERS as int,
                epb as int >= 0,
        ;
        assert((nb as int * epb as int) * DIRENTRY_SIZE as int <= DIRECT_POINTERS as int * (
        epb as int * DIRENTRY_SIZE as int)) by (nonlinear_arith)
            requires
                nb as int <= DIRECT_POINTERS as int,
                epb as int >= 0,
        ;
        assert(DIRECT_POINTERS as int * (epb as int * DIRENTRY_SIZE as int)
            <= DIRECT_POINTERS as int * sb.block_size as int) by (nonlinear_arith)
            requires
                epb as int * DIRENTRY_SIZE as int <= sb.block_size as int,
        ;
    }
    let cap: u128 = nb as u128 * epb as u128 * DIRENTRY_SIZE as u128;
    let grow = size as u128 + DIRENTRY_SIZE as u128 > cap;
    proof {
        assert(cap as int == spec_dir_slots(sb, dv0) * DIRENTRY_SIZE as int) by (nonlinear_arith)
            requires
                cap as int == (nb as int * epb as int) * DIRENTRY_SIZE as int,
                spec_dir_slots(sb, dv0) == nb as int * epb as int,
        ;
    }
    if !grow {
        // Reuse takes priority: overwrite the first unused slot.
        let entries = match get_direntries(fs, inode) {
            Ok(v) => v,
            Err(e) => {
                proof {
                    assert(false);
                }
                return Err(e);
            },
        };
        let n = entries.len();
        let mut m: usize = 0;
        while m < n
            invariant
                fs.wf(),
                *fs == *old(fs),
                *inode == *old(inode),
                inv_inodes(fs@),
                sb == fs.superblock,
                v0 == fs@,
                dv0 == inode.disk_node@,
                dv0 == v0.inodes[i as int],
                crate::inodes::inode_ok(v0, dv0),
                dv0.ft != crate::records::FType::TFree,
                inode.disk_node.wf(),
                bs == sb.block_size,
                epb as int == spec_epb(sb),
                epb >= 1,
                nb as int == spec_nblocks(dv0),
                nb <= DIRECT_POINTERS,
                size == dv0.size,
                dv0.size + DIRENTRY_SIZE <= u64::MAX,
                dv0.size + DIRENTRY_SIZE <= spec_dir_slots(sb, dv0) * DIRENTRY_SIZE,
                epb as int * DIRENTRY_SIZE as int <= sb.block_size as int,
                i == inode.inum,
                i == old(inode).inum,
                i < sb.ninodes,
                DIRECT_POINTERS as int * sb.block_size as int <= u64::MAX as int,
                dir.wf(),
                n == entries@.len(),
                n == spec_dir_slots(sb, dv0),
                m <= n,
                forall|j: int|
                    0 <= j < n ==> (#[trigger] entries@[j]).0@ == spec_slot(v0, dv0, j)
                        && entries@[j].1 as int == spec_slot_byte_offset(sb, j),
                forall|l: int| 0 <= l < m as int ==> spec_slot(v0, dv0, l).inum != 0,
            decreases n - m,
        {
            if entries[m].0.inum == 0 {
                let off = entries[m].1;
                proof {
                    lemma_slot_location(sb, dv0, m as int);
                    assert(is_data_ptr(sb, dv0.direct_blocks[m as int / spec_epb(sb)]));
                }
                let k = (m as u64) / epb;
                let e = (m as u64) % epb;
                let ptr = inode.disk_node.direct_blocks[k as usize];
                let mut block = match fs.b_get(ptr) {
                    Ok(b) => b,
                    Err(er) => {
                        proof {
                            assert(false);
                        }
                        return Err(er);
                    },
                };
                let enc = crate::records::encode_de(dir);
                proof {
                    crate::records::lemma_de_roundtrip(dir@);
                }
                match block.write_data(enc.as_slice(), e * DIRENTRY_SIZE) {
                    Ok(()) => {},
                    Err(er) => {
                        proof {
                            assert(false);
                        }
                        return Err(er);
                    },
                }
                let di = ptr - fs.superblock.datastart;
                match crate::blocks::put_data_block(fs, di, &block) {
                    Ok(()) => {},
                    Err(er) => {
                        proof {
                            assert(false);
                        }
                        return Err(er);
                    },
                }
                inode.disk_node.size = size + DIRENTRY_SIZE;
                match fs.i_put(&inode) {
                    Ok(()) => {},
                    Err(er) => {
                        proof {
                            assert(false);
                        }
                        return Err(er);
                    },
                }
                proof {
                    let j = m as int;
                    let dvf = inode.disk_node@;
                    let vf = fs@;
                    assert(vf.inodes[i as int] == dvf);
                    // The written block was read from the volume, so its new
                    // content is the old content with the entry spliced in.
                    assert(spec_slot_off(sb, j) == e as int * DIRENTRY_SIZE as int);
                    assert(block.data@ == crate::byteops::splice(
                        v0.data[di as int],
                        spec_slot_off(sb, j),
                        crate::records::spec_de_enc(dir@),
                    ));
                    assert(vf.data == v0.data.update(di as int, block.data@));
                    assert(vf.bitmap == v0.bitmap);
                    // The slot now decodes to the written entry.
                    assert(vf.data[di as int].subrange(
                        spec_slot_off(sb, j),
                        spec_slot_off(sb, j) + DIRENTRY_SIZE,
                    ) =~= crate::records::spec_de_enc(dir@));
                    assert(spec_slot_data_index(sb, dvf, j) == di as int);
                    assert(spec_slot(vf, dvf, j) == dir@);
                    // Every other slot is untouched.
                    assert forall|l: int| 0 <= l < n && l != j implies spec_slot(vf, dvf, l)
                        == spec_slot(v0, dv0, l) by {
                        lemma_slot_location(sb, dv0, l);
                        let kl = l / spec_epb(sb);
                        assert(dvf.direct_blocks == dv0.direct_blocks);
                        if kl == k as int {
                            // Same block, disjoint byte ranges.
                            vstd::arithmetic::div_mod::lemma_fundamental_div_mod(l, spec_epb(sb));
                            vstd::arithmetic::div_mod::lemma_fundamental_div_mod(j, spec_epb(sb));
                            let el = l % spec_epb(sb);
                            assert(el != e as int);
                            assert(el * DIRENTRY_SIZE + DIRENTRY_SIZE <= e as int * DIRENTRY_SIZE
                                || e as int * DIRENTRY_SIZE + DIRENTRY_SIZE <= el * DIRENTRY_SIZE)
                                by (nonlinear_arith)
                                requires
                                    el != e as int,
                                    0 <= el,
                                    0 <= e as int,
                            ;
                            assert(vf.data[di as int].subrange(
                                spec_slot_off(sb, l),
                                spec_slot_off(sb, l) + DIRENTRY_SIZE,
                            ) =~= v0.data[di as int].subrange(
                                spec_slot_off(sb, l),
                                spec_slot_off(sb, l) + DIRENTRY_SIZE,
                            ));
                        } else {
                            assert(dv0.direct_blocks[kl] != dv0.direct_blocks[k as int]);
                            assert(spec_slot_data_index(sb, dv0, l) != di as int);
                        }
                    }
                    // The size still fits the populated blocks.
                    assert(spec_nblocks(dvf) == spec_nblocks(dv0));
                    assert(dv0.size + DIRENTRY_SIZE <= nb as int * sb.block_size as int)
                        by (nonlinear_arith)
                        requires
                            dv0.size + DIRENTRY_SIZE <= (nb as int * epb as int)
                                * DIRENTRY_SIZE as int,
                            epb as int * DIRENTRY_SIZE as int <= sb.block_size as int,
                            nb as int >= 0,
                            epb as int >= 0,
                    ;
                    crate::inodes::lemma_ceil_le(
                        dvf.size as int,
                        sb.block_size as int,
                        nb as int,
                    );
                    crate::inodes::lemma_inv_same_pointers(v0, vf, i as int, dvf);
                    // The reuse path allocates nothing and changes only the
                    // written slot's block.
                    assert(!(dv0.size + DIRENTRY_SIZE > spec_dir_slots(sb, dv0) * DIRENTRY_SIZE));
                    assert(dvf.direct_blocks == dv0.direct_blocks);
                    assert(spec_slot(v0, dv0, j).inum == 0);
                    assert({
                        let dij = spec_slot_data_index(sb, dvf, j);
                        &&& 0 <= j < spec_dir_slots(sb, dvf)
                        &&& j <= spec_dir_slots(sb, dv0)
                        &&& (j < spec_dir_slots(sb, dv0) ==> spec_slot(v0, dv0, j).inum == 0)
                        &&& spec_slot(fs@, dvf, j) == dir@
                        &&& off as int == spec_slot_byte_offset(sb, j)
                        &&& (forall|l: int|
                            0 <= l < j ==> spec_slot(fs@, dvf, l) == spec_slot(v0, dv0, l)
                                && spec_slot(fs@, dvf, l).inum != 0)
                        &&& (forall|l: int|
                            j < l < spec_dir_slots(sb, dv0) ==> spec_slot(fs@, dvf, l)
                                == spec_slot(v0, dv0, l))
                        &&& (forall|p: int|
                            0 <= p < v0.data.len() && p != dij ==> fs@.data[p] == v0.data[p])
                        &&& fs@.data[dij] == crate::byteops::splice(
                            v0.data[dij],
                            spec_slot_off(sb, j),
                            crate::records::spec_de_enc(dir@),
                        )
                    });
                }
                return Ok(off);
            }
            proof {
                assert(spec_slot(v0, dv0, m as int).inum != 0);
            }
            m += 1;
        }
        return Err(FileSystemError::AllocationError);
    }
    // The populated blocks are full: attach one fresh data block first.
    if nb == DIRECT_POINTERS {
        return Err(FileSystemError::AllocationError);
    }
    let f = match fs.b_alloc() {
        Ok(f) => f,
        Err(e) => {
            return Err(FileSystemError::AllocationError);
        },
    };
    let ghost v1 = fs@;
    proof {
        crate::inodes::lemma_inv_bitmap_monotone(v0, v1);
    }
    match add_block_to_inode(inode, fs.superblock.datastart + f) {
        Ok(()) => {},
        Err(e) => {
            proof {
                assert(false);
            }
            return Err(e);
        },
    }
    inode.disk_node.size = size + DIRENTRY_SIZE;
    match fs.i_put(&inode) {
        Ok(()) => {},
        Err(e) => {
            proof {
                assert(false);
            }
            return Err(e);
        },
    }
    let ghost v2 = fs@;
    let ghost dv1 = inode.disk_node@;
    proof {
        // The grown record still covers its byte size, and the invariant
        // holds again.
        crate::layout::lemma_ceil_bounds(dv0.size as int, sb.block_size as int);
        assert(dv0.size as int <= nb as int * sb.block_size as int) by (nonlinear_arith)
            requires
                dv0.size as int <= crate::layout::spec_ceil_div(
                    dv0.size as int,
                    sb.block_size as int,
                ) * sb.block_size as int,
                crate::layout::spec_ceil_div(dv0.size as int, sb.block_size as int) <= nb as int,
                sb.block_size as int >= 1,
        ;
        assert(dv1.size as int <= (nb as int + 1) * sb.block_size as int) by (nonlinear_arith)
            requires
                dv1.size as int == dv0.size as int + DIRENTRY_SIZE as int,
                dv0.size as int <= nb as int * sb.block_size as int,
                DIRENTRY_SIZE as int <= sb.block_size as int,
        ;
        crate::inodes::lemma_ceil_le(dv1.size as int, sb.block_size as int, nb as int + 1);
        crate::inodes::lemma_inv_after_grow(v0, v2, i as int, f as int, dv1);
        assert(spec_nblocks(dv1) == nb as int + 1);
    }
    let entries = match get_direntries(fs, inode) {
        Ok(v) => v,
        Err(e) => {
            proof {
                assert(false);
            }
            return Err(e);
        },
    };
    let n = entries.len();
    let mut m: usize = 0;
    while m < n
        invariant
            fs.wf(),
            inv_inodes(fs@),
            sb == fs.superblock,
            bs == sb.block_size,
            epb as int == spec_epb(sb),
            v2 == fs@,
            v0.inodes.len() == v2.inodes.len(),
            v0.bitmap.len() == v2.bitmap.len(),
            dv1 == inode.disk_node@,
            inode.disk_node.wf(),
            inode.inum == i,
            i < sb.ninodes,
            i == old(inode).inum,
            dv1 == v2.inodes[i as int],
            crate::inodes::inode_ok(v2, dv1),
            spec_nblocks(dv1) == nb as int + 1,
            nb as int == spec_nblocks(dv0),
            nb < DIRECT_POINTERS,
            dv0 == old(inode).disk_node@,
            v0 == old(fs)@,
            dv0 == v0.inodes[i as int],
            sb == old(fs).superblock,
            crate::inodes::inode_ok(v0, dv0),
            dv1.ft == dv0.ft,
            dv1.nlink == dv0.nlink,
            dv1.size == dv0.size + DIRENTRY_SIZE,
            dv1.direct_blocks == dv0.direct_blocks.update(nb as int, (sb.datastart + f) as u64),
            dv0.size + DIRENTRY_SIZE > spec_dir_slots(sb, dv0) * DIRENTRY_SIZE,
            0 <= f < sb.ndatablocks,
            crate::blocks::is_first_free(v0.bitmap, f as int),
            !v0.bitmap[f as int],
            v2.bitmap == v0.bitmap.update(f as int, true),
            v2.data == v0.data.update(f as int, crate::device::zero_bytes(sb.block_size as int)),
            forall|mm: int| 0 <= mm < v0.inodes.len() && mm != i ==> v2.inodes[mm] == v0.inodes[mm],
            DIRECT_POINTERS as int * sb.block_size as int <= u64::MAX as int,
            dir.wf(),
            n == entries@.len(),
            n == spec_dir_slots(sb, dv1),
            m <= n,
            forall|j: int|
                0 <= j < n ==> (#[trigger] entries@[j]).0@ == spec_slot(v2, dv1, j)
                    && entries@[j].1 as int == spec_slot_byte_offset(sb, j),
            forall|l: int| 0 <= l < m as int ==> spec_slot(v2, dv1, l).inum != 0,
        decreases n - m,
    {
        if entries[m].0.inum == 0 {
            let off = entries[m].1;
            proof {
                lemma_slot_location(sb, dv1, m as int);
                assert(is_data_ptr(sb, dv1.direct_blocks[m as int / spec_epb(sb)]));
            }
            let k = (m as u64) / epb;
            let e = (m as u64) % epb;
            let ptr = inode.disk_node.direct_blocks[k as usize];
            let mut block = match fs.b_get(ptr) {
                Ok(b) => b,
                Err(er) => {
                    proof {
                        assert(false);
                    }
                    return Err(er);
                },
            };
            let enc = crate::records::encode_de(dir);
            proof {
                crate::records::lemma_de_roundtrip(dir@);
            }
            match block.write_data(enc.as_slice(), e * DIRENTRY_SIZE) {
                Ok(()) => {},
                Err(er) => {
                    proof {
                        assert(false);
                    }
                    return Err(er);
                },
            }
            let di = ptr - fs.superblock.datastart;
            match crate::blocks::put_data_block(fs, di, &block) {
                Ok(()) => {},
                Err(er) => {
                    proof {
                        assert(false);
                    }
                    return Err(er);
                },
            }
            proof {
                let j = m as int;
                let vf = fs@;
                crate::inodes::lemma_inv_data_irrelevant(v2, vf);
                assert(vf.inodes[i as int] == dv1);
                assert(vf.data[di as int].subrange(
                    spec_slot_off(sb, j),
                    spec_slot_off(sb, j) + DIRENTRY_SIZE,
                ) =~= crate::records::spec_de_enc(dir@));
                assert(spec_slot_data_index(sb, dv1, j) == di as int);
                assert(spec_slot(vf, dv1, j) == dir@);
                // Every other slot reads as it did just before the entry
                // write: the write touched one disjoint byte range.
                assert forall|l: int|
                    0 <= l < spec_dir_slots(sb, dv1) && l != j implies spec_slot(vf, dv1, l)
                    == spec_slot(v2, dv1, l) by {
                    lemma_slot_location(sb, dv1, l);
                    let kl = l / spec_epb(sb);
                    if kl == k as int {
                        vstd::arithmetic::div_mod::lemma_fundamental_div_mod(l, spec_epb(sb));
                        vstd::arithmetic::div_mod::lemma_fundamental_div_mod(j, spec_epb(sb));
                        let el = l % spec_epb(sb);
                        assert(el != e as int);
                        assert(el * DIRENTRY_SIZE + DIRENTRY_SIZE <= e as int * DIRENTRY_SIZE
                            || e as int * DIRENTRY_SIZE + DIRENTRY_SIZE <= el * DIRENTRY_SIZE)
                            by (nonlinear_arith)
                            requires
                                el != e as int,
                                0 <= el,
                                0 <= e as int,
                        ;
                        assert(vf.data[di as int].subrange(
                            spec_slot_off(sb, l),
                            spec_slot_off(sb, l) + DIRENTRY_SIZE,
                        ) =~= v2.data[di as int].subrange(
                            spec_slot_off(sb, l),
                            spec_slot_off(sb, l) + DIRENTRY_SIZE,
                        ));
                    } else {
                        assert(dv1.direct_blocks[kl] != dv1.direct_blocks[k as int]);
                        assert(spec_slot_data_index(sb, dv1, l) != di as int);
                    }
                }
                // Every slot of the blocks the directory already held reads
                // as it did before the insertion: the allocation zeroed only
                // the fresh block.
                assert forall|l: int|
                    0 <= l < nb as int * spec_epb(sb) implies spec_slot(v2, dv1, l) == spec_slot(
                    v0,
                    dv0,
                    l,
                ) by {
                    lemma_slot_location(sb, dv0, l);
                    let kl = l / spec_epb(sb);
                    assert(kl < nb as int);
                    assert(dv1.direct_blocks[kl] == dv0.direct_blocks[kl]);
                    assert(is_data_ptr(sb, dv0.direct_blocks[kl]));
                    let dil = dv0.direct_blocks[kl] as int - sb.datastart as int;
                    assert(v0.bitmap[dil]);
                    assert(dil != f as int);
                    assert(v2.data[dil] == v0.data[dil]);
                    assert(spec_slot(v2, dv1, l) == spec_slot(v0, dv0, l)) by {
                        assert(spec_slot_data_index(sb, dv1, l) == spec_slot_data_index(
                            sb,
                            dv0,
                            l,
                        ));
                    }
                }
                // The first unused slot lies at or before the first slot of
                // the fresh block, which is unused.
                assert(j <= nb as int * spec_epb(sb)) by {
                    if j > nb as int * spec_epb(sb) {
                        let j0 = nb as int * spec_epb(sb);
                        assert(0 <= j0 < spec_dir_slots(sb, dv1)) by (nonlinear_arith)
                            requires
                                spec_dir_slots(sb, dv1) == (nb as int + 1) * spec_epb(sb),
                                j0 == nb as int * spec_epb(sb),
                                spec_epb(sb) >= 1,
                                nb as int >= 0,
                        ;
                        lemma_slot_converse(sb, nb as int, 0);
                        lemma_slot_location(sb, dv1, j0);
                        assert(spec_slot_data_index(sb, dv1, j0) == f as int);
                        assert(spec_slot(v2, dv1, j0).inum == 0) by {
                            let sub = v2.data[f as int].subrange(
                                spec_slot_off(sb, j0),
                                spec_slot_off(sb, j0) + DIRENTRY_SIZE,
                            );
                            assert(forall|x: int| 0 <= x < 8 ==> sub[x] == 0);
                            crate::records::lemma_zero_word(sub, 0);
                        }
                        assert(spec_slot(v2, dv1, j0).inum != 0);
                        assert(false);
                    }
                }
                // The new content of the written block, and the chosen
                // slot's prior state.
                assert(spec_slot_off(sb, j) == e as int * DIRENTRY_SIZE as int);
                assert(block.data@ == crate::byteops::splice(
                    v2.data[di as int],
                    spec_slot_off(sb, j),
                    crate::records::spec_de_enc(dir@),
                ));
                assert(vf.data == v2.data.update(di as int, block.data@));
                if j < nb as int * spec_epb(sb) {
                    assert(spec_slot(v2, dv1, j) == spec_slot(v0, dv0, j));
                    assert(spec_slot(v0, dv0, j).inum == 0);
                }
                assert((sb.datastart + f) as u64 as int - sb.datastart as int == f as int);
                assert(dv1.direct_blocks[spec_nblocks(dv0)] as int - sb.datastart as int
                    == f as int);
                let ghost dij = spec_slot_data_index(sb, dv1, j);
                assert(nb as int * spec_epb(sb) <= (nb as int + 1) * spec_epb(sb))
                    by (nonlinear_arith)
                    requires
                        spec_epb(sb) >= 1,
                        nb as int >= 0,
                ;
                assert(0 <= j < spec_dir_slots(sb, dv1));
                assert(j <= spec_dir_slots(sb, dv0));
                assert(j < spec_dir_slots(sb, dv0) ==> spec_slot(v0, dv0, j).inum == 0);
                assert(spec_slot(fs@, dv1, j) == dir@);
                assert(off as int == spec_slot_byte_offset(sb, j));
                assert forall|l: int| 0 <= l < j implies spec_slot(fs@, dv1, l) == spec_slot(
                    v0,
                    dv0,
                    l,
                ) && spec_slot(fs@, dv1, l).inum != 0 by {
                    assert(spec_slot(fs@, dv1, l) == spec_slot(v2, dv1, l));
                    assert(spec_slot(v2, dv1, l) == spec_slot(v0, dv0, l));
                }
                assert forall|l: int| j < l < spec_dir_slots(sb, dv0) implies spec_slot(
                    fs@,
                    dv1,
                    l,
                ) == spec_slot(v0, dv0, l) by {
                    assert(spec_slot(fs@, dv1, l) == spec_slot(v2, dv1, l));
                    assert(spec_slot(v2, dv1, l) == spec_slot(v0, dv0, l));
                }
                assert forall|p: int|
                    0 <= p < v0.data.len() && p != dij && p != f as int implies fs@.data[p]
                    == v0.data[p] by {}
                assert(fs@.data[dij] == crate::byteops::splice(
                    (if dij == f as int {
                        crate::device::zero_bytes(sb.block_size as int)
                    } else {
                        v0.data[dij]
                    }),
                    spec_slot_off(sb, j),
                    crate::records::spec_de_enc(dir@),
                ));
                assert(dij != f as int ==> fs@.data[f as int] == crate::device::zero_bytes(
                    sb.block_size as int,
                ));
                assert({
                    &&& 0 <= j < spec_dir_slots(sb, dv1)
                    &&& j <= spec_dir_slots(sb, dv0)
                    &&& (j < spec_dir_slots(sb, dv0) ==> spec_slot(v0, dv0, j).inum == 0)
                    &&& spec_slot(fs@, dv1, j) == dir@
                    &&& off as int == spec_slot_byte_offset(sb, j)
                    &&& (forall|l: int|
                        0 <= l < j ==> spec_slot(fs@, dv1, l) == spec_slot(v0, dv0, l)
                            && spec_slot(fs@, dv1, l).inum != 0)
                    &&& (forall|l: int|
                        j < l < spec_dir_slots(sb, dv0) ==> spec_slot(fs@, dv1, l) == spec_slot(
                            v0,
                            dv0,
                            l,
                        ))
                    &&& (forall|p: int|
                        0 <= p < v0.data.len() && p != dij && p != f as int ==> fs@.data[p]
                            == v0.data[p])
                    &&& fs@.data[dij] == crate::byteops::splice(
                        (if dij == f as int {
                            crate::device::zero_bytes(sb.block_size as int)
                        } else {
                            v0.data[dij]
                        }),
                        spec_slot_off(sb, j),
                        crate::records::spec_de_enc(dir@),
                    )
                    &&& (dij != f as int ==> fs@.data[f as int] == crate::device::zero_bytes(
                        sb.block_size as int,
                    ))
                });
                assert(fs@.inodes.len() == v0.inodes.len());
                assert forall|mm: int|
                    0 <= mm < v0.inodes.len() && mm != i as int implies fs@.inodes[mm]
                    == v0.inodes[mm] by {}
                assert(fs@.bitmap == v0.bitmap.update(f as int, true));
            }
            return Ok(off);
        }
        proof {
            assert(spec_slot(v2, dv1, m as int).inum != 0);
        }
        m += 1;
    }
    // Unreachable: the freshly attached block is zero-filled, so its first
    // slot reads as unused.
    proof {
        let j0 = nb as int * spec_epb(sb);
        lemma_epb_bounds(sb);
        lemma_slot_converse(sb, nb as int, 0);
        assert(0 <= j0 < n as int) by (nonlinear_arith)
            requires
                n as int == (nb as int + 1) * spec_epb(sb),
                j0 == nb as int * spec_epb(sb),
                spec_epb(sb) >= 1,
                nb as int >= 0,
        ;
        lemma_slot_location(sb, dv1, j0);
        assert(spec_slot_data_index(sb, dv1, j0) == f as int);
        assert(spec_slot(v2, dv1, j0).inum == 0) by {
            let sub = v2.data[f as int].subrange(
                spec_slot_off(sb, j0),
                spec_slot_off(sb, j0) + DIRENTRY_SIZE,
            );
            assert(forall|x: int| 0 <= x < 8 ==> sub[x] == 0);
            crate::records::lemma_zero_word(sub, 0);
        }
        assert(spec_slot(v2, dv1, j0).inum != 0);
        assert(false);
    }
    Err(FileSystemError::AllocationError)
}


impl FileSystem {
    /// Links `name` to inode `inum` inside the directory: validates the name
    /// and the directory, increments and persists the target's link count
    /// before the entry becomes visible (unless the directory links to
    /// itself), and inserts the entry, growing the directory by one data
    /// block if its populated blocks are full.  Returns the entry's byte
    /// offset inside the directory.
    pub fn dirlink(&mut self, inode: &mut Inode, name: &str, inum: u64) -> (r: Result<
        u64,
        FileSystemError,
    >)
        requires
            old(self).wf(),
            inv_inodes(old(self)@),
            DIRECT_POINTERS as int * old(self).superblock.block_size as int <= u64::MAX as int,
            inum < old(self).superblock.ninodes ==> old(self)@.inodes[inum as int].nlink
                < u64::MAX,
            old(inode).inum < old(self).superblock.ninodes ==> old(self)@.inodes[old(inode).inum as int].size + DIRENTRY_SIZE <= u64::MAX,
        ensures
            final(self).wf(),
            final(self).superblock == old(self).superblock,
            inv_inodes(final(self)@),
            final(inode).inum == old(inode).inum,
            ({
                let sb = old(self).superblock;
                let i = old(inode).inum as int;
                let nameb = name.spec_bytes();
                let dv0 = old(self)@.inodes[i];
                let de = DirEntryView { inum, name: pad_name(nameb) };
                let bumped = crate::records::DInodeView {
                    nlink: (old(self)@.inodes[inum as int].nlink + 1) as u64,
                    ..old(self)@.inodes[inum as int]
                };
                match r {
                    Ok(off) => {
                        let dvf = final(self)@.inodes[i];
                        let grow = dv0.size + DIRENTRY_SIZE > spec_dir_slots(sb, dv0)
                            * DIRENTRY_SIZE;
                        let f = dvf.direct_blocks[spec_nblocks(dv0)] as int
                            - sb.datastart as int;
                        &&& spec_valid_name(nameb)
                        &&& i < sb.ninodes
                        &&& dv0.ft == crate::records::FType::TDir
                        &&& (inum != old(inode).inum ==> inum < sb.ninodes && old(self)@.inodes[inum as int].ft != crate::records::FType::TFree)
                        &&& (inum != old(inode).inum ==> final(self)@.inodes[inum as int]
                            == bumped)
                        &&& final(inode).disk_node@ == dvf
                        &&& dvf.ft == crate::records::FType::TDir
                        &&& dvf.nlink == dv0.nlink
                        &&& dvf.size == dv0.size + DIRENTRY_SIZE
                        &&& (forall|m: int|
                            0 <= m < old(self)@.inodes.len() && m != i && m != inum as int
                                ==> final(self)@.inodes[m] == old(self)@.inodes[m])
                        &&& final(self)@.bitmap.len() == old(self)@.bitmap.len()
                        &&& final(self)@.data.len() == old(self)@.data.len()
                        &&& (!grow ==> dvf.direct_blocks == dv0.direct_blocks && final(self)@.bitmap == old(self)@.bitmap)
                        &&& (grow ==> {
                            &&& crate::blocks::is_first_free(old(self)@.bitmap, f)
                            &&& dvf.direct_blocks == dv0.direct_blocks.update(
                                spec_nblocks(dv0),
                                (sb.datastart as int + f) as u64,
                            )
                            &&& final(self)@.bitmap == old(self)@.bitmap.update(f, true)
                        })
                        &&& exists|j: int|
                            {
                                let dij = spec_slot_data_index(sb, dvf, j);
                                &&& 0 <= j < spec_dir_slots(sb, dvf)
                                &&& j <= spec_dir_slots(sb, dv0)
                                &&& (j < spec_dir_slots(sb, dv0) ==> spec_slot(
                                    old(self)@,
                                    dv0,
                                    j,
                                ).inum == 0)
                                &&& #[trigger] spec_slot(final(self)@, dvf, j) == de
                                &&& off as int == spec_slot_byte_offset(sb, j)
                                &&& (forall|l: int|
                                    0 <= l < j ==> spec_slot(final(self)@, dvf, l) == spec_slot(
                                        old(self)@,
                                        dv0,
                                        l,
                                    ) && spec_slot(final(self)@, dvf, l).inum != 0)
                                &&& (forall|l: int|
                                    j < l < spec_dir_slots(sb, dv0) ==> spec_slot(
                                        final(self)@,
                                        dvf,
                                        l,
                                    ) == spec_slot(old(self)@, dv0, l))
                                &&& (forall|p: int|
                                    0 <= p < old(self)@.data.len() && p != dij && (grow ==> p
                                        != f) ==> final(self)@.data[p] == old(self)@.data[p])
                                &&& final(self)@.data[dij] == crate::byteops::splice(
                                    (if grow && dij == f {
                                        crate::device::zero_bytes(sb.block_size as int)
                                    } else {
                                        old(self)@.data[dij]
                                    }),
                                    spec_slot_off(sb, j),
                                    crate::records::spec_de_enc(de),
                                )
                                &&& (grow && dij != f ==> final(self)@.data[f]
                                    == crate::device::zero_bytes(sb.block_size as int))
                            }
                    },
                    Err(e) => {
                        &&& *final(inode) == *old(inode)
                        &&& if !spec_valid_name(nameb) {
                            &&& e == FileSystemError::InvalidDirname
                            &&& *final(self) == *old(self)
                        } else if i >= sb.ninodes {
                            &&& e == FileSystemError::IndexOutOfBounds
                            &&& *final(self) == *old(self)
                        } else if dv0.ft != crate::records::FType::TDir {
                            &&& e == FileSystemError::INodeNotADirectory
                            &&& *final(self) == *old(self)
                        } else if inum != old(inode).inum && inum >= sb.ninodes {
                            &&& e == FileSystemError::IndexOutOfBounds
                            &&& *final(self) == *old(self)
                        } else if inum != old(inode).inum && old(self)@.inodes[inum as int].ft
                            == crate::records::FType::TFree {
                            &&& e == FileSystemError::INodeNotADirectory
                            &&& *final(self) == *old(self)
                        } else {
                            &&& e == FileSystemError::AllocationError
                            &&& ({
                                let grow = dv0.size + DIRENTRY_SIZE > spec_dir_slots(sb, dv0)
                                    * DIRENTRY_SIZE;
                                ||| (grow && spec_nblocks(dv0) == DIRECT_POINTERS)
                                ||| (grow && crate::blocks::all_allocated(old(self)@.bitmap))
                                ||| (!grow && (forall|l: int|
                                    0 <= l < spec_dir_slots(sb, dv0) ==> spec_slot(
                                        old(self)@,
                                        dv0,
                                        l,
                                    ).inum != 0))
                            })
                            &&& final(self)@.bitmap == old(self)@.bitmap
                            &&& final(self)@.data == old(self)@.data
                            &&& (inum != old(inode).inum ==> final(self)@.inodes == old(self)@.inodes.update(inum as int, bumped))
                            &&& (inum == old(inode).inum ==> *final(self) == *old(self))
                        }
                    },
                }
            }),
    {
        let ghost sb = old(self).superblock;
        let ghost v0 = old(self)@;
        let qlen = name.as_bytes().len();
        if qlen < 1 || qlen > DIRNAME_SIZE as usize || !is_valid_dirname(name) {
            return Err(FileSystemError::InvalidDirname);
        }
        let mut dir_ino = match self.i_get(inode.inum) {
            Ok(d) => d,
            Err(e) => {
                return Err(e);
            },
        };
        if !matches!(dir_ino.disk_node.ft, crate::records::FType::TDir) {
            return Err(FileSystemError::INodeNotADirectory);
        }
        if inum != inode.inum {
            let mut target = match self.i_get(inum) {
                Ok(t) => t,
                Err(e) => {
                    return Err(e);
                },
            };
            if matches!(target.disk_node.ft, crate::records::FType::TFree) {
                return Err(FileSystemError::INodeNotADirectory);
            }
            let ghost tdv = target.disk_node@;
            target.disk_node.nlink = target.disk_node.nlink + 1;
            match self.i_put(&target) {
                Ok(()) => {},
                Err(e) => {
                    proof {
                        assert(false);
                    }
                    return Err(e);
                },
            }
            proof {
                assert(crate::inodes::inode_ok(v0, tdv));
                crate::inodes::lemma_inv_same_pointers(
                    v0,
                    self@,
                    inum as int,
                    target.disk_node@,
                );
            }
        }
        let ghost v1 = self@;
        let de = match FileSystem::new_de(inum, name) {
            Some(de) => de,
            None => {
                proof {
                    assert(false);
                }
                return Err(FileSystemError::InvalidDirname);
            },
        };
        let ghost i = dir_ino.inum;
        proof {
            assert(v1.inodes[i as int] == v0.inodes[i as int]);
            assert(dir_ino.disk_node@ == v1.inodes[i as int]);
        }
        let off = match write_dir(self, &mut dir_ino, &de) {
            Ok(off) => off,
            Err(e) => {
                proof {
                    assert(v1.data == v0.data);
                    assert(v1.bitmap == v0.bitmap);
                    // The failure condition the insert reports reads the same
                    // over the pre-bump state: the bump changed no slot and
                    // no allocation bit.
                    let dv0 = v0.inodes[dir_ino.inum as int];
                    let grow = dv0.size + DIRENTRY_SIZE > spec_dir_slots(sb, dv0)
                        * DIRENTRY_SIZE;
                    if !grow {
                        assert forall|l: int|
                            0 <= l < spec_dir_slots(sb, dv0) implies spec_slot(
                            v0,
                            dv0,
                            l,
                        ).inum != 0 by {
                            assert(spec_slot(v1, dv0, l).inum != 0);
                            assert(spec_slot(v1, dv0, l) == spec_slot(v0, dv0, l));
                        }
                    }
                    if inum != old(inode).inum {
                        assert(self@.inodes =~= v0.inodes.update(
                            inum as int,
                            crate::records::DInodeView {
                                nlink: (v0.inodes[inum as int].nlink + 1) as u64,
                                ..v0.inodes[inum as int]
                            },
                        ));
                    }
                }
                return Err(e);
            },
        };
        let ghost vf = self@;
        let ghost dv0 = v0.inodes[i as int];
        proof {
            // The link-count bump touched neither the bitmap nor any data
            // block, so every slot reads the same over the pre-bump and
            // post-bump states.
            assert(v1.data == v0.data);
            assert(v1.bitmap == v0.bitmap);
            assert forall|l: int| #[trigger] spec_slot(v1, dv0, l) == spec_slot(v0, dv0, l) by {}
            let dvf = vf.inodes[i as int];
            let grow = dv0.size + DIRENTRY_SIZE > spec_dir_slots(sb, dv0) * DIRENTRY_SIZE;
            let f = dvf.direct_blocks[spec_nblocks(dv0)] as int - sb.datastart as int;
            let j = choose|j: int|
                {
                    let dij = spec_slot_data_index(sb, dvf, j);
                    &&& 0 <= j < spec_dir_slots(sb, dvf)
                    &&& j <= spec_dir_slots(sb, dv0)
                    &&& (j < spec_dir_slots(sb, dv0) ==> spec_slot(v1, dv0, j).inum == 0)
                    &&& #[trigger] spec_slot(vf, dvf, j) == de@
                    &&& off as int == spec_slot_byte_offset(sb, j)
                    &&& (forall|l: int|
                        0 <= l < j ==> spec_slot(vf, dvf, l) == spec_slot(v1, dv0, l)
                            && spec_slot(vf, dvf, l).inum != 0)
                    &&& (forall|l: int|
                        j < l < spec_dir_slots(sb, dv0) ==> spec_slot(vf, dvf, l) == spec_slot(
                            v1,
                            dv0,
                            l,
                        ))
                    &&& (forall|p: int|
                        0 <= p < v1.data.len() && p != dij && (grow ==> p != f) ==> vf.data[p]
                            == v1.data[p])
                    &&& vf.data[dij] == crate::byteops::splice(
                        (if grow && dij == f {
                            crate::device::zero_bytes(sb.block_size as int)
                        } else {
                            v1.data[dij]
                        }),
                        spec_slot_off(sb, j),
                        crate::records::spec_de_enc(de@),
                    )
                    &&& (grow && dij != f ==> vf.data[f] == crate::device::zero_bytes(
                        sb.block_size as int,
                    ))
                };
            assert forall|l: int| 0 <= l < j implies spec_slot(vf, dvf, l) == spec_slot(
                v0,
                dv0,
                l,
            ) && spec_slot(vf, dvf, l).inum != 0 by {
                assert(spec_slot(v1, dv0, l) == spec_slot(v0, dv0, l));
            }
            assert forall|l: int| j < l < spec_dir_slots(sb, dv0) implies spec_slot(vf, dvf, l)
                == spec_slot(v0, dv0, l) by {
                assert(spec_slot(v1, dv0, l) == spec_slot(v0, dv0, l));
            }
            assert({
                let dij = spec_slot_data_index(sb, dvf, j);
                &&& 0 <= j < spec_dir_slots(sb, dvf)
                &&& j <= spec_dir_slots(sb, dv0)
                &&& (j < spec_dir_slots(sb, dv0) ==> spec_slot(v0, dv0, j).inum == 0)
                &&& spec_slot(vf, dvf, j) == de@
                &&& off as int == spec_slot_byte_offset(sb, j)
                &&& (forall|l: int|
                    0 <= l < j ==> spec_slot(vf, dvf, l) == spec_slot(v0, dv0, l) && spec_slot(
                        vf,
                        dvf,
                        l,
                    ).inum != 0)
                &&& (forall|l: int|
                    j < l < spec_dir_slots(sb, dv0) ==> spec_slot(vf, dvf, l) == spec_slot(
                        v0,
                        dv0,
                        l,
                    ))
                &&& (forall|p: int|
                    0 <= p < v0.data.len() && p != dij && (grow ==> p != f) ==> vf.data[p]
                        == v0.data[p])
                &&& vf.data[dij] == crate::byteops::splice(
                    (if grow && dij == f {
                        crate::device::zero_bytes(sb.block_size as int)
                    } else {
                        v0.data[dij]
                    }),
                    spec_slot_off(sb, j),
                    crate::records::spec_de_enc(de@),
                )
                &&& (grow && dij != f ==> vf.data[f] == crate::device::zero_bytes(
                    sb.block_size as int,
                ))
            });
            assert(de@ == DirEntryView { inum, name: pad_name(name.spec_bytes()) });
            if inum != old(inode).inum {
                assert(vf.inodes[inum as int] == v1.inodes[inum as int]);
            }
        }
        *inode = dir_ino;
        Ok(off)
    }
}

} // verus!
