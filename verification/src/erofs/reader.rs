//! Typed views over a composefs EROFS image: the header, the superblock,
//! inodes with their extended attributes and inline payloads, shared
//! extended attributes, and directory blocks. Every decoded field is pinned
//! to the little-endian bytes it came from.

use vstd::prelude::*;
use vstd::bytes::{spec_u16_from_le_bytes, spec_u32_from_le_bytes, spec_u64_from_le_bytes};
use vstd::bytes::{u16_from_le_bytes, u32_from_le_bytes, u64_from_le_bytes};
use vstd::slice::{slice_subrange, slice_to_vec};
use crate::erofs::format::{
    DataLayout, FileType, FormatError, FormatField, spec_data_layout_of, spec_file_type_of,
    spec_inode_layout_of, InodeLayout, COMPOSEFS_MAGIC, MAGIC_V1,
};

verus! {

/// Errors produced while decoding an image.
#[derive(Clone, Copy, Debug, PartialEq, Eq, Structural)]
pub enum ImageError {
    /// The composefs header or the superblock magic does not match.
    BadMagic,
    /// A typed view would extend past the end of the image, or a record is
    /// malformed so that its extent cannot be trusted.
    TruncatedImage,
    /// An inode carries unrecognized data-layout bits.
    InvalidDataLayout,
    /// Two walks reached the same offset with different ideas of what lies
    /// there.
    SegmentMismatch,
}

/// The 16-bit little-endian integer at `off`.
pub open spec fn le16(s: Seq<u8>, off: int) -> u16 {
    spec_u16_from_le_bytes(s.subrange(off, off + 2))
}

/// The 32-bit little-endian integer at `off`.
pub open spec fn le32(s: Seq<u8>, off: int) -> u32 {
    spec_u32_from_le_bytes(s.subrange(off, off + 4))
}

/// The 64-bit little-endian integer at `off`.
pub open spec fn le64(s: Seq<u8>, off: int) -> u64 {
    spec_u64_from_le_bytes(s.subrange(off, off + 8))
}

/// Read the 16-bit little-endian integer at `off`.
pub fn read_le16(data: &[u8], off: usize) -> (r: u16)
    requires
        off + 2 <= data@.len(),
    ensures
        r == le16(data@, off as int),
{
    let _n: usize = data.len();
    u16_from_le_bytes(slice_subrange(data, off, off + 2))
}

/// Read the 32-bit little-endian integer at `off`.
pub fn read_le32(data: &[u8], off: usize) -> (r: u32)
    requires
        off + 4 <= data@.len(),
    ensures
        r == le32(data@, off as int),
{
    let _n: usize = data.len();
    u32_from_le_bytes(slice_subrange(data, off, off + 4))
}

/// Read the 64-bit little-endian integer at `off`.
pub fn read_le64(data: &[u8], off: usize) -> (r: u64)
    requires
        off + 8 <= data@.len(),
    ensures
        r == le64(data@, off as int),
{
    let _n: usize = data.len();
    u64_from_le_bytes(slice_subrange(data, off, off + 8))
}

/// The 32-byte composefs header at the start of an image.
#[derive(Debug)]
pub struct ComposefsHeader {
    pub magic: u32,
    pub version: u32,
    pub flags: u32,
    pub composefs_version: u32,
    pub unused: Vec<u32>,
}

/// The decoded fields of a composefs header match the bytes at `off`.
pub open spec fn composefs_header_matches(h: ComposefsHeader, s: Seq<u8>, off: int) -> bool {
    &&& h.magic == le32(s, off)
    &&& h.version == le32(s, off + 4)
    &&& h.flags == le32(s, off + 8)
    &&& h.composefs_version == le32(s, off + 12)
    &&& h.unused@.len() == 4
    &&& forall|k: int| 0 <= k < 4 ==> h.unused@[k] == le32(s, off + 16 + 4 * k)
}

impl ComposefsHeader {
    /// Decode the header from the 32 bytes at `off`.
    pub fn decode(data: &[u8], off: usize) -> (r: ComposefsHeader)
        requires
            off + 32 <= data@.len(),
        ensures
            composefs_header_matches(r, data@, off as int),
    {
        let _n: usize = data.len();
        let mut unused: Vec<u32> = Vec::new();
        unused.push(read_le32(data, off + 16));
        unused.push(read_le32(data, off + 20));
        unused.push(read_le32(data, off + 24));
        unused.push(read_le32(data, off + 28));
        ComposefsHeader {
            magic: read_le32(data, off),
            version: read_le32(data, off + 4),
            flags: read_le32(data, off + 8),
            composefs_version: read_le32(data, off + 12),
            unused,
        }
    }
}

/// The 128-byte EROFS superblock.
#[derive(Debug)]
pub struct Superblock {
    pub magic: u32,
    pub checksum: u32,
    pub feature_compat: u32,
    pub blkszbits: u8,
    pub extslots: u8,
    pub root_nid: u16,
    pub inos: u64,
    pub build_time: u64,
    pub build_time_nsec: u32,
    pub blocks: u32,
    pub meta_blkaddr: u32,
    pub xattr_blkaddr: u32,
    pub uuid: Vec<u8>,
    pub volume_name: Vec<u8>,
    pub feature_incompat: u32,
    pub available_compr_algs: u16,
    pub extra_devices: u16,
    pub devt_slotoff: u16,
    pub dirblkbits: u8,
    pub xattr_prefix_count: u8,
    pub xattr_prefix_start: u32,
    pub packed_nid: u64,
    pub xattr_filter_reserved: u8,
    pub reserved2: Vec<u8>,
}

/// The decoded fields of a superblock match the bytes at `off`.
pub open spec fn superblock_matches(b: Superblock, s: Seq<u8>, off: int) -> bool {
    &&& b.magic == le32(s, off)
    &&& b.checksum == le32(s, off + 4)
    &&& b.feature_compat == le32(s, off + 8)
    &&& b.blkszbits == s[off + 12]
    &&& b.extslots == s[off + 13]
    &&& b.root_nid == le16(s, off + 14)
    &&& b.inos == le64(s, off + 16)
    &&& b.build_time == le64(s, off + 24)
    &&& b.build_time_nsec == le32(s, off + 32)
    &&& b.blocks == le32(s, off + 36)
    &&& b.meta_blkaddr == le32(s, off + 40)
    &&& b.xattr_blkaddr == le32(s, off + 44)
    &&& b.uuid@ == s.subrange(off + 48, off + 64)
    &&& b.volume_name@ == s.subrange(off + 64, off + 80)
    &&& b.feature_incompat == le32(s, off + 80)
    &&& b.available_compr_algs == le16(s, off + 84)
    &&& b.extra_devices == le16(s, off + 86)
    &&& b.devt_slotoff == le16(s, off + 88)
    &&& b.dirblkbits == s[off + 90]
    &&& b.xattr_prefix_count == s[off + 91]
    &&& b.xattr_prefix_start == le32(s, off + 92)
    &&& b.packed_nid == le64(s, off + 96)
    &&& b.xattr_filter_reserved == s[off + 104]
    &&& b.reserved2@ == s.subrange(off + 105, off + 128)
}

impl Superblock {
    /// Decode the superblock from the 128 bytes at `off`.
    pub fn decode(data: &[u8], off: usize) -> (r: Superblock)
        requires
            off + 128 <= data@.len(),
        ensures
            superblock_matches(r, data@, off as int),
    {
        let _n: usize = data.len();
        Superblock {
            magic: read_le32(data, off),
            checksum: read_le32(data, off + 4),
            feature_compat: read_le32(data, off + 8),
            blkszbits: data[off + 12],
            extslots: data[off + 13],
            root_nid: read_le16(data, off + 14),
            inos: read_le64(data, off + 16),
            build_time: read_le64(data, off + 24),
            build_time_nsec: read_le32(data, off + 32),
            blocks: read_le32(data, off + 36),
            meta_blkaddr: read_le32(data, off + 40),
            xattr_blkaddr: read_le32(data, off + 44),
            uuid: slice_to_vec(slice_subrange(data, off + 48, off + 64)),
            volume_name: slice_to_vec(slice_subrange(data, off + 64, off + 80)),
            feature_incompat: read_le32(data, off + 80),
            available_compr_algs: read_le16(data, off + 84),
            extra_devices: read_le16(data, off + 86),
            devt_slotoff: read_le16(data, off + 88),
            dirblkbits: data[off + 90],
            xattr_prefix_count: data[off + 91],
            xattr_prefix_start: read_le32(data, off + 92),
            packed_nid: read_le64(data, off + 96),
            xattr_filter_reserved: data[off + 104],
            reserved2: slice_to_vec(slice_subrange(data, off + 105, off + 128)),
        }
    }
}

/// The fixed fields of one extended attribute record.
#[derive(Clone, Copy, Debug, PartialEq, Eq, Structural)]
pub struct XAttrHeader {
    pub name_len: u8,
    pub name_index: u8,
    pub value_size: u16,
}

/// One decoded extended attribute: header, name suffix, value, and the
/// padding that rounds the record up to a 4-byte boundary.
#[derive(Debug)]
pub struct XAttr {
    pub header: XAttrHeader,
    pub suffix: Vec<u8>,
    pub value: Vec<u8>,
    pub padding: Vec<u8>,
}

/// The stored length of an xattr record: header, suffix and value, padded
/// up to a 4-byte boundary.
pub open spec fn xattr_total_len(name_len: u8, value_size: u16) -> int {
    ((4 + name_len + value_size + 3) / 4) * 4
}

/// Every serialized xattr record occupies a multiple of 4 bytes.
pub proof fn lemma_xattr_record_aligned(name_len: u8, value_size: u16)
    ensures
        xattr_total_len(name_len, value_size) % 4 == 0,
        xattr_total_len(name_len, value_size) >= 4 + name_len + value_size,
        xattr_total_len(name_len, value_size) < 4 + name_len + value_size + 4,
{
    let l = 4 + name_len + value_size;
    assert(((l + 3) / 4) * 4 % 4 == 0) by (nonlinear_arith);
    assert(((l + 3) / 4) * 4 >= l && ((l + 3) / 4) * 4 < l + 4) by (nonlinear_arith);
}

/// A decoded xattr matches the record at `off`.
pub open spec fn xattr_matches(x: XAttr, s: Seq<u8>, off: int) -> bool {
    &&& x.header.name_len == s[off]
    &&& x.header.name_index == s[off + 1]
    &&& x.header.value_size == le16(s, off + 2)
    &&& x.suffix@ == s.subrange(off + 4, off + 4 + x.header.name_len)
    &&& x.value@ == s.subrange(
        off + 4 + x.header.name_len,
        off + 4 + x.header.name_len + x.header.value_size,
    )
    &&& x.padding@ == s.subrange(
        off + 4 + x.header.name_len + x.header.value_size,
        off + xattr_total_len(s[off], le16(s, off + 2)),
    )
}

/// Decode the xattr record at `off`, whose padded extent must stay within
/// `limit`.
pub fn decode_xattr(data: &[u8], off: usize, limit: usize) -> (r: Result<XAttr, ImageError>)
    requires
        limit <= data@.len(),
    ensures
        match r {
            Ok(x) => off + 4 <= limit && off + xattr_total_len(data@[off as int], le16(data@, off
                as int + 2)) <= limit && xattr_matches(x, data@, off as int),
            Err(e) => e == ImageError::TruncatedImage && !(off + 4 <= limit && off
                + xattr_total_len(data@[off as int], le16(data@, off as int + 2)) <= limit),
        },
{
    if off > limit || limit - off < 4 {
        return Err(ImageError::TruncatedImage);
    }
    let name_len = data[off];
    let name_index = data[off + 1];
    let value_size = read_le16(data, off + 2);
    proof {
        lemma_xattr_record_aligned(name_len, value_size);
    }
    let body: usize = 4 + (name_len as usize) + (value_size as usize);
    let total: usize = ((body + 3) / 4) * 4;
    if limit - off < total {
        return Err(ImageError::TruncatedImage);
    }
    let suffix = slice_to_vec(slice_subrange(data, off + 4, off + 4 + name_len as usize));
    let value = slice_to_vec(
        slice_subrange(data, off + 4 + name_len as usize, off + body),
    );
    let padding = slice_to_vec(slice_subrange(data, off + body, off + total));
    Ok(XAttr { header: XAttrHeader { name_len, name_index, value_size }, suffix, value, padding })
}

/// One decoded directory entry: the inode it names, its type byte, and its
/// name bytes.
#[derive(Debug)]
pub struct DirectoryEntry {
    pub inode: u64,
    pub file_type: FileType,
    pub name: Vec<u8>,
}

/// The fixed 12-byte header of a directory entry.
#[derive(Clone, Copy, Debug, PartialEq, Eq, Structural)]
pub struct DirectoryEntryHeader {
    pub inode_offset: u64,
    pub name_offset: u16,
    pub file_type: u8,
    pub reserved: u8,
}

/// The name offset stored in the `i`-th entry header of a block.
pub open spec fn dirent_name_off(s: Seq<u8>, i: int) -> int {
    le16(s, 12 * i + 8) as int
}

/// The end of the `i`-th name in a block of `n` entries: the next entry's
/// name offset, or the end of the block for the last entry. The given
/// bytes are taken to be the block's used bytes, which is exact for the
/// inline fragments composefs emits; a full block whose tail is padding
/// would fold that padding into its last name, so callers hand in the
/// used extent.
pub open spec fn dirent_name_end(s: Seq<u8>, i: int, n: int) -> int {
    if i + 1 < n {
        dirent_name_off(s, i + 1)
    } else {
        s.len() as int
    }
}

/// The extents of the `i`-th name are ordered, start after the header
/// array, and stay within the block.
pub open spec fn dirent_ok(s: Seq<u8>, i: int, n: int) -> bool {
    &&& dirent_name_off(s, i) <= dirent_name_end(s, i, n)
    &&& dirent_name_off(s, i) >= 12 * n
    &&& dirent_name_end(s, i, n) <= s.len()
}

/// A well-formed directory block: at least one 12-byte entry header, the
/// first name offset exactly covering the header array, and name extents
/// that are ordered and stay within the block.
pub open spec fn dirblock_ok(s: Seq<u8>) -> bool {
    let n = dirent_name_off(s, 0) / 12;
    &&& s.len() >= 12
    &&& dirent_name_off(s, 0) % 12 == 0
    &&& n >= 1
    &&& 12 * n <= s.len()
    &&& forall|i: int| 0 <= i < n ==> #[trigger] dirent_ok(s, i, n)
}

/// The number of entries of a well-formed directory block.
pub open spec fn dirblock_count(s: Seq<u8>) -> int {
    dirent_name_off(s, 0) / 12
}

/// Entry `i` was decoded from the block bytes: the inode number and type
/// byte from its header, the name from its extent.
pub open spec fn dirent_matches(e: DirectoryEntry, s: Seq<u8>, i: int, n: int) -> bool {
    &&& e.inode == le64(s, 12 * i)
    &&& e.file_type == spec_file_type_of(s[12 * i + 10])
    &&& e.name@ == s.subrange(dirent_name_off(s, i), dirent_name_end(s, i, n))
}

/// The decoded entries match the block bytes.
pub open spec fn dirblock_matches(entries: Seq<DirectoryEntry>, s: Seq<u8>) -> bool {
    let n = dirblock_count(s);
    &&& entries.len() == n
    &&& forall|i: int| 0 <= i < n ==> dirent_matches(#[trigger] entries[i], s, i, n)
}

/// A decoded directory block: its entries in stored order.
#[derive(Debug)]
pub struct DirectoryBlock {
    pub entries: Vec<DirectoryEntry>,
}

impl DirectoryBlock {
    /// The entries of the block, in stored order.
    pub fn entries(&self) -> (r: &Vec<DirectoryEntry>)
        ensures
            r == &self.entries,
    {
        &self.entries
    }

    /// Decode a directory block from its used bytes: the packed entry
    /// headers, then the concatenated names. The last entry's name runs to
    /// the end of the given bytes, so the caller passes the used extent,
    /// not a padded one.
    #[verifier::rlimit(60)]
    pub fn decode(block: &[u8]) -> (r: Result<DirectoryBlock, ImageError>)
        ensures
            match r {
                Ok(b) => dirblock_ok(block@) && dirblock_matches(b.entries@, block@),
                Err(e) => e == ImageError::TruncatedImage && !dirblock_ok(block@),
            },
    {
        let blen: usize = block.len();
        if blen < 12 {
            return Err(ImageError::TruncatedImage);
        }
        let off0 = read_le16(block, 8) as usize;
        if off0 % 12 != 0 {
            return Err(ImageError::TruncatedImage);
        }
        let n = off0 / 12;
        if n < 1 {
            return Err(ImageError::TruncatedImage);
        }
        if off0 > blen {
            return Err(ImageError::TruncatedImage);
        }
        proof {
            assert(dirent_name_off(block@, 0) == off0 as int);
            assert(12 * (n as int) == off0 as int);
        }
        let mut entries: Vec<DirectoryEntry> = Vec::new();
        let mut i: usize = 0;
        while i < n
            invariant
                0 <= i <= n,
                n >= 1,
                blen == block@.len(),
                off0 as int == 12 * (n as int),
                off0 <= blen,
                dirent_name_off(block@, 0) == off0 as int,
                n == dirblock_count(block@),
                blen >= 12,
                entries@.len() == i,
                forall|j: int| 0 <= j < i ==> #[trigger] dirent_ok(block@, j, n as int),
                forall|j: int|
                    0 <= j < i ==> dirent_matches(
                        #[trigger] entries@[j],
                        block@,
                        j,
                        n as int,
                    ),
            decreases n - i,
        {
            proof {
                assert(12 * (i as int) + 12 <= 12 * (n as int)) by (nonlinear_arith)
                    requires
                        i < n,
                ;
            }
            let inode = read_le64(block, 12 * i);
            let ftype = block[12 * i + 10];
            let name_start = read_le16(block, 12 * i + 8) as usize;
            let name_end: usize = if i + 1 < n {
                read_le16(block, 12 * (i + 1) + 8) as usize
            } else {
                blen
            };
            proof {
                assert(dirent_name_off(block@, i as int) == name_start as int);
                assert(dirent_name_end(block@, i as int, n as int) == name_end as int);
            }
            if name_start < off0 || name_start > name_end || name_end > blen {
                proof {
                    assert(!dirent_ok(block@, i as int, n as int));
                }
                return Err(ImageError::TruncatedImage);
            }
            let name = slice_to_vec(slice_subrange(block, name_start, name_end));
            entries.push(
                DirectoryEntry { inode, file_type: FileType::from_byte(ftype), name },
            );
            proof {
                assert(dirent_ok(block@, i as int, n as int));
                assert(dirent_matches(entries@[i as int], block@, i as int, n as int));
            }
            i = i + 1;
        }
        Ok(DirectoryBlock { entries })
    }
}


/// The stored length of an inode's xattr area: nothing when `xattr_icount`
/// is zero, else the 12-byte header plus 4 bytes for every further count
/// unit.
pub open spec fn xattr_area_len(icount: u16) -> int {
    if icount == 0 {
        0
    } else {
        12 + 4 * (icount - 1)
    }
}

/// The record length stored at `pos`.
pub open spec fn xattr_total_at(s: Seq<u8>, pos: int) -> int {
    xattr_total_len(s[pos], le16(s, pos + 2))
}

/// The bytes from `pos` to `end` parse as a packed run of xattr records.
pub open spec fn xattrs_ok(s: Seq<u8>, pos: int, end: int) -> bool
    decreases end - pos,
    via xattrs_ok_dec
{
    if pos >= end {
        pos == end
    } else if pos + 4 > end {
        false
    } else {
        pos + xattr_total_at(s, pos) <= end && xattrs_ok(s, pos + xattr_total_at(s, pos), end)
    }
}

#[via_fn]
proof fn xattrs_ok_dec(s: Seq<u8>, pos: int, end: int) {
    if pos < end && pos + 4 <= end {
        lemma_xattr_record_aligned(s[pos], le16(s, pos + 2));
    }
}

/// How many records the run from `pos` to `end` holds.
pub open spec fn xattrs_count(s: Seq<u8>, pos: int, end: int) -> int
    decreases end - pos,
    via xattrs_count_dec
{
    if pos >= end {
        0
    } else if pos + 4 > end {
        0
    } else if pos + xattr_total_at(s, pos) > end {
        0
    } else {
        1 + xattrs_count(s, pos + xattr_total_at(s, pos), end)
    }
}

#[via_fn]
proof fn xattrs_count_dec(s: Seq<u8>, pos: int, end: int) {
    if pos < end && pos + 4 <= end {
        lemma_xattr_record_aligned(s[pos], le16(s, pos + 2));
    }
}

/// The offset of the `k`-th record of a packed run starting at `pos`.
pub open spec fn nth_xattr_off(s: Seq<u8>, pos: int, k: int) -> int
    decreases k,
{
    if k <= 0 {
        pos
    } else {
        nth_xattr_off(s, pos + xattr_total_at(s, pos), k - 1)
    }
}

/// Advancing the start of a run by one record shifts its record offsets.
pub proof fn lemma_nth_xattr_off_step(s: Seq<u8>, pos: int, k: int)
    requires
        k >= 0,
    ensures
        nth_xattr_off(s, pos, k + 1) == nth_xattr_off(s, pos + xattr_total_at(s, pos), k),
{
}

/// The decoded records `v` are exactly the packed run from `start` to
/// `end`.
pub open spec fn local_xattrs_match(v: Seq<XAttr>, s: Seq<u8>, start: int, end: int) -> bool {
    &&& v.len() == xattrs_count(s, start, end)
    &&& forall|k: int|
        0 <= k < v.len() ==> xattr_matches(#[trigger] v[k], s, nth_xattr_off(s, start, k))
}

/// Parse the packed run of xattr records between `start` and `end`.
pub fn parse_local_xattrs(data: &[u8], start: usize, end: usize) -> (r: Result<
    Vec<XAttr>,
    ImageError,
>)
    requires
        start <= end <= data@.len(),
    ensures
        match r {
            Ok(v) => xattrs_ok(data@, start as int, end as int) && local_xattrs_match(
                v@,
                data@,
                start as int,
                end as int,
            ),
            Err(e) => e == ImageError::TruncatedImage && !xattrs_ok(
                data@,
                start as int,
                end as int,
            ),
        },
{
    let _n: usize = data.len();
    let ghost s = data@;
    let mut out: Vec<XAttr> = Vec::new();
    let mut pos: usize = start;
    while pos < end
        invariant
            start <= pos <= end <= s.len(),
            s == data@,
            xattrs_ok(s, start as int, end as int) == xattrs_ok(s, pos as int, end as int),
            xattrs_count(s, start as int, end as int) == out@.len() + xattrs_count(
                s,
                pos as int,
                end as int,
            ),
            pos as int == nth_xattr_off(s, start as int, out@.len() as int),
            forall|k: int|
                0 <= k < out@.len() ==> xattr_matches(
                    #[trigger] out@[k],
                    s,
                    nth_xattr_off(s, start as int, k),
                ),
        decreases end - pos,
    {
        let x = match decode_xattr(data, pos, end) {
            Ok(x) => x,
            Err(e) => {
                proof {
                    assert(!xattrs_ok(s, pos as int, end as int));
                }
                return Err(e);
            },
        };
        let body: usize = 4 + (x.header.name_len as usize) + (x.header.value_size as usize);
        let total: usize = ((body + 3) / 4) * 4;
        proof {
            lemma_xattr_record_aligned(x.header.name_len, x.header.value_size);
            assert(total as int == xattr_total_at(s, pos as int));
        }
        let ghost k0 = out@.len() as int;
        out.push(x);
        proof {
            assert forall|k: int|
                0 <= k < out@.len() implies xattr_matches(
                #[trigger] out@[k],
                s,
                nth_xattr_off(s, start as int, k),
            ) by {
                if k < k0 {
                    assert(out@[k] == out@.subrange(0, k0)[k]);
                }
            }
            assert(xattrs_count(s, pos as int, end as int) == 1 + xattrs_count(
                s,
                pos as int + total as int,
                end as int,
            ));
            lemma_nth_xattr_off_all(s, start as int, k0, pos as int);
        }
        pos = pos + total;
    }
    proof {
        assert(xattrs_ok(s, end as int, end as int));
        assert(xattrs_count(s, end as int, end as int) == 0);
    }
    Ok(out)
}

/// Each record offset advances by the length of the record before it.
proof fn lemma_nth_xattr_off_all(s: Seq<u8>, start: int, k: int, pos: int)
    requires
        k >= 0,
        pos == nth_xattr_off(s, start, k),
    ensures
        nth_xattr_off(s, start, k + 1) == pos + xattr_total_at(s, pos),
    decreases k,
{
    if k > 0 {
        lemma_nth_xattr_off_all(s, start + xattr_total_at(s, start), k - 1, pos);
    } else {
        assert(nth_xattr_off(s, start + xattr_total_at(s, start), 0) == start + xattr_total_at(
            s,
            start,
        ));
    }
}

/// The fixed header of an inode's xattr area.
#[derive(Debug)]
pub struct InodeXAttrHeader {
    pub name_filter: u32,
    pub shared_count: u8,
    pub reserved: Vec<u8>,
}

/// An inode's extended attributes: the area header, the referenced shared
/// xattr ids, and the inline records.
#[derive(Debug)]
pub struct InodeXAttrs {
    pub header: InodeXAttrHeader,
    pub shared: Vec<u32>,
    pub local: Vec<XAttr>,
}

/// The decoded xattr area matches the bytes at `off`, whose stored length
/// is `xattr_area_len(icount)`.
pub open spec fn inode_xattrs_match(x: InodeXAttrs, s: Seq<u8>, off: int, icount: u16) -> bool {
    let area_end = off + xattr_area_len(icount);
    let local_start = off + 12 + 4 * x.header.shared_count;
    &&& x.header.name_filter == le32(s, off)
    &&& x.header.shared_count == s[off + 4]
    &&& x.header.reserved@ == s.subrange(off + 5, off + 12)
    &&& x.shared@.len() == x.header.shared_count
    &&& forall|k: int| 0 <= k < x.shared@.len() ==> x.shared@[k] == le32(s, off + 12 + 4 * k)
    &&& local_xattrs_match(x.local@, s, local_start, area_end)
}

/// The compact (32-byte) inode header.
#[derive(Debug)]
pub struct CompactInodeHeader {
    pub format: FormatField,
    pub xattr_icount: u16,
    pub mode: u16,
    pub nlink: u16,
    pub size: u32,
    pub reserved: u32,
    pub u: u32,
    pub ino: u32,
    pub uid: u16,
    pub gid: u16,
    pub reserved2: Vec<u8>,
}

/// The decoded compact header matches the 32 bytes at `off`.
pub open spec fn compact_header_matches(h: CompactInodeHeader, s: Seq<u8>, off: int) -> bool {
    &&& h.format.0 == le16(s, off)
    &&& h.xattr_icount == le16(s, off + 2)
    &&& h.mode == le16(s, off + 4)
    &&& h.nlink == le16(s, off + 6)
    &&& h.size == le32(s, off + 8)
    &&& h.reserved == le32(s, off + 12)
    &&& h.u == le32(s, off + 16)
    &&& h.ino == le32(s, off + 20)
    &&& h.uid == le16(s, off + 24)
    &&& h.gid == le16(s, off + 26)
    &&& h.reserved2@ == s.subrange(off + 28, off + 32)
}

/// The extended (64-byte) inode header.
#[derive(Debug)]
pub struct ExtendedInodeHeader {
    pub format: FormatField,
    pub xattr_icount: u16,
    pub mode: u16,
    pub reserved: u16,
    pub size: u64,
    pub u: u32,
    pub ino: u32,
    pub uid: u32,
    pub gid: u32,
    pub mtime: u64,
    pub mtime_nsec: u32,
    pub nlink: u32,
    pub reserved2: Vec<u8>,
}

/// The decoded extended header matches the 64 bytes at `off`.
pub open spec fn extended_header_matches(h: ExtendedInodeHeader, s: Seq<u8>, off: int) -> bool {
    &&& h.format.0 == le16(s, off)
    &&& h.xattr_icount == le16(s, off + 2)
    &&& h.mode == le16(s, off + 4)
    &&& h.reserved == le16(s, off + 6)
    &&& h.size == le64(s, off + 8)
    &&& h.u == le32(s, off + 16)
    &&& h.ino == le32(s, off + 20)
    &&& h.uid == le32(s, off + 24)
    &&& h.gid == le32(s, off + 28)
    &&& h.mtime == le64(s, off + 32)
    &&& h.mtime_nsec == le32(s, off + 40)
    &&& h.nlink == le32(s, off + 44)
    &&& h.reserved2@ == s.subrange(off + 48, off + 64)
}

/// One of the two stored inode header forms.
#[derive(Debug)]
pub enum InodeHeader {
    Compact(CompactInodeHeader),
    Extended(ExtendedInodeHeader),
}

/// A fully decoded inode: its header, xattr area and inline payload, with
/// the image offset and length of the whole view.
#[derive(Debug)]
pub struct Inode {
    pub nid: u64,
    pub offset: u64,
    pub total_len: u64,
    pub header: InodeHeader,
    pub xattrs: Option<InodeXAttrs>,
    pub inline: Vec<u8>,
}

impl Inode {
    /// The raw format field.
    pub fn format(&self) -> (r: FormatField)
        ensures
            r == match self.header {
                InodeHeader::Compact(h) => h.format,
                InodeHeader::Extended(h) => h.format,
            },
    {
        match &self.header {
            InodeHeader::Compact(h) => h.format,
            InodeHeader::Extended(h) => h.format,
        }
    }

    /// The file mode, type bits included.
    pub fn mode(&self) -> (r: u16)
        ensures
            r == match self.header {
                InodeHeader::Compact(h) => h.mode,
                InodeHeader::Extended(h) => h.mode,
            },
    {
        match &self.header {
            InodeHeader::Compact(h) => h.mode,
            InodeHeader::Extended(h) => h.mode,
        }
    }

    /// The payload size in bytes.
    pub fn size(&self) -> (r: u64)
        ensures
            r == match self.header {
                InodeHeader::Compact(h) => h.size as u64,
                InodeHeader::Extended(h) => h.size,
            },
    {
        match &self.header {
            InodeHeader::Compact(h) => h.size as u64,
            InodeHeader::Extended(h) => h.size,
        }
    }

    /// The link count.
    pub fn nlink(&self) -> (r: u32)
        ensures
            r == match self.header {
                InodeHeader::Compact(h) => h.nlink as u32,
                InodeHeader::Extended(h) => h.nlink,
            },
    {
        match &self.header {
            InodeHeader::Compact(h) => h.nlink as u32,
            InodeHeader::Extended(h) => h.nlink,
        }
    }

    /// The owner's user id.
    pub fn uid(&self) -> (r: u32)
        ensures
            r == match self.header {
                InodeHeader::Compact(h) => h.uid as u32,
                InodeHeader::Extended(h) => h.uid,
            },
    {
        match &self.header {
            InodeHeader::Compact(h) => h.uid as u32,
            InodeHeader::Extended(h) => h.uid,
        }
    }

    /// The owner's group id.
    pub fn gid(&self) -> (r: u32)
        ensures
            r == match self.header {
                InodeHeader::Compact(h) => h.gid as u32,
                InodeHeader::Extended(h) => h.gid,
            },
    {
        match &self.header {
            InodeHeader::Compact(h) => h.gid as u32,
            InodeHeader::Extended(h) => h.gid,
        }
    }

    /// The `u` field: the first physical block of the payload.
    pub fn u(&self) -> (r: u32)
        ensures
            r == match self.header {
                InodeHeader::Compact(h) => h.u,
                InodeHeader::Extended(h) => h.u,
            },
    {
        match &self.header {
            InodeHeader::Compact(h) => h.u,
            InodeHeader::Extended(h) => h.u,
        }
    }

    /// The inline payload bytes, empty unless the data layout is
    /// `FlatInline`.
    pub fn inline(&self) -> (r: &Vec<u8>)
        ensures
            r == &self.inline,
    {
        &self.inline
    }

    /// The inode's extended attributes, if it has any.
    pub fn xattrs(&self) -> (r: &Option<InodeXAttrs>)
        ensures
            r == &self.xattrs,
    {
        &self.xattrs
    }
}

/// How many whole blocks of out-of-line payload an inode owns: all of the
/// payload for `FlatPlain`, the whole blocks below the inline tail for
/// `FlatInline`, and none for `ChunkBased`, which composefs never emits.
pub open spec fn spec_block_count(size: u64, layout: DataLayout, blkszbits: u8) -> int {
    let bs = (1u64 << blkszbits) as int;
    match layout {
        DataLayout::FlatPlain => size as int / bs + (if size as int % bs != 0 {
            1int
        } else {
            0int
        }),
        DataLayout::FlatInline => size as int / bs,
        DataLayout::ChunkBased => 0,
    }
}

impl Inode {
    /// The absolute block numbers of the inode's out-of-line payload,
    /// starting at its `u` field. A block list that would leave the 32-bit
    /// block address space is refused.
    pub fn blocks(&self, blkszbits: u8) -> (r: Result<Vec<u64>, ImageError>)
        requires
            blkszbits < 32,
        ensures
            ({
                let layout = spec_data_layout_of(
                    match self.header {
                        InodeHeader::Compact(h) => h.format.0,
                        InodeHeader::Extended(h) => h.format.0,
                    },
                );
                let size = match self.header {
                    InodeHeader::Compact(h) => h.size as u64,
                    InodeHeader::Extended(h) => h.size,
                };
                let u = match self.header {
                    InodeHeader::Compact(h) => h.u,
                    InodeHeader::Extended(h) => h.u,
                };
                match layout {
                    Ok(l) => {
                        let n = spec_block_count(size, l, blkszbits);
                        if u + n <= u32::MAX as int + 1 {
                            r is Ok && r->Ok_0@.len() == n && (forall|k: int|
                                0 <= k < n ==> r->Ok_0@[k] == u + k)
                        } else {
                            r == Err::<Vec<u64>, ImageError>(ImageError::TruncatedImage)
                        }
                    },
                    Err(_) => r == Err::<Vec<u64>, ImageError>(ImageError::InvalidDataLayout),
                }
            }),
    {
        let bs: u64 = 1u64 << blkszbits;
        proof {
            assert(1u64 << blkszbits > 0) by (bit_vector)
                requires
                    blkszbits < 32,
            ;
        }
        let size = self.size();
        let u = self.u();
        let layout = match self.format().data_layout() {
            Ok(l) => l,
            Err(_) => {
                return Err(ImageError::InvalidDataLayout);
            },
        };
        let n: u64 = match layout {
            DataLayout::FlatPlain => {
                let q = size / bs;
                if size % bs != 0 {
                    proof {
                        assert(blkszbits == 0 ==> 1u64 << blkszbits == 1) by (bit_vector);
                        assert(blkszbits >= 1 && blkszbits < 32 ==> 1u64 << blkszbits >= 2)
                            by (bit_vector);
                        assert(bs >= 2);
                        assert(q <= u64::MAX / 2) by (nonlinear_arith)
                            requires
                                bs >= 2,
                                q == size / bs,
                        ;
                    }
                    q + 1
                } else {
                    q
                }
            },
            DataLayout::FlatInline => size / bs,
            DataLayout::ChunkBased => 0,
        };
        let limit: u64 = u32::MAX as u64 + 1 - u as u64;
        if n > limit {
            return Err(ImageError::TruncatedImage);
        }
        let mut r: Vec<u64> = Vec::new();
        let mut k: u64 = 0;
        while k < n
            invariant
                0 <= k <= n,
                u as int + n as int <= u32::MAX as int + 1,
                r@.len() == k,
                forall|j: int| 0 <= j < k ==> r@[j] == u + j,
            decreases n - k,
        {
            r.push(u as u64 + k);
            k = k + 1;
        }
        Ok(r)
    }
}


/// Decode a compact inode header from the 32 bytes at `base`.
fn decode_compact(data: &[u8], base: usize) -> (r: CompactInodeHeader)
    requires
        base + 32 <= data@.len(),
    ensures
        compact_header_matches(r, data@, base as int),
{
    let _n: usize = data.len();
    CompactInodeHeader {
        format: FormatField(read_le16(data, base)),
        xattr_icount: read_le16(data, base + 2),
        mode: read_le16(data, base + 4),
        nlink: read_le16(data, base + 6),
        size: read_le32(data, base + 8),
        reserved: read_le32(data, base + 12),
        u: read_le32(data, base + 16),
        ino: read_le32(data, base + 20),
        uid: read_le16(data, base + 24),
        gid: read_le16(data, base + 26),
        reserved2: slice_to_vec(slice_subrange(data, base + 28, base + 32)),
    }
}

/// Decode an extended inode header from the 64 bytes at `base`.
fn decode_extended(data: &[u8], base: usize) -> (r: ExtendedInodeHeader)
    requires
        base + 64 <= data@.len(),
    ensures
        extended_header_matches(r, data@, base as int),
{
    let _n: usize = data.len();
    ExtendedInodeHeader {
        format: FormatField(read_le16(data, base)),
        xattr_icount: read_le16(data, base + 2),
        mode: read_le16(data, base + 4),
        reserved: read_le16(data, base + 6),
        size: read_le64(data, base + 8),
        u: read_le32(data, base + 16),
        ino: read_le32(data, base + 20),
        uid: read_le32(data, base + 24),
        gid: read_le32(data, base + 28),
        mtime: read_le64(data, base + 32),
        mtime_nsec: read_le32(data, base + 40),
        nlink: read_le32(data, base + 44),
        reserved2: slice_to_vec(slice_subrange(data, base + 48, base + 64)),
    }
}

/// The image byte offset of inode `nid`: a 32-byte unit index into the
/// meta block region.
pub open spec fn inode_base(meta_blkaddr: u32, blkszbits: u8, nid: u64) -> int {
    meta_blkaddr * (1u64 << blkszbits) + nid * 32
}

/// The stored header size of the inode at `base`: 64 bytes for the
/// extended layout, 32 for the compact one.
pub open spec fn inode_hsize(s: Seq<u8>, base: int) -> int {
    if spec_inode_layout_of(le16(s, base)) is Extended {
        64
    } else {
        32
    }
}

/// The stored size field of the inode at `base`.
pub open spec fn inode_size_of(s: Seq<u8>, base: int) -> u64 {
    if spec_inode_layout_of(le16(s, base)) is Extended {
        le64(s, base + 8)
    } else {
        le32(s, base + 8) as u64
    }
}

/// The length of the inline tail of the inode at `base`: the size modulo
/// the block size under `FlatInline`, nothing otherwise.
pub open spec fn inode_inline_len(s: Seq<u8>, base: int, blkszbits: u8) -> int {
    match spec_data_layout_of(le16(s, base)) {
        Ok(DataLayout::FlatInline) => inode_size_of(s, base) as int % (1u64 << blkszbits) as int,
        _ => 0,
    }
}

/// The whole stored extent of the inode at `base` lies within the image
/// and parses: header, xattr area with its shared ids and packed local
/// records, and inline tail.
pub open spec fn inode_fits(s: Seq<u8>, meta_blkaddr: u32, blkszbits: u8, nid: u64) -> bool {
    let base = inode_base(meta_blkaddr, blkszbits, nid);
    let hs = inode_hsize(s, base);
    let ic = le16(s, base + 2);
    let area = xattr_area_len(ic);
    let ilen = inode_inline_len(s, base, blkszbits);
    &&& base + 32 <= s.len()
    &&& spec_data_layout_of(le16(s, base)) is Ok
    &&& base + hs <= s.len()
    &&& base + hs + area <= s.len()
    &&& (ic > 0 ==> 12 + 4 * (s[base + hs + 4] as int) <= area && xattrs_ok(
        s,
        base + hs + 12 + 4 * (s[base + hs + 4] as int),
        base + hs + area,
    ))
    &&& base + hs + area + ilen <= s.len()
}

/// The decoded inode matches the bytes at `base`.
pub open spec fn inode_matches(ino: Inode, s: Seq<u8>, base: int, blkszbits: u8) -> bool {
    let hs = inode_hsize(s, base);
    let ic = le16(s, base + 2);
    let area = xattr_area_len(ic);
    let ilen = inode_inline_len(s, base, blkszbits);
    &&& match ino.header {
        InodeHeader::Compact(h) => hs == 32 && compact_header_matches(h, s, base),
        InodeHeader::Extended(h) => hs == 64 && extended_header_matches(h, s, base),
    }
    &&& ino.total_len == hs + area + ilen
    &&& match ino.xattrs {
        None => ic == 0,
        Some(x) => ic > 0 && inode_xattrs_match(x, s, base + hs, ic),
    }
    &&& ino.inline@ == s.subrange(base + hs + area, base + hs + area + ilen)
}

/// An opened image: the raw bytes with the decoded composefs header and
/// superblock.
#[derive(Debug)]
pub struct Image {
    pub data: Vec<u8>,
    pub header: ComposefsHeader,
    pub sb: Superblock,
    pub blkszbits: u8,
}

/// The image is long enough for its fixed region, both magics match, and
/// the block size is sane.
pub open spec fn image_ok(s: Seq<u8>) -> bool {
    &&& s.len() >= 1152
    &&& le32(s, 0) == COMPOSEFS_MAGIC
    &&& le32(s, 1024) == MAGIC_V1
    &&& s[1036] < 32
}

impl Image {
    /// The decoded headers belong to the bytes held.
    pub open spec fn wf(self) -> bool {
        &&& image_ok(self.data@)
        &&& composefs_header_matches(self.header, self.data@, 0)
        &&& superblock_matches(self.sb, self.data@, 1024)
        &&& self.blkszbits == self.sb.blkszbits
        &&& self.blkszbits < 32
    }

    /// Open an image: check both magics and the fixed region's extent, and
    /// decode the header and superblock.
    pub fn open(data: Vec<u8>) -> (r: Result<Image, ImageError>)
        ensures
            match r {
                Ok(img) => image_ok(data@) && img.data@ == data@ && img.wf(),
                Err(e) => !image_ok(data@) && ((e == ImageError::TruncatedImage && (data@.len()
                    < 1152 || (le32(data@, 0) == COMPOSEFS_MAGIC && le32(data@, 1024) == MAGIC_V1
                    && data@[1036] >= 32))) || (e == ImageError::BadMagic && data@.len() >= 1152
                    && !(le32(data@, 0) == COMPOSEFS_MAGIC && le32(data@, 1024) == MAGIC_V1))),
            },
    {
        if data.len() < 1152 {
            return Err(ImageError::TruncatedImage);
        }
        let header = ComposefsHeader::decode(data.as_slice(), 0);
        let sb = Superblock::decode(data.as_slice(), 1024);
        if header.magic != COMPOSEFS_MAGIC || sb.magic != MAGIC_V1 {
            return Err(ImageError::BadMagic);
        }
        if sb.blkszbits >= 32 {
            return Err(ImageError::TruncatedImage);
        }
        let blkszbits = sb.blkszbits;
        Ok(Image { data, header, sb, blkszbits })
    }

    /// Decode inode `nid`, with its xattr area and inline payload.
    #[verifier::rlimit(100)]
    pub fn inode(&self, nid: u64) -> (r: Result<Inode, ImageError>)
        requires
            self.wf(),
        ensures
            ({
                let s = self.data@;
                let base = inode_base(self.sb.meta_blkaddr, self.blkszbits, nid);
                match r {
                    Ok(ino) => inode_fits(s, self.sb.meta_blkaddr, self.blkszbits, nid)
                        && ino.nid == nid && ino.offset == base && inode_matches(
                        ino,
                        s,
                        base,
                        self.blkszbits,
                    ),
                    Err(e) => !inode_fits(s, self.sb.meta_blkaddr, self.blkszbits, nid) && (e
                        == ImageError::InvalidDataLayout <==> (base + 32 <= s.len()
                        && spec_data_layout_of(le16(s, base)) is Err)) && (e
                        == ImageError::InvalidDataLayout || e == ImageError::TruncatedImage),
                }
            }),
    {
        let d = self.data.as_slice();
        let len: usize = self.data.len();
        let bits: u8 = self.blkszbits;
        let bs: u64 = 1u64 << bits;
        proof {
            assert(1u64 << bits >= 1 && (1u64 << bits) <= 0x8000_0000u64) by (bit_vector)
                requires
                    bits < 32,
            ;
        }
        let ghost baseg = inode_base(self.sb.meta_blkaddr, self.blkszbits, nid);
        proof {
            assert((self.sb.meta_blkaddr as int) * (bs as int) <= 0xffff_ffff * 0x8000_0000int)
                by (nonlinear_arith)
                requires
                    self.sb.meta_blkaddr as int <= 0xffff_ffffint,
                    bs as int <= 0x8000_0000int,
                    self.sb.meta_blkaddr as int >= 0,
                    bs as int >= 1,
            ;
        }
        let base128: u128 = (self.sb.meta_blkaddr as u128) * (bs as u128) + (nid as u128) * 32;
        proof {
            assert(base128 as int == baseg);
        }
        if base128 + 32 > len as u128 {
            return Err(ImageError::TruncatedImage);
        }
        let base: usize = base128 as usize;
        let format = read_le16(d, base);
        let ff = FormatField(format);
        match ff.data_layout() {
            Err(_) => {
                return Err(ImageError::InvalidDataLayout);
            },
            Ok(_) => {},
        }
        let extended = match ff.inode_layout() {
            InodeLayout::Extended => true,
            InodeLayout::Compact => false,
        };
        let hs: usize = if extended {
            64
        } else {
            32
        };
        if len - base < hs {
            return Err(ImageError::TruncatedImage);
        }
        let icount = read_le16(d, base + 2);
        let area: usize = if icount == 0 {
            0
        } else {
            12 + 4 * (icount as usize - 1)
        };
        if len - base - hs < area {
            return Err(ImageError::TruncatedImage);
        }
        let header = if extended {
            InodeHeader::Extended(decode_extended(d, base))
        } else {
            InodeHeader::Compact(decode_compact(d, base))
        };
        let xattrs: Option<InodeXAttrs> = if icount > 0 {
            let xoff = base + hs;
            let name_filter = read_le32(d, xoff);
            let shared_count = d[xoff + 4];
            let reserved = slice_to_vec(slice_subrange(d, xoff + 5, xoff + 12));
            let sc = shared_count as usize;
            if area - 12 < 4 * sc {
                return Err(ImageError::TruncatedImage);
            }
            let mut shared: Vec<u32> = Vec::new();
            let mut k: usize = 0;
            while k < sc
                invariant
                    0 <= k <= sc,
                    len == self.data@.len(),
                    xoff + 12 + 4 * sc <= self.data@.len(),
                    d@ == self.data@,
                    shared@.len() == k,
                    forall|j: int|
                        0 <= j < k ==> shared@[j] == le32(d@, xoff as int + 12 + 4 * j),
                decreases sc - k,
            {
                shared.push(read_le32(d, xoff + 12 + 4 * k));
                k = k + 1;
            }
            let local = match parse_local_xattrs(d, xoff + 12 + 4 * sc, xoff + area) {
                Ok(v) => v,
                Err(e) => {
                    return Err(e);
                },
            };
            Some(
                InodeXAttrs {
                    header: InodeXAttrHeader { name_filter, shared_count, reserved },
                    shared,
                    local,
                },
            )
        } else {
            None
        };
        let size = match &header {
            InodeHeader::Compact(h) => h.size as u64,
            InodeHeader::Extended(h) => h.size,
        };
        let ilen64: u64 = match ff.data_layout() {
            Ok(DataLayout::FlatInline) => size % bs,
            _ => 0,
        };
        let ilen: usize = ilen64 as usize;
        if len - base - hs - area < ilen {
            return Err(ImageError::TruncatedImage);
        }
        let inline = slice_to_vec(slice_subrange(d, base + hs + area, base + hs + area + ilen));
        let total_len: u64 = (hs + area + ilen) as u64;
        proof {
            assert(hs + area + ilen <= len);
        }
        Ok(Inode { nid, offset: base as u64, total_len, header, xattrs, inline })
    }

    /// Decode the shared xattr record with the given id: a 4-byte unit
    /// index into the xattr region.
    pub fn shared_xattr(&self, id: u32) -> (r: Result<XAttr, ImageError>)
        requires
            self.wf(),
        ensures
            ({
                let s = self.data@;
                let off = self.sb.xattr_blkaddr * (1u64 << self.blkszbits) + id * 4;
                match r {
                    Ok(x) => off + 4 <= s.len() && off + xattr_total_at(s, off) <= s.len()
                        && xattr_matches(x, s, off),
                    Err(e) => e == ImageError::TruncatedImage && !(off + 4 <= s.len() && off
                        + xattr_total_at(s, off) <= s.len()),
                }
            }),
    {
        let d = self.data.as_slice();
        let len: usize = self.data.len();
        let bits: u8 = self.blkszbits;
        let bs: u64 = 1u64 << bits;
        proof {
            assert(1u64 << bits >= 1 && (1u64 << bits) <= 0x8000_0000u64) by (bit_vector)
                requires
                    bits < 32,
            ;
            assert((self.sb.xattr_blkaddr as int) * (bs as int) <= 0xffff_ffff * 0x8000_0000int)
                by (nonlinear_arith)
                requires
                    self.sb.xattr_blkaddr as int <= 0xffff_ffffint,
                    bs as int <= 0x8000_0000int,
                    self.sb.xattr_blkaddr as int >= 0,
                    bs as int >= 1,
            ;
        }
        let off128: u128 = (self.sb.xattr_blkaddr as u128) * (bs as u128) + (id as u128) * 4;
        if off128 + 4 > len as u128 {
            return Err(ImageError::TruncatedImage);
        }
        decode_xattr(d, off128 as usize, len)
    }

    /// The `block_size` bytes of the physical block with the given number.
    pub fn data_block(&self, block: u64) -> (r: Result<Vec<u8>, ImageError>)
        requires
            self.wf(),
        ensures
            ({
                let s = self.data@;
                let bs = (1u64 << self.blkszbits) as int;
                match r {
                    Ok(b) => block * bs + bs <= s.len() && b@ == s.subrange(
                        block * bs,
                        block * bs + bs,
                    ),
                    Err(e) => e == ImageError::TruncatedImage && block * bs + bs > s.len(),
                }
            }),
    {
        let d = self.data.as_slice();
        let len: usize = self.data.len();
        let bits: u8 = self.blkszbits;
        let bs: u64 = 1u64 << bits;
        proof {
            assert(1u64 << bits >= 1 && (1u64 << bits) <= 0x8000_0000u64) by (bit_vector)
                requires
                    bits < 32,
            ;
            assert((block as int) * (bs as int) + bs as int <= 0xffff_ffff_ffff_ffff
                * 0x8000_0000int + 0x8000_0000int) by (nonlinear_arith)
                requires
                    block as int <= 0xffff_ffff_ffff_ffffint,
                    bs as int <= 0x8000_0000int,
                    block as int >= 0,
                    bs as int >= 1,
            ;
        }
        let off128: u128 = (block as u128) * (bs as u128);
        if off128 + (bs as u128) > len as u128 {
            return Err(ImageError::TruncatedImage);
        }
        let off: usize = off128 as usize;
        Ok(slice_to_vec(slice_subrange(d, off, off + bs as usize)))
    }

    /// The physical block with the given number, decoded as a directory
    /// block.
    pub fn directory_block(&self, block: u64) -> (r: Result<DirectoryBlock, ImageError>)
        requires
            self.wf(),
        ensures
            ({
                let s = self.data@;
                let bs = (1u64 << self.blkszbits) as int;
                let bytes = s.subrange(block * bs, block * bs + bs);
                match r {
                    Ok(b) => block * bs + bs <= s.len() && dirblock_ok(bytes) && dirblock_matches(
                        b.entries@,
                        bytes,
                    ),
                    Err(e) => e == ImageError::TruncatedImage && !(block * bs + bs <= s.len()
                        && dirblock_ok(bytes)),
                }
            }),
    {
        let bytes = match self.data_block(block) {
            Ok(b) => b,
            Err(e) => {
                return Err(e);
            },
        };
        DirectoryBlock::decode(bytes.as_slice())
    }
}

} // verus!
